//! Three linked containers, each verified against a sequence model:
//! a doubly-linked deque with ends that can both be read and written,
//! a singly-owned stack, and a structurally-shared persistent list.

pub mod deque;
pub mod persistent;
pub mod stack;
