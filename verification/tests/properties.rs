use std::cell::Cell;
use std::collections::VecDeque;
use std::rc::Rc;

use linked_lists::deque::List;

/// An element that keeps a shared count of how many of it are alive.
struct Counted {
    live: Rc<Cell<i64>>,
}

impl Counted {
    fn new(live: &Rc<Cell<i64>>) -> Counted {
        live.set(live.get() + 1);
        Counted { live: Rc::clone(live) }
    }
}

impl Drop for Counted {
    fn drop(&mut self) {
        self.live.set(self.live.get() - 1);
    }
}

fn next_step(seed: &mut u64) -> u64 {
    *seed = seed
        .wrapping_mul(6364136223846793005)
        .wrapping_add(1442695040888963407);
    *seed >> 33
}

#[test]
fn random_ops_match_reference_deque() {
    let live = Rc::new(Cell::new(0i64));
    let mut list: List<(u64, Counted)> = List::new();
    let mut model: VecDeque<u64> = VecDeque::new();
    let mut seed: u64 = 0x9e3779b97f4a7c15;

    for step in 0..4000u64 {
        match next_step(&mut seed) % 6 {
            0 | 1 => {
                list.push_front((step, Counted::new(&live)));
                model.push_front(step);
            }
            2 | 3 => {
                list.push_back((step, Counted::new(&live)));
                model.push_back(step);
            }
            4 => {
                let got = list.pop_front().map(|(v, _)| v);
                assert_eq!(got, model.pop_front());
            }
            _ => {
                let got = list.pop_back().map(|(v, _)| v);
                assert_eq!(got, model.pop_back());
            }
        }
        assert_eq!(list.peek_front().map(|e| e.0), model.front().copied());
        assert_eq!(list.peek_back().map(|e| e.0), model.back().copied());
        // exactly one live element per entry of the reference model
        assert_eq!(live.get(), model.len() as i64);
    }

    while let Some(expected) = model.pop_front() {
        assert_eq!(list.pop_front().map(|(v, _)| v), Some(expected));
    }
    assert!(list.pop_front().is_none());
    assert_eq!(live.get(), 0);
}

#[test]
fn teardown_releases_every_node() {
    let live = Rc::new(Cell::new(0i64));
    {
        let mut list = List::new();
        for _ in 0..100_000 {
            list.push_front(Counted::new(&live));
        }
        assert_eq!(live.get(), 100_000);
        // the deque is dropped here while far from empty
    }
    assert_eq!(live.get(), 0);
}

#[test]
fn detached_nodes_are_released_at_pop() {
    let live = Rc::new(Cell::new(0i64));
    let mut list = List::new();
    for _ in 0..64 {
        list.push_back(Counted::new(&live));
    }
    for expected in (0..64i64).rev() {
        let elem = list.pop_front().unwrap();
        drop(elem);
        assert_eq!(live.get(), expected);
    }
}
