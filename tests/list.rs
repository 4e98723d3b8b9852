use std::cell::Cell;
use std::rc::Rc;

use skiplist::{adopts_skip, LinkedList, PercentSource, ThreadRandom};

#[test]
fn insert_increments_length() {
    let mut list = LinkedList::new();
    list.append(0);
    assert_eq!(list.length(), 1);
}

#[test]
fn insert_at_for_one_value() {
    let mut list = LinkedList::new();
    list.append(0);
    assert_eq!(list.at(0), Some(0));
}

#[test]
fn insert_at_for_two_values() {
    let mut list = LinkedList::new();
    list.append(0);
    list.append(1);
    assert_eq!(list.at(0), Some(0));
    assert_eq!(list.at(1), Some(1));
}

#[test]
fn many_inserts() {
    let mut list = LinkedList::new();
    for i in 0..100 {
        list.append(i);
    }

    for i in 0..100 {
        assert_eq!(list.at(i), Some(i));
    }
}

#[test]
fn many_inserts_and_iteration() {
    let mut list = LinkedList::new();
    for i in 0..100 {
        list.append(i);
    }

    let mut i = 0;
    while let Some(item) = list.next() {
        assert_eq!(item, i);
        i += 1;
    }
}

#[test]
fn many_inserts_lookup_iterations_should_be_less_than_items() {
    let mut list = LinkedList::new();
    let head = list.append(0);
    for i in 1..1000 {
        list.append(i);
    }

    let (result, it) = list._at(999, head, 0);
    assert!(it < 999);
    assert_eq!(result.unwrap(), 999);
}

/// A payload that keeps count of how many of its kind are alive.
struct Counted {
    live: Rc<Cell<usize>>,
}

impl Counted {
    fn new(live: &Rc<Cell<usize>>) -> Counted {
        live.set(live.get() + 1);
        Counted { live: Rc::clone(live) }
    }
}

impl Drop for Counted {
    fn drop(&mut self) {
        self.live.set(self.live.get() - 1);
    }
}

#[test]
fn nodes_should_not_leak() {
    let live = Rc::new(Cell::new(0usize));
    let get_node_count = || live.get();
    let count_before = get_node_count();
    {
        let mut list = LinkedList::new();
        for _ in 0..7 {
            list.append(Counted::new(&live));
        }

        assert_eq!(get_node_count(), count_before + 7);
    }

    assert_eq!(get_node_count(), count_before);
}

#[test]
fn draining_releases_every_value() {
    let live = Rc::new(Cell::new(0usize));
    let mut list = LinkedList::new();
    for _ in 0..7 {
        list.append(Counted::new(&live));
    }
    assert_eq!(live.get(), 7);
    while let Some(value) = list.next() {
        drop(value);
    }
    assert_eq!(live.get(), 0);
    assert_eq!(list.length(), 0);
}

#[test]
fn lookup_past_the_end_is_empty() {
    let mut list = LinkedList::new();
    for i in 0..100u32 {
        list.append(i);
    }
    assert_eq!(list.at(100), None);
    assert_eq!(list.at(1000), None);
    assert_eq!(list.at(usize::MAX), None);
}

#[test]
fn empty_list_finds_nothing() {
    let mut list: LinkedList<u8> = LinkedList::new();
    assert_eq!(list.length(), 0);
    assert_eq!(list.at(0), None);
    assert_eq!(list.next(), None);
    assert_eq!(list.size_hint(), (0, Some(0)));
}

#[test]
fn append_returns_positions_in_order() {
    let mut list = LinkedList::new();
    assert_eq!(list.append('a'), 0);
    assert_eq!(list.append('b'), 1);
    assert_eq!(list.append('c'), 2);
    assert_eq!(list.length(), 3);
}

#[test]
fn draining_empties_the_list() {
    let mut list = LinkedList::new();
    for i in 0..10u64 {
        list.append(i);
    }
    assert_eq!(list.size_hint(), (10, Some(10)));
    let mut seen = Vec::new();
    while let Some(v) = list.next() {
        seen.push(v);
    }
    assert_eq!(seen, (0..10u64).collect::<Vec<_>>());
    assert_eq!(list.length(), 0);
    assert_eq!(list.at(0), None);
}

#[test]
fn exhausted_list_yields_nothing_again() {
    let mut list = LinkedList::new();
    list.append(5i64);
    assert_eq!(list.next(), Some(5));
    assert_eq!(list.next(), None);
    assert_eq!(list.next(), None);
    assert_eq!(list.length(), 0);
}

#[test]
fn partial_drain_keeps_positions() {
    let mut list = LinkedList::new();
    for i in 0..5u32 {
        list.append(i * 10);
    }
    assert_eq!(list.next(), Some(0));
    assert_eq!(list.next(), Some(10));
    assert_eq!(list.length(), 3);
    assert_eq!(list.at(0), None);
    assert_eq!(list.at(1), None);
    assert_eq!(list.at(2), Some(20));
    assert_eq!(list.at(4), Some(40));
    assert_eq!(list.at(5), None);
    assert_eq!(list.append(50), 5);
    assert_eq!(list.at(5), Some(50));
}

#[test]
fn appending_after_full_drain_starts_at_zero() {
    let mut list = LinkedList::new();
    list.append(1u8);
    list.append(2u8);
    assert_eq!(list.next(), Some(1));
    assert_eq!(list.next(), Some(2));
    assert_eq!(list.append(3), 0);
    assert_eq!(list.at(0), Some(3));
    assert_eq!(list.length(), 1);
}

#[test]
fn count_reports_length() {
    let mut list = LinkedList::new();
    for i in 0..7 {
        list.append(i);
    }
    assert_eq!(list.count(), 7);
}

#[test]
fn skip_decision_thresholds() {
    // next to each other: threshold 100, no draw below 100 adopts
    assert!(!adopts_skip(0, 1, 99));
    assert!(!adopts_skip(0, 1, 100));
    assert!(adopts_skip(0, 1, 101));
    // one between them: threshold 95
    assert!(!adopts_skip(3, 5, 95));
    assert!(adopts_skip(3, 5, 96));
    // ten between them: threshold 50
    assert!(!adopts_skip(0, 11, 50));
    assert!(adopts_skip(0, 11, 51));
    // twenty between them: threshold 0
    assert!(!adopts_skip(0, 21, 0));
    assert!(adopts_skip(0, 21, 1));
    // far apart: threshold 0
    assert!(adopts_skip(7, 10_000, 1));
    assert!(!adopts_skip(7, 10_000, 0));
}

/// Always returns the same draw.
struct Fixed(u64);

impl PercentSource for Fixed {
    fn draw(&mut self) -> u64 {
        self.0
    }
}

#[test]
fn without_skips_lookup_is_linear() {
    let mut rng = Fixed(0);
    let mut list = LinkedList::new();
    let head = list.append_with(0usize, &mut rng);
    for i in 1..1000 {
        list.append_with(i, &mut rng);
    }
    assert_eq!(list._at(999, head, 0), (Some(999), 999));
    assert_eq!(list._at(1000, head, 0), (None, 1000));
    assert_eq!(list.at(500), Some(500));
}

#[test]
fn high_draws_skip_every_other_node() {
    // a draw of 99 never beats the successor's threshold of 100, and always
    // beats 95, so each new node becomes the skip target of the node two back
    let mut rng = Fixed(99);
    let mut list = LinkedList::new();
    let head = list.append_with(0usize, &mut rng);
    for i in 1..1000 {
        list.append_with(i, &mut rng);
    }
    assert_eq!(list._at(999, head, 0), (Some(999), 500));
    assert_eq!(list._at(998, head, 0), (Some(998), 499));
    for i in 0..1000 {
        assert_eq!(list.at(i), Some(i));
    }
}

#[test]
fn thread_random_draws_below_one_hundred() {
    let mut rng = ThreadRandom;
    let mut seen_nonzero = false;
    for _ in 0..1000 {
        let d = rng.draw();
        assert!(d < 100);
        if d != 0 {
            seen_nonzero = true;
        }
    }
    assert!(seen_nonzero);
}
