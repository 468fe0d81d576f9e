use circulate::{RingBuffer, MAX_CAPACITY};
use std::cell::Cell;
use std::rc::Rc;

fn drain<T>(ring: &mut RingBuffer<T>) -> Vec<T> {
    let mut out = Vec::new();
    while let Some(v) = ring.pop() {
        out.push(v);
    }
    out
}

#[test]
fn new_buffer_is_empty_and_unallocated() {
    let ring: RingBuffer<u32> = RingBuffer::new();
    assert!(ring.empty());
    assert!(ring.full());
    assert_eq!(ring.len(), 0);
    assert_eq!(ring.capacity(), 0);
}

#[test]
fn with_capacity_rounds_up_leaving_a_free_slot() {
    let ring: RingBuffer<u8> = RingBuffer::with_capacity(4);
    assert_eq!(ring.capacity(), 8);
    let ring: RingBuffer<u8> = RingBuffer::with_capacity(3);
    assert_eq!(ring.capacity(), 4);
    let ring: RingBuffer<u8> = RingBuffer::with_capacity(1);
    assert_eq!(ring.capacity(), 2);
    let ring: RingBuffer<u8> = RingBuffer::with_capacity(0);
    assert_eq!(ring.capacity(), 0);
}

#[test]
fn fifo_round_trip() {
    let mut ring = RingBuffer::new();
    for v in ["a", "b", "c", "d"] {
        ring.push(v);
    }
    assert_eq!(ring.pop(), Some("a"));
    assert_eq!(ring.pop(), Some("b"));
    assert_eq!(ring.pop(), Some("c"));
    assert_eq!(ring.pop(), Some("d"));
    assert_eq!(ring.pop(), None);
}

#[test]
fn fifo_across_wraparounds() {
    let mut ring: RingBuffer<u32> = RingBuffer::with_capacity(3);
    let cap = ring.capacity();
    let mut next_in = 0u32;
    let mut next_out = 0u32;
    for _ in 0..50 {
        ring.push(next_in);
        next_in += 1;
        ring.push(next_in);
        next_in += 1;
        assert_eq!(ring.pop(), Some(next_out));
        next_out += 1;
        assert_eq!(ring.pop(), Some(next_out));
        next_out += 1;
    }
    assert_eq!(ring.capacity(), cap);
    assert!(ring.empty());
}

#[test]
fn growth_preserves_order() {
    let mut ring: RingBuffer<u32> = RingBuffer::with_capacity(7);
    let cap = ring.capacity();
    assert_eq!(cap, 8);
    // Move the cursors so that the queue wraps the end of the allocation.
    for v in 0..5 {
        ring.push(v);
    }
    for v in 0..5 {
        assert_eq!(ring.pop(), Some(v));
    }
    for v in 0..(cap as u32 - 1) {
        ring.push(v);
    }
    assert!(ring.full());
    assert_eq!(ring.len(), cap - 1);
    ring.push(100);
    assert_eq!(ring.capacity(), 16);
    let mut expected: Vec<u32> = (0..(cap as u32 - 1)).collect();
    expected.push(100);
    assert_eq!(drain(&mut ring), expected);
}

#[test]
fn push_doubles_capacity_when_full() {
    let mut ring = RingBuffer::new();
    ring.push(1u8);
    assert_eq!(ring.capacity(), 2);
    ring.push(2);
    assert_eq!(ring.capacity(), 4);
    ring.push(3);
    assert_eq!(ring.capacity(), 4);
    ring.push(4);
    assert_eq!(ring.capacity(), 8);
}

#[test]
fn reserve_rounds_capacity_plus_count() {
    let mut ring: RingBuffer<u8> = RingBuffer::with_capacity(3);
    ring.push(9);
    ring.reserve(5);
    assert_eq!(ring.capacity(), 16);
    assert_eq!(ring.len(), 1);
    assert_eq!(ring.pop(), Some(9));
    let mut empty: RingBuffer<u8> = RingBuffer::new();
    empty.reserve(0);
    assert_eq!(empty.capacity(), 0);
}

#[test]
fn len_empty_full_agree() {
    let mut ring: RingBuffer<u16> = RingBuffer::with_capacity(3);
    let mut pushes = 0usize;
    let mut pops = 0usize;
    for step in 0..40u16 {
        if step % 3 == 2 {
            if ring.pop().is_some() {
                pops += 1;
            }
        } else {
            ring.push(step);
            pushes += 1;
        }
        assert!(ring.len() <= pushes - pops);
        assert_eq!(ring.empty(), ring.len() == 0);
        assert_eq!(ring.full(), ring.len() == ring.capacity() - 1);
    }
}

#[test]
fn get_is_relative_to_read_cursor() {
    let mut ring = RingBuffer::new();
    for v in 10..15 {
        ring.push(v);
    }
    ring.pop();
    assert_eq!(ring.get(0), Some(&11));
    assert_eq!(ring.get(3), Some(&14));
    assert_eq!(ring.get(4), None);
    let empty: RingBuffer<i32> = RingBuffer::new();
    assert_eq!(empty.get(0), None);
}

#[test]
fn get_mut_changes_one_element() {
    let mut ring = RingBuffer::new();
    for v in 0..3 {
        ring.push(v);
    }
    if let Some(v) = ring.get_mut(1) {
        *v = 42;
    }
    assert!(ring.get_mut(3).is_none());
    assert_eq!(drain(&mut ring), vec![0, 42, 2]);
}

#[test]
fn iter_visits_in_order_and_can_restart() {
    let mut ring = RingBuffer::new();
    for v in ["apples", "oranges", "pears", "grapes"] {
        ring.push(v.to_owned());
    }
    ring.pop();
    let mut seen = Vec::new();
    let mut it = ring.iter();
    while let Some(v) = it.next() {
        seen.push(v.clone());
    }
    assert_eq!(seen, vec!["oranges", "pears", "grapes"]);
    let mut again = ring.iter();
    assert_eq!(again.next().map(|s| s.as_str()), Some("oranges"));
    assert_eq!(ring.len(), 3);
}

#[test]
fn into_iter_drains() {
    let mut ring = RingBuffer::new();
    for v in 1..=4 {
        ring.push(v);
    }
    let mut it = ring.into_iter();
    assert_eq!(it.next(), Some(1));
    assert_eq!(it.next(), Some(2));
    assert_eq!(it.count(), 2);
}

#[test]
fn clear_keeps_capacity() {
    let mut ring = RingBuffer::new();
    for v in 0..5 {
        ring.push(v);
    }
    let cap = ring.capacity();
    ring.clear();
    assert!(ring.empty());
    assert_eq!(ring.capacity(), cap);
    ring.push(7);
    assert_eq!(ring.pop(), Some(7));
}

struct Counted(Rc<Cell<usize>>);

impl Drop for Counted {
    fn drop(&mut self) {
        self.0.set(self.0.get() + 1);
    }
}

#[test]
fn drop_destroys_each_element_once_when_split() {
    let drops = Rc::new(Cell::new(0));
    let mut ring = RingBuffer::with_capacity(7);
    for _ in 0..6 {
        ring.push(Counted(drops.clone()));
    }
    for _ in 0..4 {
        ring.pop();
    }
    assert_eq!(drops.get(), 4);
    // The queue now wraps past the end of the allocation.
    for _ in 0..5 {
        ring.push(Counted(drops.clone()));
    }
    assert_eq!(ring.len(), 7);
    drop(ring);
    assert_eq!(drops.get(), 11);
}

#[test]
fn clear_destroys_each_element_once() {
    let drops = Rc::new(Cell::new(0));
    let mut ring = RingBuffer::with_capacity(3);
    for _ in 0..3 {
        ring.push(Counted(drops.clone()));
    }
    ring.pop();
    ring.push(Counted(drops.clone()));
    ring.clear();
    assert_eq!(drops.get(), 4);
    drop(ring);
    assert_eq!(drops.get(), 4);
}

#[test]
fn zero_sized_elements_are_not_stored() {
    let mut ring = RingBuffer::new();
    ring.push(());
    assert_eq!(ring.capacity(), 0);
    assert!(ring.full());
    assert_eq!(ring.pop(), None);
}

#[test]
fn spare_capacity_then_commit() {
    let mut ring: RingBuffer<u8> = RingBuffer::with_capacity(7);
    for v in 0..6 {
        ring.push(v);
    }
    for _ in 0..5 {
        ring.pop();
    }
    let written = [b'a', b'b', b'c', b'd', b'e', b'f'];
    let k;
    {
        let (first, second) = ring.spare_capacity_mut();
        k = first.len() + second.len();
        assert_eq!(k, 6);
        assert_eq!(first.len(), 2);
        let mut next = 0;
        for slot in first.iter_mut().chain(second.iter_mut()) {
            *slot = Some(written[next]);
            next += 1;
        }
    }
    ring.set_write_cursor(k);
    assert!(ring.full());
    let mut expected = vec![5u8];
    expected.extend_from_slice(&written);
    assert_eq!(drain(&mut ring), expected);
}

#[test]
fn spare_capacity_of_empty_buffer() {
    let mut ring: RingBuffer<u8> = RingBuffer::with_capacity(3);
    let (first, second) = ring.spare_capacity_mut();
    assert_eq!(first.len() + second.len(), 3);
    let mut none: RingBuffer<u8> = RingBuffer::new();
    let (first, second) = none.spare_capacity_mut();
    assert_eq!(first.len() + second.len(), 0);
}

#[test]
fn set_read_cursor_skips() {
    let mut ring = RingBuffer::new();
    for v in 0..6u8 {
        ring.push(v);
    }
    ring.set_read_cursor(4);
    assert_eq!(drain(&mut ring), vec![4, 5]);
}

#[test]
fn max_capacity_is_a_power_of_two() {
    assert!(MAX_CAPACITY.is_power_of_two());
    assert_eq!(MAX_CAPACITY, (usize::MAX >> 1) + 1);
}

#[test]
fn as_mut_slices_splits_when_wrapped() {
    let mut ring: RingBuffer<u8> = RingBuffer::with_capacity(3);
    for v in 0..3 {
        ring.push(v);
    }
    ring.pop();
    ring.pop();
    ring.push(3);
    ring.push(4);
    {
        let (first, second) = ring.as_mut_slices();
        assert_eq!(first, &[Some(2), Some(3)]);
        assert_eq!(second, &[Some(4)]);
        for slot in first.iter_mut().chain(second.iter_mut()) {
            *slot = slot.map(|v| v * 10);
        }
    }
    assert_eq!(drain(&mut ring), vec![20, 30, 40]);
    let (first, second) = ring.as_mut_slices();
    assert!(first.is_empty() && second.is_empty());
}

#[test]
fn commit_checks_count_and_filled_slots() {
    let mut ring: RingBuffer<u8> = RingBuffer::with_capacity(3);
    assert_eq!(ring.spare_count(), 3);
    assert!(!ring.commit(4));
    {
        let (first, _second) = ring.spare_capacity_mut();
        first[0] = Some(7);
    }
    assert!(!ring.commit(2));
    assert!(ring.empty());
    assert!(ring.commit(1));
    assert_eq!(ring.pop(), Some(7));
}

#[test]
fn max_slots_bounds_growth() {
    assert!(RingBuffer::<u8>::max_slots() <= MAX_CAPACITY);
    assert!(RingBuffer::<u64>::max_slots() < RingBuffer::<u8>::max_slots());
}

#[test]
fn iter_mut_changes_every_element_across_the_wrap() {
    let mut ring: RingBuffer<u32> = RingBuffer::with_capacity(3);
    for v in 0..3 {
        ring.push(v);
    }
    ring.pop();
    ring.pop();
    ring.push(3);
    ring.push(4);
    let mut it = ring.iter_mut();
    while let Some(v) = it.next() {
        *v += 100;
    }
    assert_eq!(drain(&mut ring), vec![102, 103, 104]);
    let mut empty: RingBuffer<u32> = RingBuffer::new();
    assert!(empty.iter_mut().next().is_none());
}
