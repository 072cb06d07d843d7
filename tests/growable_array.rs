use std::cell::Cell;

use segtree::growable_array::{required_height, GrowableArray, NULL, SEGMENT_SIZE};

/// Counts how often an element is dropped.
struct Canary<'a> {
    drops: &'a Cell<usize>,
}

impl Drop for Canary<'_> {
    fn drop(&mut self) {
        self.drops.set(self.drops.get() + 1);
    }
}

#[test]
fn example_run_of_three_indices() {
    let mut a = GrowableArray::new();
    assert_eq!(a.segment_count(), 0);

    let cat = a.get(0b001);
    assert_eq!(a.height(), 0);
    assert_eq!(a.segment_count(), 1);
    assert_eq!(cat.offset, 1);

    let fox = a.get(0b111 * SEGMENT_SIZE + 0b011);
    assert_eq!(a.height(), 1);
    assert_eq!(a.segment_count(), 3);
    assert_eq!(fox.offset, 0b011);
    assert_ne!(fox.segment, cat.segment);

    let owl = a.get(0b110);
    assert_eq!(a.height(), 1);
    assert_eq!(a.segment_count(), 3);
    assert_eq!(owl.segment, cat.segment);
    assert_eq!(owl.offset, 0b110);
}

#[test]
fn index_zero_on_empty_array() {
    let mut a = GrowableArray::new();
    let s = a.get(0);
    assert_eq!(a.height(), 0);
    assert_eq!(a.segment_count(), 1);
    assert_eq!(s.offset, 0);
    assert_eq!(a.load(s), NULL);
}

#[test]
fn same_index_gives_same_slot() {
    let mut a = GrowableArray::new();
    let first = a.get(4242);
    let count = a.segment_count();
    let again = a.get(4242);
    assert_eq!(first, again);
    assert_eq!(a.segment_count(), count);
    a.get(9);
    a.get(1 << 30);
    a.get(77_777);
    assert_eq!(a.get(4242), first);
}

#[test]
fn distinct_indices_give_distinct_slots() {
    let mut a = GrowableArray::new();
    let mut seen = Vec::new();
    for i in [0usize, 1, 1023, 1024, 1025, 2047, 2048, 1 << 20, (1 << 20) + 1] {
        let s = a.get(i);
        assert!(!seen.contains(&s));
        seen.push(s);
    }
}

#[test]
fn height_fits_largest_index() {
    let mut a = GrowableArray::new();
    for i in 0..5000usize {
        a.get(i);
    }
    assert_eq!(a.height(), 1);
    let mut b = GrowableArray::new();
    b.get(1023);
    assert_eq!(b.height(), 0);
    b.get(1024);
    assert_eq!(b.height(), 1);
    b.get((1 << 20) - 1);
    assert_eq!(b.height(), 1);
    b.get(1 << 20);
    assert_eq!(b.height(), 2);
    b.get(usize::MAX);
    assert_eq!(b.height(), 6);
}

#[test]
fn height_never_decreases() {
    let mut a = GrowableArray::new();
    a.get(1 << 25);
    assert_eq!(a.height(), 2);
    a.get(3);
    assert_eq!(a.height(), 2);
    a.get(1 << 12);
    assert_eq!(a.height(), 2);
}

#[test]
fn required_heights() {
    assert_eq!(required_height(0), 0);
    assert_eq!(required_height(1023), 0);
    assert_eq!(required_height(1024), 1);
    assert_eq!(required_height((1 << 20) - 1), 1);
    assert_eq!(required_height(1 << 20), 2);
    assert_eq!(required_height(1 << 60), 6);
    assert_eq!(required_height(usize::MAX), 6);
}

#[test]
fn growth_keeps_slots_and_contents() {
    let mut a = GrowableArray::new();
    let s = a.get(5);
    a.store(s, 55);
    let t = a.get(3 << 20);
    assert_eq!(a.height(), 2);
    assert_eq!(a.load(t), NULL);
    assert_eq!(a.get(5), s);
    let again = a.get(5);
    assert_eq!(a.load(again), 55);
}

#[test]
fn store_load_and_compare_exchange() {
    let mut a = GrowableArray::new();
    let s = a.get(2000);
    let t = a.get(2001);
    assert_eq!(a.load(s), NULL);
    a.store(s, 17);
    assert_eq!(a.load(s), 17);
    assert_eq!(a.load(t), NULL);
    assert_eq!(a.compare_exchange(s, 3, 4), Err(17));
    assert_eq!(a.load(s), 17);
    assert_eq!(a.compare_exchange(s, 17, 4), Ok(17));
    assert_eq!(a.load(s), 4);
    assert_eq!(a.compare_exchange(t, NULL, 9), Ok(NULL));
    assert_eq!(a.load(t), 9);
}

#[test]
fn destroy_frees_segments_not_elements() {
    let drops = Cell::new(0);
    let elements: Vec<Canary> = (0..4).map(|_| Canary { drops: &drops }).collect();
    let mut a = GrowableArray::new();
    for (k, i) in [1usize, 5000, 1 << 21, 7].iter().enumerate() {
        let s = a.get(*i);
        a.store(s, k + 1);
    }
    let published = a.segment_count();
    assert_eq!(a.destroy(), published);
    assert_eq!(drops.get(), 0);
    drop(elements);
    assert_eq!(drops.get(), 4);
}

#[test]
fn destroy_empty_array() {
    let a = GrowableArray::new();
    assert_eq!(a.destroy(), 0);
}

#[test]
fn existing_path_is_reused() {
    let mut a = GrowableArray::new();
    let s = a.get(5000);
    let count = a.segment_count();
    let t = a.get(5001);
    assert_eq!(a.segment_count(), count);
    assert_eq!(t.segment, s.segment);
    assert_eq!(t.offset, s.offset + 1);
    let u = a.get(6 * SEGMENT_SIZE);
    assert_eq!(a.segment_count(), count + 1);
    assert_ne!(u.segment, s.segment);
}

#[test]
fn default_array_is_empty() {
    let a = GrowableArray::default();
    assert_eq!(a.height(), 0);
    assert_eq!(a.segment_count(), 0);
}

#[test]
fn empty_array_grows_straight_to_required_height() {
    let mut a = GrowableArray::new();
    let s = a.get(3 << 20);
    assert_eq!(a.height(), 2);
    assert_eq!(a.segment_count(), 3);
    assert_eq!(s.offset, 0);
}

#[test]
fn growth_of_two_levels_allocates_roots_and_path() {
    let mut a = GrowableArray::new();
    a.get(1);
    assert_eq!(a.segment_count(), 1);
    a.get(5 << 20);
    assert_eq!(a.height(), 2);
    assert_eq!(a.segment_count(), 1 + 2 + 2);
}
