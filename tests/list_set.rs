use segtree::list_set::FineGrainedListSet;

fn keys(set: &FineGrainedListSet<i32>) -> Vec<i32> {
    let mut out = Vec::new();
    let mut it = set.iter();
    while let Some(k) = it.next() {
        out.push(*k);
    }
    out
}

#[test]
fn new_set_is_empty() {
    let set: FineGrainedListSet<i32> = FineGrainedListSet::new();
    assert!(keys(&set).is_empty());
    assert!(!set.contains(&1));
}

#[test]
fn insert_keeps_keys_sorted_and_unique() {
    let mut set = FineGrainedListSet::new();
    assert!(set.insert(3));
    assert!(set.insert(1));
    assert!(set.insert(2));
    assert!(!set.insert(2));
    assert_eq!(keys(&set), vec![1, 2, 3]);
    assert!(set.contains(&2));
    assert!(!set.contains(&4));
}

#[test]
fn remove_takes_out_one_key() {
    let mut set = FineGrainedListSet::new();
    for k in [5, 1, 9, 7] {
        set.insert(k);
    }
    assert!(set.remove(&7));
    assert!(!set.remove(&7));
    assert!(!set.remove(&100));
    assert_eq!(keys(&set), vec![1, 5, 9]);
    assert!(set.remove(&1));
    assert!(set.remove(&9));
    assert!(set.remove(&5));
    assert!(keys(&set).is_empty());
}

#[test]
fn iterator_stops_after_last_key() {
    let mut set = FineGrainedListSet::new();
    set.insert(-2);
    set.insert(8);
    let mut it = set.iter();
    assert_eq!(it.next(), Some(&-2));
    assert_eq!(it.next(), Some(&8));
    assert_eq!(it.next(), None);
    assert_eq!(it.next(), None);
}

#[test]
fn default_set_is_empty() {
    let set: FineGrainedListSet<u64> = FineGrainedListSet::default();
    assert!(set.iter().next().is_none());
}
