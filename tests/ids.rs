use harvest::id::{Id, IdAllocator};
use std::collections::HashSet;

#[test]
fn new() {
    let mut ids = IdAllocator::new();
    let mut all: Vec<Id> = (0..100).map(|_| Id::new(&mut ids)).collect();
    all.extend(Id::new_array(&mut ids, 100));
    let deduplicated: HashSet<Id> = all.iter().copied().collect();
    assert_eq!(all.len(), deduplicated.len(), "duplicate ID");
}

#[test]
fn new_implementation() {
    let mut ids = IdAllocator::new();
    let mut all: Vec<Id> = Vec::new();
    all.extend(Id::new_array(&mut ids, 1000));
    for _ in 0..10 {
        all.extend(ids.allocate(100));
    }
    for _ in 0..1000 {
        all.push(ids.allocate_one());
    }
    let mut found = vec![false; 3000];
    for id in all.iter() {
        let n = id.get() as usize;
        assert!(n >= 1 && n <= 3000, "too-large ID");
        assert!(!found[n - 1], "duplicate ID {}", n);
        found[n - 1] = true;
    }
    assert_eq!(found, vec![true; 3000], "missing ID");
}

#[test]
fn allocator_starts_at_one_and_counts_up() {
    let mut ids = IdAllocator::new();
    assert_eq!(ids.highest_allocated(), 0);
    assert_eq!(Id::new(&mut ids).get(), 1);
    let batch = ids.allocate(3);
    assert_eq!(batch.iter().map(|i| i.get()).collect::<Vec<_>>(), vec![2, 3, 4]);
    assert_eq!(ids.highest_allocated(), 4);
    assert!(ids.allocate(0).is_empty());
    assert_eq!(ids.highest_allocated(), 4);
}
