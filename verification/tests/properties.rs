use gomicollector::GcError;
use gomicollector::Heap;

#[test]
fn new_heap_is_all_free() {
    let heap = Heap::<u32>::new(10);
    assert_eq!(heap.free_count(), 10);
    assert_eq!(heap.live_count(), 0);
    assert!(!heap.root_contains(0));
    for id in 0..10 {
        let rec = heap.get(id).unwrap();
        assert_eq!(rec.get_id(), id);
        assert_eq!(rec.head(), None);
        assert_eq!(rec.tail(), None);
        assert_eq!(heap.get_data(id), Err(GcError::UninitializedData));
    }
}

/// Capacity conservation, exercised on concrete states: at every step
/// `free_count() + live_count()` equals the capacity.
#[test]
fn counts_always_sum_to_capacity() {
    let mut heap = Heap::<u32>::new(10);
    assert_eq!(heap.free_count() + heap.live_count(), 10);
    let a = heap.allocate(1).unwrap();
    heap.root_add(a).unwrap();
    assert_eq!(heap.free_count() + heap.live_count(), 10);
    for k in 2..=9 {
        heap.allocate(k).unwrap();
        assert_eq!(heap.free_count() + heap.live_count(), 10);
    }
    heap.collect();
    assert_eq!(heap.free_count() + heap.live_count(), 10);
    assert_eq!(heap.live_count(), 1);
    assert_eq!(heap.free_count(), 9);
}

/// Root permanence: an identity reachable from a root is never handed out
/// while it stays reachable.
#[test]
fn reachable_ids_are_never_handed_out() {
    let mut heap = Heap::<u32>::new(10);
    let root = heap.allocate(0).unwrap();
    heap.root_add(root).unwrap();
    let child = heap.allocate(1).unwrap();
    heap.set_head(root, Some(child)).unwrap();
    for k in 0..25 {
        let id = heap.allocate(k).unwrap();
        assert_ne!(id, root);
        assert_ne!(id, child);
    }
}

/// Reclaim completeness: after a collection pass the reachable set is exactly
/// the set of live identities, and everything else is free and blank.
#[test]
fn collect_leaves_exactly_the_reachable_set() {
    let mut heap = Heap::<u32>::new(10);
    let root = heap.allocate(0).unwrap();
    heap.root_add(root).unwrap();
    let child = heap.allocate(1).unwrap();
    heap.set_tail(root, Some(child)).unwrap();
    for k in 0..4 {
        heap.allocate(100 + k).unwrap();
    }
    heap.collect();
    let reachable = heap.reachable_set();
    let mut expected = vec![root, child];
    expected.sort();
    assert_eq!(reachable, expected);
    assert_eq!(heap.live_count(), 2);
    assert_eq!(heap.free_count(), 8);
    for id in 0..10 {
        if id == root || id == child {
            assert!(heap.get_data(id).is_ok());
        } else {
            assert_eq!(heap.get_data(id), Err(GcError::UninitializedData));
            assert_eq!(heap.get(id).unwrap().head(), None);
            assert_eq!(heap.get(id).unwrap().tail(), None);
        }
    }
}

/// Idempotent marking: computing the reachable set twice without mutating the
/// heap in between gives the same set, and leaves the heap as it was.
#[test]
fn reachable_set_is_stable() {
    let mut heap = Heap::<u32>::new(10);
    let a = heap.allocate(1).unwrap();
    heap.root_add(a).unwrap();
    let b = heap.allocate(2).unwrap();
    let c = heap.allocate(3).unwrap();
    heap.set_head(a, Some(b)).unwrap();
    heap.set_tail(b, Some(c)).unwrap();
    // a cycle back to the root must not confuse the traversal
    heap.set_head(c, Some(a)).unwrap();
    let first = heap.reachable_set();
    let second = heap.reachable_set();
    assert_eq!(first, second);
    let mut expected = vec![a, b, c];
    expected.sort();
    assert_eq!(first, expected);
    assert_eq!(heap.get_data(a).unwrap(), &1);
    assert_eq!(heap.get_data(b).unwrap(), &2);
    assert_eq!(heap.get_data(c).unwrap(), &3);
}

/// Identity non-aliasing: live records all have distinct identities, and the
/// pool reports each record under its own slot.
#[test]
fn live_identities_are_distinct() {
    let mut heap = Heap::<u32>::new(10);
    let mut ids = Vec::new();
    let root = heap.allocate(0).unwrap();
    heap.root_add(root).unwrap();
    ids.push(root);
    let mut prev = root;
    for k in 1..10 {
        let id = heap.allocate(k).unwrap();
        heap.set_tail(prev, Some(id)).unwrap();
        prev = id;
        ids.push(id);
    }
    for i in 0..ids.len() {
        assert_eq!(heap.get(ids[i]).unwrap().get_id(), ids[i]);
        for j in 0..i {
            assert_ne!(ids[i], ids[j]);
        }
    }
}

#[test]
fn out_of_range_identities_are_rejected() {
    let mut heap = Heap::<u32>::new(4);
    assert!(heap.get(4).is_err());
    assert_eq!(heap.get_data(4), Err(GcError::InvalidReference));
    assert_eq!(heap.set_head(4, None), Err(GcError::InvalidReference));
    assert_eq!(heap.set_tail(4, None), Err(GcError::InvalidReference));
    assert_eq!(heap.set_data(4, 7), Err(GcError::InvalidReference));
    assert_eq!(heap.root_add(4), Err(GcError::InvalidReference));
}

#[test]
fn free_records_are_rejected_as_targets() {
    let mut heap = Heap::<u32>::new(4);
    let a = heap.allocate(1).unwrap();
    heap.root_add(a).unwrap();
    // some identity other than a is still free
    let free_id = if a == 0 { 1 } else { 0 };
    assert_eq!(heap.set_head(a, Some(free_id)), Err(GcError::InvalidReference));
    assert_eq!(heap.set_head(free_id, None), Err(GcError::InvalidReference));
    assert_eq!(heap.set_data(free_id, 9), Err(GcError::InvalidReference));
    assert_eq!(heap.root_add(free_id), Err(GcError::InvalidReference));
    assert_eq!(heap.get_data(free_id), Err(GcError::UninitializedData));
}

#[test]
fn root_management_round_trip() {
    let mut heap = Heap::<u32>::new(4);
    let a = heap.allocate(1).unwrap();
    assert!(!heap.root_contains(a));
    assert_eq!(heap.roots(), Vec::<usize>::new());
    heap.root_add(a).unwrap();
    assert!(heap.root_contains(a));
    assert_eq!(heap.roots(), vec![a]);
    heap.root_add(a).unwrap();
    assert!(heap.root_contains(a));
    assert_eq!(heap.roots(), vec![a]);
    assert!(heap.root_remove(a));
    assert!(!heap.root_contains(a));
    assert_eq!(heap.roots(), Vec::<usize>::new());
    assert!(!heap.root_remove(a));
}

#[test]
fn dropping_a_root_frees_its_records() {
    let mut heap = Heap::<u32>::new(4);
    let a = heap.allocate(1).unwrap();
    heap.root_add(a).unwrap();
    let b = heap.allocate(2).unwrap();
    heap.set_head(a, Some(b)).unwrap();
    heap.collect();
    assert_eq!(heap.live_count(), 2);
    heap.root_remove(a);
    heap.collect();
    assert_eq!(heap.live_count(), 0);
    assert_eq!(heap.free_count(), 4);
    assert_eq!(heap.reachable_set(), Vec::<usize>::new());
}

#[test]
fn set_data_replaces_the_payload() {
    let mut heap = Heap::<String>::new(4);
    let a = heap.allocate("before".to_string()).unwrap();
    heap.root_add(a).unwrap();
    heap.set_data(a, "after".to_string()).unwrap();
    assert_eq!(heap.get_data(a).unwrap(), &"after".to_string());
}

#[test]
fn allocation_after_out_of_memory_recovers() {
    let mut heap = Heap::<u32>::new(2);
    let a = heap.allocate(1).unwrap();
    heap.root_add(a).unwrap();
    let b = heap.allocate(2).unwrap();
    heap.root_add(b).unwrap();
    assert_eq!(heap.allocate(3), Err(GcError::OutOfMemory));
    heap.root_remove(b);
    let c = heap.allocate(4).unwrap();
    assert_eq!(c, b);
    assert_eq!(heap.get_data(c).unwrap(), &4);
}
