use gomicollector::GcError;
use gomicollector::Heap;

/// Capacity 10, a single root-anchored chain of 10 objects linked via `tail`:
/// nothing is unreachable, so further allocations must report `OutOfMemory`.
#[test]
fn full_chain_exhausts_heap() {
    let mut heap = Heap::<String>::new(10);
    let root = heap.allocate("o1".to_string()).unwrap();
    heap.root_add(root).unwrap();
    let mut prev = root;
    for k in 2..=10 {
        let obj = heap.allocate(format!("o{}", k)).unwrap();
        heap.set_tail(prev, Some(obj)).unwrap();
        prev = obj;
    }
    for _ in 0..4 {
        assert_eq!(heap.allocate("extra".to_string()), Err(GcError::OutOfMemory));
    }
}

/// Capacity 10, nine objects in a root-anchored chain plus one detached
/// object: the next allocation must reclaim exactly the detached slot, and
/// every further request in the burst is served from that same slot.
#[test]
fn detached_object_is_reclaimed() {
    let mut heap = Heap::<String>::new(10);
    let root = heap.allocate("chain1".to_string()).unwrap();
    heap.root_add(root).unwrap();
    let mut prev = root;
    for k in 2..=9 {
        let obj = heap.allocate(format!("chain{}", k)).unwrap();
        heap.set_tail(prev, Some(obj)).unwrap();
        prev = obj;
    }
    let detached = heap.allocate("detached".to_string()).unwrap();
    assert_eq!(heap.get_data(detached).unwrap(), &"detached".to_string());
    for k in 0..6 {
        let label = format!("burst{}", k);
        let reused = heap.allocate(label.clone()).unwrap();
        assert_eq!(reused, detached);
        assert_eq!(heap.get_data(reused).unwrap(), &label);
    }
}

/// Capacity 10, a small tree under a single root: after a forced collection
/// the whole tree keeps its payloads and its shape.
#[test]
fn collection_keeps_reachable_tree() {
    let mut heap = Heap::<String>::new(10);
    let root1 = heap.allocate("root1".to_string()).unwrap();
    heap.root_add(root1).unwrap();
    let obj2 = heap.allocate("obj2".to_string()).unwrap();
    let obj3 = heap.allocate("obj3".to_string()).unwrap();
    let obj4 = heap.allocate("obj4".to_string()).unwrap();
    let obj5 = heap.allocate("obj5".to_string()).unwrap();
    heap.set_head(root1, Some(obj2)).unwrap();
    heap.set_tail(root1, Some(obj3)).unwrap();
    heap.set_head(obj2, Some(obj4)).unwrap();
    heap.set_tail(obj2, Some(obj5)).unwrap();
    // exhaust the free list with throwaway allocations, then trigger a pass
    for k in 0..5 {
        heap.allocate(format!("junk{}", k)).unwrap();
    }
    heap.allocate("trigger".to_string()).unwrap();
    assert_eq!(heap.get_data(root1).unwrap(), &"root1".to_string());
    assert_eq!(heap.get_data(obj2).unwrap(), &"obj2".to_string());
    assert_eq!(heap.get_data(obj3).unwrap(), &"obj3".to_string());
    assert_eq!(heap.get_data(obj4).unwrap(), &"obj4".to_string());
    assert_eq!(heap.get_data(obj5).unwrap(), &"obj5".to_string());
    assert_eq!(heap.get(root1).unwrap().head(), Some(obj2));
    assert_eq!(heap.get(root1).unwrap().tail(), Some(obj3));
    assert_eq!(heap.get(obj2).unwrap().head(), Some(obj4));
    assert_eq!(heap.get(obj2).unwrap().tail(), Some(obj5));
}

/// Capacity 10, two roots with one child each plus an unrooted, unlinked
/// object: after a forced collection the roots and their children survive and
/// the unrooted identity is handed out again.
#[test]
fn two_roots_and_garbage() {
    let mut heap = Heap::<String>::new(10);
    let obj1 = heap.allocate("obj1".to_string()).unwrap();
    heap.root_add(obj1).unwrap();
    let obj2 = heap.allocate("obj2".to_string()).unwrap();
    heap.root_add(obj2).unwrap();
    let obj3 = heap.allocate("obj3".to_string()).unwrap();
    heap.set_head(obj1, Some(obj3)).unwrap();
    let obj4 = heap.allocate("obj4".to_string()).unwrap();
    heap.set_tail(obj2, Some(obj4)).unwrap();
    let obj5 = heap.allocate("obj5".to_string()).unwrap();
    // fill the remaining slots, then trigger a pass
    for k in 0..5 {
        heap.allocate(format!("junk{}", k)).unwrap();
    }
    let reused = heap.allocate("fresh".to_string()).unwrap();
    assert!(heap.root_contains(obj1));
    assert!(heap.root_contains(obj2));
    assert_eq!(heap.get_data(obj3).unwrap(), &"obj3".to_string());
    assert_eq!(heap.get_data(obj4).unwrap(), &"obj4".to_string());
    assert_eq!(reused, obj5);
    assert_eq!(heap.get_data(obj5).unwrap(), &"fresh".to_string());
}
