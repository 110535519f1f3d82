use gomicollector::Heap;

#[test]
fn test_can_allocate_twice() {
    let heap_size = 10;
    let mut heap = Heap::<String>::new(heap_size);
    let obj1 = heap.allocate("obj1".to_string());
    assert!(obj1.is_ok());
    let obj1_id = obj1.unwrap();
    heap.root_add(obj1_id).unwrap();
    let obj2 = heap.allocate("obj2".to_string());
    assert!(obj2.is_ok());
    assert_ne!(obj1_id, obj2.unwrap());
}

#[test]
fn test_root_is_not_recycled() {
    let heap_size = 10;
    let mut heap = Heap::<String>::new(heap_size);
    let root_id = heap.allocate("root".to_string());
    assert!(root_id.is_ok());
    heap.root_add(root_id.unwrap()).unwrap();
    for _ in 0..(heap_size * 2) {
        let tmp = heap.allocate("tmp".to_string());
        assert_ne!(root_id, tmp);
    }
}

#[test]
fn test_full_heap() {
    let heap_size = 10;
    let mut heap = Heap::<String>::new(heap_size);
    let root_id: Option<usize> = None;
    for _ in 0..heap_size {
        let mut root_id = root_id;
        let obj = heap.allocate("tmp".to_string());
        assert!(obj.is_ok());
        let obj = obj.unwrap();
        heap.set_head(obj, None).unwrap();
        heap.set_tail(obj, root_id).unwrap();
        if let Some(rid) = root_id {
            heap.root_remove(rid);
        }
        root_id = Some(obj);
        heap.root_add(root_id.unwrap()).unwrap();
    }
    for _ in 0..4 {
        let obj = heap.allocate("tmp".to_string());
        assert!(obj.is_err());
    }
}

#[test]
fn test_nearly_full_heap() {
    let heap_size = 10;
    let mut heap = Heap::<String>::new(heap_size);
    let mut root_id: Option<usize> = None;
    for _ in 0..(heap_size - 1) {
        let obj = heap.allocate("tmp".to_string());
        assert!(obj.is_ok());
        let obj = obj.unwrap();
        heap.set_head(obj, None).unwrap();
        heap.set_tail(obj, root_id).unwrap();
        if let Some(rid) = root_id {
            heap.root_remove(rid);
        }
        root_id = Some(obj);
        heap.root_add(obj).unwrap();
    }
    let last = heap.allocate("last".to_string());
    assert!(last.is_ok());
    for _ in 0..10 {
        let tmp = heap.allocate("tmp".to_string());
        assert_eq!(tmp, last);
    }
}

#[test]
fn test_reachable_objects_not_collected() {
    let heap_size = 10;
    let mut heap = Heap::<String>::new(heap_size);
    let obj1 = heap.allocate("obj1".to_string());
    assert!(obj1.is_ok());
    let obj1 = obj1.unwrap();
    heap.root_add(obj1).unwrap();
    let obj2 = heap.allocate("obj2".to_string());
    assert!(obj2.is_ok());
    let obj2 = obj2.unwrap();
    heap.set_head(obj1, Some(obj2)).unwrap();
    let obj3 = heap.allocate("obj3".to_string());
    assert!(obj3.is_ok());
    let obj3 = obj3.unwrap();
    heap.set_tail(obj1, Some(obj3)).unwrap();
    let obj4 = heap.allocate("obj4".to_string()).unwrap();
    let root_head = heap.get(obj1).unwrap().head().unwrap();
    heap.set_head(root_head, Some(obj4)).unwrap();
    let obj5 = heap.allocate("obj5".to_string()).unwrap();
    heap.set_tail(root_head, Some(obj5)).unwrap();
    heap.force_gc("tmp".to_string());
    let root_id = heap.roots()[0];
    assert_eq!(root_id, obj1);
    assert_eq!(heap.get(obj1).unwrap().head().unwrap(), obj2);
    assert_eq!(heap.get(obj1).unwrap().tail().unwrap(), obj3);
    let head_id = heap.get(obj1).unwrap().head().unwrap();
    assert_eq!(heap.get(head_id).unwrap().head().unwrap(), obj4);
    assert_eq!(heap.get(head_id).unwrap().tail().unwrap(), obj5);
}

#[test]
fn test_root_set() {
    let heap_size = 10;
    let mut heap = Heap::<String>::new(heap_size);
    let obj1 = heap.allocate("obj1".to_string());
    assert!(obj1.is_ok());
    let obj1 = obj1.unwrap();
    heap.root_add(obj1).unwrap();
    let obj2 = heap.allocate("obj2".to_string());
    assert!(obj2.is_ok());
    let obj2 = obj2.unwrap();
    heap.root_add(obj2).unwrap();
    let obj3 = heap.allocate("obj3".to_string());
    assert!(obj3.is_ok());
    let obj3 = obj3.unwrap();
    heap.set_head(obj1, Some(obj3)).unwrap();
    let obj4 = heap.allocate("obj4".to_string()).unwrap();
    heap.set_tail(obj2, Some(obj4)).unwrap();
    let obj5 = heap.allocate("obj5".to_string()).unwrap();
    heap.force_gc("tmp".to_string());
    let root_set: Vec<usize> = heap.roots();
    assert!(root_set.contains(&obj1));
    assert!(root_set.contains(&obj2));
    assert_eq!(heap.get_data(obj3).unwrap(), &"obj3".to_string());
    assert_eq!(heap.get_data(obj4).unwrap(), &"obj4".to_string());
    assert_eq!(heap.get_data(obj5).unwrap(), &"tmp".to_string());
}
