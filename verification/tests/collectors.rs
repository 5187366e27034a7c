use gc_collectors::{Gc, MarkSweepGc, RefCountGc, RefCountNode};

#[test]
fn test_ref_count_node() {
    let node = RefCountNode::new();
    assert!(node.is_alive());
    assert_eq!(node.strong_count, 1);
}

#[test]
fn test_allocation() {
    let mut gc = RefCountGc::new();
    let handle1 = gc.allocate(42);
    let handle2 = gc.allocate(String::from("hello"));

    assert_eq!(*handle1.borrow().expect("no write view of the value is alive"), 42);
    assert_eq!(*handle2.borrow().expect("no write view of the value is alive"), String::from("hello"));

    let stats = gc.stats();
    assert_eq!(stats.total_allocated, 2);
    assert_eq!(stats.current_heap_size, 2);
}

#[test]
fn test_modification() {
    let mut gc = RefCountGc::new();
    let handle = gc.allocate(vec![1, 2, 3]);

    {
        let mut borrowed = handle.borrow_mut().expect("no other view of the value is alive");
        borrowed.push(4);
    }

    assert_eq!(handle.borrow().expect("no write view of the value is alive").len(), 4);
    assert_eq!(handle.borrow().expect("no write view of the value is alive")[3], 4);
}

#[test]
fn test_collection() {
    let mut gc = RefCountGc::new();

    for i in 0..5 {
        gc.allocate(i);
    }

    let stats_before = gc.stats();
    assert_eq!(stats_before.total_allocated, 5);

    gc.collect();

    let stats_after = gc.stats();
    assert_eq!(stats_after.num_collections, 1);
    assert_eq!(stats_after.total_allocated, 5);
}

#[test]
fn test_multiple_references() {
    let mut gc = RefCountGc::new();

    let handle1 = gc.allocate(100);
    let handle2 = handle1.clone();
    let handle3 = handle1.clone();

    assert_eq!(*handle1.borrow().expect("no write view of the value is alive"), 100);
    assert_eq!(*handle2.borrow().expect("no write view of the value is alive"), 100);
    assert_eq!(*handle3.borrow().expect("no write view of the value is alive"), 100);

    *handle1.borrow_mut().expect("no other view of the value is alive") = 200;
    assert_eq!(*handle2.borrow().expect("no write view of the value is alive"), 200);
    assert_eq!(*handle3.borrow().expect("no write view of the value is alive"), 200);
}

#[test]
fn test_drop_behavior() {
    let mut gc = RefCountGc::new();

    {
        let _handle = gc.allocate(vec![1, 2, 3, 4, 5]);
        let stats = gc.stats();
        assert_eq!(stats.total_allocated, 1);
        assert_eq!(stats.current_heap_size, 1);
    }

    gc.collect();
    let stats = gc.stats();
    assert_eq!(stats.total_allocated, 1);
}

#[test]
fn test_basic_allocation() {
    let mut gc = MarkSweepGc::new();
    let handle = gc.allocate(42);
    assert_eq!(*handle.borrow().expect("no write view of the value is alive"), 42);

    *handle.borrow_mut().expect("no other view of the value is alive") = 100;
    assert_eq!(*handle.borrow().expect("no write view of the value is alive"), 100);
}

#[test]
fn test_gc_collection() {
    let mut gc = MarkSweepGc::new();

    for i in 0..150 {
        gc.allocate(i);
    }

    let stats = gc.stats();
    assert!(stats.num_collections > 0);
    assert_eq!(stats.total_allocated, 150);
}

#[test]
fn test_manual_collection() {
    let mut gc = MarkSweepGc::new();

    let _h1 = gc.allocate(String::from("hello"));
    let _h2 = gc.allocate(vec![1, 2, 3]);
    let _h3 = gc.allocate(42);

    let stats_before = gc.stats();
    gc.collect();
    let stats_after = gc.stats();

    assert_eq!(
        stats_after.num_collections,
        stats_before.num_collections + 1
    );
}

#[test]
fn test_handle_operations() {
    let mut gc = MarkSweepGc::new();

    let handle = gc.allocate(vec![1, 2, 3]);
    {
        let borrowed = handle.borrow().expect("no write view of the value is alive");
        assert_eq!(borrowed.len(), 3);
        assert_eq!(borrowed[0], 1);
    }

    {
        let mut borrowed_mut = handle.borrow_mut().expect("no other view of the value is alive");
        borrowed_mut.push(4);
        assert_eq!(borrowed_mut.len(), 4);
    }

    let borrowed = handle.borrow().expect("no write view of the value is alive");
    assert_eq!(borrowed.len(), 4);
    assert_eq!(borrowed[3], 4);
}

#[test]
fn test_stats_tracking() {
    let mut gc = MarkSweepGc::new();

    let initial_stats = gc.stats();
    assert_eq!(initial_stats.total_allocated, 0);
    assert_eq!(initial_stats.current_heap_size, 0);

    for i in 0..10 {
        gc.allocate(i);
    }

    let stats = gc.stats();
    assert_eq!(stats.total_allocated, 10);
    assert!(stats.current_heap_size > 0);
}

#[test]
fn test_ref_count_basic() {
    let mut gc = RefCountGc::new();
    let handle = gc.allocate(42);
    assert_eq!(*handle.borrow().expect("no write view of the value is alive"), 42);

    *handle.borrow_mut().expect("no other view of the value is alive") = 100;
    assert_eq!(*handle.borrow().expect("no write view of the value is alive"), 100);
}

#[test]
fn test_ref_count_multiple_refs() {
    let mut gc = RefCountGc::new();
    let handle1 = gc.allocate(String::from("hello"));
    let handle2 = handle1.clone();

    assert_eq!(*handle1.borrow().expect("no write view of the value is alive"), "hello");
    assert_eq!(*handle2.borrow().expect("no write view of the value is alive"), "hello");

    *handle1.borrow_mut().expect("no other view of the value is alive") = String::from("world");
    assert_eq!(*handle2.borrow().expect("no write view of the value is alive"), "world");
}

#[test]
fn test_ref_count_stats() {
    let mut gc = RefCountGc::new();

    for i in 0..5 {
        gc.allocate(i);
    }

    let stats = gc.stats();
    assert_eq!(stats.total_allocated, 5);
    assert_eq!(stats.current_heap_size, 5);

    gc.collect();
    let stats_after = gc.stats();
    assert_eq!(stats_after.num_collections, 1);
}

#[test]
fn test_ref_count_vs_mark_sweep() {
    let mut ref_count = RefCountGc::new();
    let mut mark_sweep = MarkSweepGc::new();

    for i in 0..20 {
        ref_count.allocate(i);
        mark_sweep.allocate(i);
    }

    let ref_stats = ref_count.stats();
    let mark_stats = mark_sweep.stats();

    assert_eq!(ref_stats.total_allocated, mark_stats.total_allocated);
    assert_eq!(ref_stats.total_allocated, 20);
}
