use gc_collectors::{Gc, GcHandle, GcStats, RefCountGc, RefCountNode};

fn stats(allocated: usize, freed: usize, live: usize, cycles: usize) -> GcStats {
    GcStats {
        total_allocated: allocated,
        total_freed: freed,
        current_heap_size: live,
        num_collections: cycles,
    }
}

#[derive(Clone)]
struct Link {
    other: Option<GcHandle<Link>>,
}

#[test]
fn collect_on_empty_counting_collector_counts_one_cycle() {
    let mut gc = RefCountGc::new();
    assert_eq!(gc.stats(), stats(0, 0, 0, 0));
    gc.collect();
    assert_eq!(gc.stats(), stats(0, 0, 0, 1));
}

#[test]
fn five_held_values_are_all_kept() {
    let mut gc = RefCountGc::new();
    let handles: Vec<GcHandle<i32>> = (0..5).map(|i| gc.allocate(i)).collect();
    gc.collect();
    let s = gc.stats();
    assert_eq!(s.total_freed, 0);
    assert_eq!(s.current_heap_size, 5);
    assert_eq!(s.num_collections, 1);
    assert_eq!(*handles[4].borrow().expect("no write view of the value is alive"), 4);
}

#[test]
fn dropped_values_are_freed_when_asked() {
    let mut gc = RefCountGc::new();
    let a = gc.allocate(1);
    let b = gc.allocate(2);
    let c = gc.allocate(3);
    drop(a);
    drop(c);
    assert_eq!(gc.stats(), stats(3, 0, 3, 0));
    gc.collect();
    assert_eq!(gc.stats(), stats(3, 2, 1, 1));
    gc.collect();
    assert_eq!(gc.stats(), stats(3, 2, 1, 2));
    assert_eq!(*b.borrow().expect("no write view of the value is alive"), 2);
}

#[test]
fn counting_collector_never_runs_by_itself() {
    let mut gc = RefCountGc::new();
    for i in 0..250 {
        gc.allocate(i);
    }
    assert_eq!(gc.stats(), stats(250, 0, 250, 0));
    gc.collect();
    assert_eq!(gc.stats(), stats(250, 250, 0, 1));
}

#[test]
fn mutual_references_are_never_freed() {
    let mut gc = RefCountGc::new();
    let a = gc.allocate(Link { other: None });
    let b = gc.allocate(Link { other: None });
    a.borrow_mut().expect("no other view of the value is alive").other = Some(b.clone());
    b.borrow_mut().expect("no other view of the value is alive").other = Some(a.clone());
    drop(a);
    drop(b);
    gc.collect();
    assert_eq!(gc.stats(), stats(2, 0, 2, 1));
    gc.collect();
    assert_eq!(gc.stats(), stats(2, 0, 2, 2));
}

#[test]
fn a_clone_keeps_the_value_claimed() {
    let mut gc = RefCountGc::new();
    let first = gc.allocate(String::from("kept"));
    let second = first.clone();
    let third = first.clone();
    *third.borrow_mut().expect("no other view of the value is alive") = String::from("changed");
    assert_eq!(*first.borrow().expect("no write view of the value is alive"), "changed");
    assert_eq!(*second.borrow().expect("no write view of the value is alive"), "changed");
    drop(first);
    drop(third);
    gc.collect();
    assert_eq!(gc.stats(), stats(1, 0, 1, 1));
    assert_eq!(*second.borrow().expect("no write view of the value is alive"), "changed");
    assert_eq!(second.id(), 0);
    drop(second);
    gc.collect();
    assert_eq!(gc.stats(), stats(1, 1, 0, 2));
}

#[test]
fn collect_with_given_claims_keeps_the_claimed() {
    let mut gc = RefCountGc::new();
    for i in 0..4 {
        gc.allocate(i);
    }
    gc.collect_with(&vec![1, 3, 0, 2]);
    assert_eq!(gc.stats(), stats(4, 2, 2, 1));
}

#[test]
fn observe_then_cleanup() {
    let mut gc = RefCountGc::new();
    let _a = gc.allocate('a');
    let _b = gc.allocate('b');
    gc.observe_with(&vec![2, 1]);
    assert_eq!(gc.stats(), stats(2, 0, 2, 0));
    gc.cleanup_deallocated();
    assert_eq!(gc.stats(), stats(2, 1, 1, 0));
    gc.cleanup_deallocated();
    assert_eq!(gc.stats(), stats(2, 1, 1, 0));
}

#[test]
fn claims_count_the_collector_and_the_handles() {
    let mut gc = RefCountGc::new();
    let a = gc.allocate(1);
    let _a2 = a.clone();
    let _b = gc.allocate(2);
    gc.allocate(3);
    assert_eq!(gc.claims(), vec![3, 2, 1]);
}

#[test]
fn track_allocation_counts_one() {
    let mut gc = RefCountGc::new();
    gc.track_allocation();
    let s = gc.stats();
    assert_eq!(s.total_allocated, 1);
    assert_eq!(s.current_heap_size, 1);
}

#[test]
fn counting_allocations_are_counted_exactly() {
    let mut gc = RefCountGc::new();
    for n in 1..=40usize {
        gc.allocate(n);
        assert_eq!(gc.stats().total_allocated, n);
    }
}

#[test]
fn counting_counters_stay_consistent() {
    let mut gc = RefCountGc::new();
    let mut kept: Vec<GcHandle<u8>> = Vec::new();
    for round in 0..3u8 {
        for i in 0..5u8 {
            let h = gc.allocate(i);
            if i == round {
                kept.push(h);
            }
        }
        gc.collect();
        let s = gc.stats();
        assert_eq!(s.current_heap_size, s.total_allocated - s.total_freed);
        assert_eq!(s.current_heap_size, kept.len());
    }
}

#[test]
fn dead_node_is_not_alive() {
    let node = RefCountNode { strong_count: 0 };
    assert!(!node.is_alive());
}
