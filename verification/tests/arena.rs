use gc_collectors::heap::Heap;
use gc_collectors::object::GcObject;
use gc_collectors::Payload;

#[test]
fn new_heap_is_empty() {
    let heap = Heap::new();
    assert_eq!(heap.size(), 0);
    assert!(!heap.should_collect());
    assert_eq!(heap.roots(), Vec::<usize>::new());
}

#[test]
fn heap_issues_identities_in_order() {
    let mut heap = Heap::new();
    assert_eq!(heap.allocate(Payload::new(1)), 0);
    assert_eq!(heap.allocate(Payload::new("x")), 1);
    assert_eq!(heap.allocate(Payload::new(vec![1u8])), 2);
    assert_eq!(heap.size(), 3);
    assert_eq!(heap.id_at(2), 2);
    assert_eq!(heap.index_of(1), Some(1));
    assert_eq!(heap.index_of(3), None);
}

#[test]
fn heap_asks_for_collection_at_one_hundred() {
    let mut heap = Heap::new();
    for i in 0..99 {
        heap.allocate(Payload::new(i));
    }
    assert!(!heap.should_collect());
    heap.allocate(Payload::new(99));
    assert!(heap.should_collect());
    heap.allocate(Payload::new(100));
    assert!(heap.should_collect());
}

#[test]
fn sweep_keeps_the_marked_in_order_and_unmarks_them() {
    let mut heap = Heap::new();
    for i in 0..5 {
        heap.allocate(Payload::new(i));
    }
    heap.mark_at(1);
    heap.mark_at(3);
    heap.mark_at(4);
    assert!(heap.is_marked_at(3));
    assert!(!heap.is_marked_at(0));
    heap.sweep();
    assert_eq!(heap.size(), 3);
    assert_eq!((heap.id_at(0), heap.id_at(1), heap.id_at(2)), (1, 3, 4));
    assert!(!heap.is_marked_at(0) && !heap.is_marked_at(1) && !heap.is_marked_at(2));
    assert_eq!(heap.allocate(Payload::new(5)), 5);
    heap.sweep();
    assert_eq!(heap.size(), 0);
    assert_eq!(heap.allocate(Payload::new(6)), 6);
}

#[test]
fn roots_are_the_records_claimed_from_outside() {
    let mut heap = Heap::new();
    for i in 0..4 {
        heap.allocate(Payload::new(i));
    }
    assert_eq!(heap.claims(), vec![1, 1, 1, 1]);
    assert_eq!(heap.roots(), Vec::<usize>::new());
    assert_eq!(heap.roots_with(&vec![2, 1, 0, 7]), vec![0, 3]);
    heap.mark_at(3);
    heap.sweep();
    assert_eq!(heap.roots_with(&vec![2]), vec![3]);
}

#[test]
fn edges_are_kept_in_order() {
    let mut heap = Heap::new();
    heap.allocate(Payload::new(0));
    heap.allocate(Payload::new(1));
    assert!(heap.add_reference(0, 1));
    assert!(heap.add_reference(0, 9));
    assert!(!heap.add_reference(5, 0));
    assert_eq!(heap.edge_count(0), 2);
    assert_eq!(heap.edge_count(1), 0);
    assert_eq!(heap.edge_at(0, 0), 1);
    assert_eq!(heap.edge_at(0, 1), 9);
}

#[test]
fn object_record_marks_and_edges() {
    let mut obj = GcObject::new(7, Payload::new("payload"));
    assert_eq!(obj.id, 7);
    assert!(!obj.is_marked());
    assert!(obj.references.is_empty());
    obj.mark();
    assert!(obj.is_marked());
    obj.mark();
    assert!(obj.is_marked());
    obj.unmark();
    assert!(!obj.is_marked());
    obj.add_reference(3);
    obj.add_reference(1);
    assert_eq!(obj.references, vec![3, 1]);
}

#[test]
fn heap_threshold_can_be_chosen() {
    let mut heap = Heap::with_threshold(2);
    assert_eq!(heap.next_id(), 0);
    heap.allocate(Payload::new(1));
    assert!(!heap.should_collect());
    heap.allocate(Payload::new(2));
    assert!(heap.should_collect());
    assert_eq!(heap.next_id(), 2);
    heap.sweep();
    assert!(!heap.should_collect());
    assert_eq!(heap.next_id(), 2);
}
