use gc_collectors::{Gc, MarkSweepGc, RefCountGc};

#[test]
fn write_view_is_refused_while_a_read_view_is_alive() {
    let mut gc = MarkSweepGc::new();
    let h = gc.allocate(1);
    let h2 = h.clone();
    let r = h2.borrow().expect("no write view of the value is alive");
    assert!(h.borrow_mut().is_none());
    assert!(h2.borrow_mut().is_none());
    assert_eq!(*r, 1);
    drop(r);
    *h.borrow_mut().expect("no other view of the value is alive") = 2;
    assert_eq!(*h2.borrow().expect("no write view of the value is alive"), 2);
}

#[test]
fn read_views_are_shared() {
    let mut gc = RefCountGc::new();
    let h = gc.allocate(String::from("shared"));
    let h2 = h.clone();
    let first = h.borrow().expect("no write view of the value is alive");
    let second = h2.borrow().expect("no write view of the value is alive");
    let third = h.borrow().expect("no write view of the value is alive");
    assert_eq!(*first, "shared");
    assert_eq!(*second, "shared");
    assert_eq!(*third, "shared");
}

#[test]
fn every_view_is_refused_while_a_write_view_is_alive() {
    let mut gc = RefCountGc::new();
    let h = gc.allocate(vec![1, 2]);
    let h2 = h.clone();
    let mut w = h.borrow_mut().expect("no other view of the value is alive");
    assert!(h.borrow().is_none());
    assert!(h2.borrow().is_none());
    assert!(h2.borrow_mut().is_none());
    w.push(3);
    drop(w);
    assert_eq!(*h2.borrow().expect("no write view of the value is alive"), vec![1, 2, 3]);
}
