use bitborrower::queue::WorkQueue;

#[test]
fn new_queue_hands_out_pieces_in_order() {
    let mut q = WorkQueue::new(4);
    assert_eq!(q.pop(), Some(0));
    assert_eq!(q.pop(), Some(1));
    assert_eq!(q.pop(), Some(2));
    assert_eq!(q.pop(), Some(3));
    assert_eq!(q.pop(), None);
    assert_eq!(q.pop(), None);
}

#[test]
fn empty_queue() {
    let mut q = WorkQueue::new(0);
    assert_eq!(q.pop(), None);
}

#[test]
fn pushed_piece_comes_out_next() {
    let mut q = WorkQueue::new(3);
    assert_eq!(q.pop(), Some(0));
    q.push(0);
    assert_eq!(q.pop(), Some(0));
    q.push(42);
    assert_eq!(q.pop(), Some(42));
    assert_eq!(q.pop(), Some(1));
}
