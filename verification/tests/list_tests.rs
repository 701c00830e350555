use mg::list::{Mut, QueueMut, QueueRef};

#[test]
fn queue_ref_is_fifo() {
    let mut q = QueueRef::new();
    q.init();
    assert_eq!(q.dequeue(), None);
    assert_eq!(q.enqueue(&3usize), 3);
    q.enqueue(&7usize);
    q.enqueue(&0usize);
    assert_eq!(q.dequeue(), Some(3));
    q.enqueue(&3usize);
    assert_eq!(q.dequeue(), Some(7));
    assert_eq!(q.dequeue(), Some(0));
    assert_eq!(q.dequeue(), Some(3));
    assert_eq!(q.dequeue(), None);
}

#[test]
fn queue_ref_init_empties() {
    let mut q = QueueRef::new();
    q.enqueue(&1usize);
    q.enqueue(&2usize);
    q.init();
    assert_eq!(q.dequeue(), None);
    q.enqueue(&2usize);
    assert_eq!(q.dequeue(), Some(2));
}

#[test]
fn queue_ref_large_identifiers() {
    let mut q = QueueRef::new();
    q.enqueue(&1000usize);
    q.enqueue(&5usize);
    q.enqueue(&999usize);
    assert_eq!(q.dequeue(), Some(1000));
    assert_eq!(q.dequeue(), Some(5));
    assert_eq!(q.dequeue(), Some(999));
    assert_eq!(q.dequeue(), None);
}

#[test]
fn mut_wrapper_round_trip() {
    let m = Mut::new(42);
    assert_eq!(m.to_id(), 42);
    assert_eq!(m.release(), 42);
}

#[test]
fn queue_mut_hands_back_access() {
    let mut q = QueueMut::new();
    q.init();
    assert!(q.dequeue().is_none());
    assert_eq!(q.enqueue(Mut::new(4)), 4);
    q.enqueue(Mut::new(1));
    assert_eq!(q.dequeue().map(|m| m.release()), Some(4));
    assert_eq!(q.dequeue().map(|m| m.release()), Some(1));
    assert!(q.dequeue().is_none());
}

#[test]
fn queue_fifo_interleaved() {
    let mut q = QueueRef::new();
    let mut expected = std::collections::VecDeque::new();
    for round in 0..50usize {
        let id = (round * 7) % 53;
        if !expected.contains(&id) {
            q.enqueue(&id);
            expected.push_back(id);
        }
        if round % 3 == 0 {
            assert_eq!(q.dequeue(), expected.pop_front());
        }
    }
    while let Some(x) = expected.pop_front() {
        assert_eq!(q.dequeue(), Some(x));
    }
    assert_eq!(q.dequeue(), None);
}
