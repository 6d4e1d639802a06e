use elmore::frames::FrameQueue;

#[test]
fn only_the_first_push_requests_a_frame() {
    let mut q = FrameQueue::new();
    assert!(q.push(1));
    assert!(!q.push(2));
    assert!(!q.push(3));
    assert_eq!(q.take_frame(), vec![1, 2, 3]);
    // After a frame ran, the next message requests a new one.
    assert!(q.push(4));
    assert_eq!(q.take_frame(), vec![4]);
}

#[test]
fn a_frame_with_nothing_pending_takes_nothing() {
    let mut q: FrameQueue<u32> = FrameQueue::new();
    assert!(q.take_frame().is_empty());
    assert!(q.push(7));
}
