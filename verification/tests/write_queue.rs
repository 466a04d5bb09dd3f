use frame_gmix::write_queue::{QueuedWrite, WriteStep};

#[test]
fn empty_queue_waits() {
    let q: QueuedWrite<u32> = QueuedWrite::new();
    assert_eq!(q.next_step(), WriteStep::Idle);
}

#[test]
fn messages_leave_in_order_with_a_flush_after_each() {
    let mut q = QueuedWrite::new();
    q.push("register");
    q.push("created");
    assert_eq!(q.next_step(), WriteStep::Send);
    assert_eq!(q.pop(), "register");
    q.mark_sent();
    assert_eq!(q.next_step(), WriteStep::Flush);
    q.mark_flushed();
    assert_eq!(q.next_step(), WriteStep::Send);
    assert_eq!(q.pop(), "created");
    q.mark_sent();
    assert_eq!(q.next_step(), WriteStep::Flush);
    q.mark_flushed();
    assert_eq!(q.next_step(), WriteStep::Idle);
}

#[test]
fn flush_comes_before_the_next_send() {
    let mut q = QueuedWrite::new();
    q.push(1);
    assert_eq!(q.pop(), 1);
    q.mark_sent();
    q.push(2);
    assert_eq!(q.next_step(), WriteStep::Flush);
}
