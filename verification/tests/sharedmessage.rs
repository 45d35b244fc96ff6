use picofw::sharedmessage::{SharedString, MAX_BUFFER_SIZE, MAX_QUEUE_SIZE};

#[test]
fn message_with_lock_goes_to_queue() {
    let mut s = SharedString::new();
    s.push_message(b"hello".to_vec(), true);
    assert_eq!(s.queue_pop(), Some(b"hello".to_vec()));
    assert_eq!(s.queue_pop(), None);
}

#[test]
fn message_without_lock_waits_for_flush() {
    let mut s = SharedString::new();
    s.push_message(b"held".to_vec(), false);
    assert_eq!(s.queue_pop(), None, "without the lock nothing reaches the queue");
    s.flush_queue(false);
    assert_eq!(s.queue_pop(), None, "flushing without the lock moves nothing");
    s.flush_queue(true);
    assert_eq!(s.queue_pop(), Some(b"held".to_vec()));
}

#[test]
fn buffered_messages_keep_their_order() {
    let mut s = SharedString::new();
    s.push_message(b"a".to_vec(), false);
    s.push_message(b"b".to_vec(), false);
    s.push_message(b"c".to_vec(), true);
    assert_eq!(s.queue_pop(), Some(b"a".to_vec()));
    assert_eq!(s.queue_pop(), Some(b"b".to_vec()));
    assert_eq!(s.queue_pop(), Some(b"c".to_vec()));
    assert_eq!(s.queue_pop(), None);
}

#[test]
fn full_queue_drops_oldest() {
    let mut s = SharedString::new();
    for i in 0..(MAX_QUEUE_SIZE + 1) {
        s.push_message(vec![i as u8], true);
    }
    let drained = s.drain_all();
    assert_eq!(drained.len(), MAX_QUEUE_SIZE);
    assert_eq!(drained[0], vec![1u8], "the oldest message must have been dropped");
    assert_eq!(drained[MAX_QUEUE_SIZE - 1], vec![MAX_QUEUE_SIZE as u8]);
}

#[test]
fn full_buffer_drops_oldest() {
    let mut s = SharedString::new();
    for i in 0..(MAX_BUFFER_SIZE + 2) {
        s.push_message(vec![i as u8], false);
    }
    s.flush_queue(true);
    let drained = s.drain_all();
    assert_eq!(drained.len(), MAX_BUFFER_SIZE);
    assert_eq!(drained[0], vec![2u8]);
}

#[test]
fn drain_all_empties_the_queue() {
    let mut s = SharedString::new();
    s.push_message(b"x".to_vec(), true);
    s.push_message(b"y".to_vec(), true);
    let drained = s.drain_all();
    assert_eq!(drained, vec![b"x".to_vec(), b"y".to_vec()]);
    assert_eq!(s.queue_pop(), None);
    assert_eq!(s.drain_all(), Vec::<Vec<u8>>::new());
}
