use picofw::usb::{UsbMessageReciver, MAX_MESSAGE_SIZE};

#[test]
fn frames_one_message() {
    let mut rx = UsbMessageReciver::new();
    let msgs = rx.poll(&b"*PWM1:2\n".to_vec());
    assert_eq!(msgs.len(), 1);
    assert_eq!(msgs[0], b"PWM1:2".to_vec());
}

#[test]
fn ignores_bytes_outside_messages() {
    let mut rx = UsbMessageReciver::new();
    let msgs = rx.poll(&b"noise\nmore*VER\ntrailing".to_vec());
    assert_eq!(msgs.len(), 1);
    assert_eq!(msgs[0], b"VER".to_vec());
}

#[test]
fn star_restarts_a_message() {
    let mut rx = UsbMessageReciver::new();
    let msgs = rx.poll(&b"*abc*def\n".to_vec());
    assert_eq!(msgs.len(), 1);
    assert_eq!(msgs[0], b"def".to_vec());
}

#[test]
fn two_messages_in_one_batch() {
    let mut rx = UsbMessageReciver::new();
    let msgs = rx.poll(&b"*one\n*two\n".to_vec());
    assert_eq!(msgs.len(), 2);
    assert_eq!(msgs[0], b"one".to_vec());
    assert_eq!(msgs[1], b"two".to_vec());
}

#[test]
fn message_spans_polls() {
    let mut rx = UsbMessageReciver::new();
    assert_eq!(rx.poll(&b"*hal".to_vec()).len(), 0);
    let msgs = rx.poll(&b"f\n".to_vec());
    assert_eq!(msgs.len(), 1);
    assert_eq!(msgs[0], b"half".to_vec());
}

#[test]
fn push_byte_mid_message_yields_nothing() {
    let mut rx = UsbMessageReciver::new();
    assert_eq!(rx.push_byte(b'*'), None);
    assert_eq!(rx.push_byte(b'V'), None);
    let done = rx.push_byte(b'\n');
    assert_eq!(done, Some(b"V".to_vec()));
}

#[test]
fn overlong_message_is_discarded() {
    let mut rx = UsbMessageReciver::new();
    let mut data = vec![b'*'];
    data.extend(std::iter::repeat(b'x').take(MAX_MESSAGE_SIZE + 1));
    data.push(b'\n');
    let msgs = rx.poll(&data);
    assert_eq!(msgs.len(), 0, "an overlong message must be dropped");
    // The receiver still accepts the next well-formed message.
    let msgs = rx.poll(&b"*ok\n".to_vec());
    assert_eq!(msgs.len(), 1);
    assert_eq!(msgs[0], b"ok".to_vec());
}

#[test]
fn message_at_exact_limit_is_kept() {
    let mut rx = UsbMessageReciver::new();
    let mut data = vec![b'*'];
    data.extend(std::iter::repeat(b'y').take(MAX_MESSAGE_SIZE));
    data.push(b'\n');
    let msgs = rx.poll(&data);
    assert_eq!(msgs.len(), 1);
    assert_eq!(msgs[0].len(), MAX_MESSAGE_SIZE);
}
