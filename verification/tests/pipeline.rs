//! The whole command path, end to end: serial bytes are framed into
//! messages, messages encode into FIFO frames, frames decode back into
//! commands on the other core.

use picofw::fifomsg::{decode_fifo_msg, encode_cmd, FifoMessageKind};
use picofw::sharedmessage::SharedString;
use picofw::usb::UsbMessageReciver;

#[test]
fn serial_bytes_to_decoded_commands() {
    let mut rx = UsbMessageReciver::new();
    let msgs = rx.poll(&b"*PWM5:77\ngarbage*VER\n".to_vec());
    assert_eq!(msgs.len(), 2);

    let frames = encode_cmd(&msgs[0], 9, 8, 7).expect("PWM command must encode");
    assert_eq!(frames.len(), 1);
    match decode_fifo_msg(frames[0]) {
        FifoMessageKind::PWMCMD(c) => {
            assert_eq!(c.channel(), 4, "channel 5 loses its low two bits to the value field");
            assert_eq!(c.value(), 77);
        },
        other => panic!("wrong kind: {:?}", other),
    }

    let frames = encode_cmd(&msgs[1], 9, 8, 7).expect("VER command must encode");
    match decode_fifo_msg(frames[0]) {
        FifoMessageKind::VersionCMD(v) => {
            assert_eq!((v.major(), v.minor(), v.patch()), (9, 8, 7));
        },
        other => panic!("wrong kind: {:?}", other),
    }
}

#[test]
fn received_messages_reach_the_other_core() {
    let mut rx = UsbMessageReciver::new();
    let mut shared = SharedString::new();
    for msg in rx.poll(&b"*LED:ON\n*LED:OFF\n".to_vec()) {
        shared.push_message(msg, false);
    }
    shared.flush_queue(true);
    let delivered = shared.drain_all();
    assert_eq!(delivered, vec![b"LED:ON".to_vec(), b"LED:OFF".to_vec()]);
}
