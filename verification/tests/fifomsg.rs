use picofw::fifomsg::{
    decode_by_id, decode_fifo_msg, encode_cmd, FifoMessageDef, FifoMessageKind, FifoMsgFrame,
    FifoMsgIdentifier, LedCMD, PWMCMD, SerialCMD, SerialCommandType, VersionCMD,
};

#[test]
fn frame_identifier_and_payload_fields() {
    let mut f = FifoMsgFrame(0);
    f.set_identifier(2);
    f.set_payload(0x00AB_CDEF);
    assert_eq!(f.identifier(), 2);
    assert_eq!(f.payload(), 0x00AB_CDEF);
    assert_eq!(f.0, 0x20AB_CDEF);
    // The identifier field is four bits wide; the payload 28.
    f.set_identifier(0x1F);
    assert_eq!(f.identifier(), 0xF);
    f.set_payload(0xFFFF_FFFF);
    assert_eq!(f.payload(), 0x0FFF_FFFF);
}

#[test]
fn serial_cmd_fields() {
    let mut c = SerialCMD(0);
    c.set_cmd(5);
    c.set_channel(9);
    c.set_value(1000);
    assert_eq!(c.cmd(), 5);
    assert_eq!(c.channel(), 9);
    assert_eq!(c.value(), 1000);
    assert_eq!(c.0, 5 * 0x100_0000 + 9 * 0x4_0000 + 1000);
}

#[test]
fn pwm_cmd_fields_overlap() {
    // Channel bits 27..22 and value bits 23..0 overlap in bits 23..22:
    // writing the value clears the channel's low two bits.
    let mut c = PWMCMD(0);
    c.set_channel(63);
    assert_eq!(c.channel(), 63);
    c.set_value(0);
    assert_eq!(c.channel(), 60);
    assert_eq!(c.value(), 0);
}

#[test]
fn version_cmd_fields() {
    let mut v = VersionCMD(0);
    v.set_major(1);
    v.set_minor(2);
    v.set_patch(3);
    assert_eq!(v.major(), 1);
    assert_eq!(v.minor(), 2);
    assert_eq!(v.patch(), 3);
    assert_eq!(v.0, 0x10_0000 + 2 * 0x1000 + 3 * 16);
}

#[test]
fn led_cmd_field() {
    let mut l = LedCMD(0);
    l.set_cmd(2);
    assert_eq!(l.cmd(), 2);
}

#[test]
fn identifier_codes_round_trip() {
    for id in [
        FifoMsgIdentifier::SerialCMD,
        FifoMsgIdentifier::VersionCMD,
        FifoMsgIdentifier::PWMCMD,
        FifoMsgIdentifier::LedCMD,
    ] {
        assert_eq!(FifoMsgIdentifier::try_from(id.to_u8()), Ok(id));
    }
    assert_eq!(FifoMsgIdentifier::SerialCMD.to_u8(), 0);
    assert_eq!(FifoMsgIdentifier::VersionCMD.to_u8(), 1);
    assert_eq!(FifoMsgIdentifier::PWMCMD.to_u8(), 2);
    assert_eq!(FifoMsgIdentifier::LedCMD.to_u8(), 3);
    assert_eq!(FifoMsgIdentifier::try_from(4), Err(()));
    assert_eq!(FifoMsgIdentifier::try_from(255), Err(()));
}

#[test]
fn serial_command_type_codes_round_trip() {
    for c in [
        SerialCommandType::Pwm,
        SerialCommandType::Cfg,
        SerialCommandType::Version,
        SerialCommandType::Led,
    ] {
        assert_eq!(SerialCommandType::try_from(c.to_u8()), Ok(c));
    }
    assert_eq!(SerialCommandType::try_from(9), Err(()));
}

#[test]
fn serial_command_type_from_prefix() {
    assert_eq!(SerialCommandType::try_from_bytes(&b"PWM1:2".to_vec()), Ok(SerialCommandType::Pwm));
    assert_eq!(SerialCommandType::try_from_bytes(&b"CFG".to_vec()), Ok(SerialCommandType::Cfg));
    assert_eq!(
        SerialCommandType::try_from_bytes(&b"VERsion".to_vec()),
        Ok(SerialCommandType::Version)
    );
    assert_eq!(SerialCommandType::try_from_bytes(&b"LED:ON".to_vec()), Ok(SerialCommandType::Led));
    assert_eq!(SerialCommandType::try_from_bytes(&b"pwm1:2".to_vec()), Err(()));
    assert_eq!(SerialCommandType::try_from_bytes(&b"PW".to_vec()), Err(()));
    assert_eq!(SerialCommandType::try_from_bytes(&b"".to_vec()), Err(()));
}

#[test]
fn trait_encode_and_decode() {
    let c = SerialCMD::decode(0x123);
    assert_eq!(c.as_u32(), 0x123);
    let f = c.encode();
    assert_eq!(f.identifier(), 0);
    assert_eq!(f.payload(), 0x123);
    let p = PWMCMD::decode(77);
    let f = p.encode();
    assert_eq!(f.identifier(), 2);
    assert_eq!(f.payload(), 77);
    assert_eq!(VersionCMD::decode(5).encode().identifier(), 1);
    assert_eq!(LedCMD::decode(6).encode().identifier(), 3);
}

#[test]
fn decode_fifo_msg_each_kind() {
    assert_eq!(
        decode_fifo_msg(FifoMsgFrame(0x0000_0123)),
        FifoMessageKind::SerialCMD(SerialCMD(0x123))
    );
    assert_eq!(
        decode_fifo_msg(FifoMsgFrame(0x1000_0042)),
        FifoMessageKind::VersionCMD(VersionCMD(0x42))
    );
    assert_eq!(decode_fifo_msg(FifoMsgFrame(0x2000_00FA)), FifoMessageKind::PWMCMD(PWMCMD(0xFA)));
    assert_eq!(decode_fifo_msg(FifoMsgFrame(0x3000_0001)), FifoMessageKind::LedCMD(LedCMD(1)));
    assert_eq!(decode_fifo_msg(FifoMsgFrame(0x7000_0009)), FifoMessageKind::Unknown(9));
}

#[test]
fn decode_by_id_each_kind() {
    assert_eq!(
        decode_by_id(FifoMsgIdentifier::SerialCMD, 1),
        FifoMessageKind::SerialCMD(SerialCMD(1))
    );
    assert_eq!(decode_by_id(FifoMsgIdentifier::PWMCMD, 2), FifoMessageKind::PWMCMD(PWMCMD(2)));
    assert_eq!(
        decode_by_id(FifoMsgIdentifier::VersionCMD, 3),
        FifoMessageKind::VersionCMD(VersionCMD(3))
    );
    assert_eq!(decode_by_id(FifoMsgIdentifier::LedCMD, 4), FifoMessageKind::LedCMD(LedCMD(4)));
}

#[test]
fn encode_round_trips_through_decode() {
    // Packing a message and decoding the frame yields the message back.
    let p = PWMCMD::decode(0x00C0_FFEE & 0x0FFF_FFFF);
    match decode_fifo_msg(p.encode()) {
        FifoMessageKind::PWMCMD(q) => assert_eq!(q.0, p.0 & 0x0FFF_FFFF),
        other => panic!("wrong kind: {:?}", other),
    }
}

#[test]
fn encode_cmd_single_pwm_pair() {
    let frames = encode_cmd(&b"PWM3:250".to_vec(), 0, 0, 0).expect("valid command");
    assert_eq!(frames.len(), 1);
    // Channel 3 loses its low two bits to the overlapping value field.
    assert_eq!(frames[0].0, 0x2000_0000 + 250);
    assert_eq!(frames[0].identifier(), 2);
    match decode_fifo_msg(frames[0]) {
        FifoMessageKind::PWMCMD(c) => {
            assert_eq!(c.value(), 250);
            assert_eq!(c.channel(), 0);
        },
        other => panic!("wrong kind: {:?}", other),
    }
}

#[test]
fn encode_cmd_pwm_channel_bits() {
    // Channel 4 survives the overlap (its low two bits are zero).
    let frames = encode_cmd(&b"PWM4:100000".to_vec(), 0, 0, 0).expect("valid command");
    assert_eq!(frames.len(), 1);
    assert_eq!(frames[0].0, 0x2000_0000 + 0x100_0000 + 100000);
}

#[test]
fn encode_cmd_multiple_pwm_pairs() {
    let frames = encode_cmd(&b"PWM1:2,3:4".to_vec(), 0, 0, 0).expect("valid command");
    assert_eq!(frames.len(), 2);
    assert_eq!(frames[0].0, 0x2000_0000 + 2);
    assert_eq!(frames[1].0, 0x2000_0000 + 4);
}

#[test]
fn encode_cmd_pwm_leading_zeros() {
    let frames = encode_cmd(&b"PWM007:00255".to_vec(), 0, 0, 0).expect("valid command");
    assert_eq!(frames.len(), 1);
    assert_eq!(frames[0].0, 0x2000_0000 + 0x100_0000 + 255);
}

#[test]
fn encode_cmd_pwm_malformed() {
    for bad in [
        &b"PWM"[..],
        b"PWM1",
        b"PWM1:",
        b"PWM:2",
        b"PWM1:2:3",
        b"PWM1:2,",
        b"PWMx:2",
        b"PWM1:y",
        b"PWM300:1",
        b"PWM1:4294967296",
    ] {
        assert_eq!(encode_cmd(&bad.to_vec(), 0, 0, 0), None, "must reject {:?}", bad);
    }
}

#[test]
fn encode_cmd_version() {
    let frames = encode_cmd(&b"VER".to_vec(), 1, 2, 3).expect("valid command");
    assert_eq!(frames.len(), 1);
    assert_eq!(frames[0].0, 0x1000_0000 + 0x10_0000 + 2 * 0x1000 + 3 * 16);
    match decode_fifo_msg(frames[0]) {
        FifoMessageKind::VersionCMD(v) => {
            assert_eq!(v.major(), 1);
            assert_eq!(v.minor(), 2);
            assert_eq!(v.patch(), 3);
        },
        other => panic!("wrong kind: {:?}", other),
    }
}

#[test]
fn encode_cmd_cfg_carries_nothing() {
    assert_eq!(encode_cmd(&b"CFG".to_vec(), 0, 0, 0), None);
    assert_eq!(encode_cmd(&b"CFGanything".to_vec(), 0, 0, 0), None);
}

#[test]
fn encode_cmd_led() {
    let on = encode_cmd(&b"LED:ON".to_vec(), 0, 0, 0).expect("valid command");
    assert_eq!(on.len(), 1);
    assert_eq!(on[0].0, 0x3000_0001);
    let off = encode_cmd(&b"LED:OFF".to_vec(), 0, 0, 0).expect("valid command");
    assert_eq!(off[0].0, 0x3000_0000);
    let toggle = encode_cmd(&b"LED:TOGGLE".to_vec(), 0, 0, 0).expect("valid command");
    assert_eq!(toggle[0].0, 0x3000_0002);
    // An unknown body still makes a frame, with code zero.
    let other = encode_cmd(&b"LED:BLAH".to_vec(), 0, 0, 0).expect("valid command");
    assert_eq!(other[0].0, 0x3000_0000);
    // Without the colon the command is rejected.
    assert_eq!(encode_cmd(&b"LEDON".to_vec(), 0, 0, 0), None);
}

#[test]
fn encode_cmd_unknown_prefix() {
    assert_eq!(encode_cmd(&b"XYZ1:2".to_vec(), 0, 0, 0), None);
    assert_eq!(encode_cmd(&b"".to_vec(), 0, 0, 0), None);
    assert_eq!(encode_cmd(&b"PW".to_vec(), 0, 0, 0), None);
}
