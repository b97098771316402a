use unibus::addr::UbAddr;
use unibus::codec::{
    ack_to_vec, credit_to_vec, decode_ack_payload, decode_credit_payload, decode_frame,
    encode_ack_payload, encode_frame, frame_to_vec,
};
use unibus::error::UbError;
use unibus::frame::{
    AckPayload, CreditPayload, DataExtHeader, ExtFlags, FrameFlags, FrameHeader, FrameType, MAGIC,
    VERSION,
};
use unibus::message::{
    decode_ctrl_message, encode_ctrl_message, ControlMsg, CtrlMsgType, FetchRespPayload,
    HeartbeatPayload, HelloPayload, MrPublishPayload, RegionDeletePayload,
};
use unibus::types::{DeviceKind, MrPerms, Verb};

fn internal<T>(r: Result<T, UbError>) -> String {
    match r {
        Err(UbError::Internal(m)) => m,
        Err(e) => panic!("expected an internal error, got {:?}", e),
        Ok(_) => panic!("expected an error"),
    }
}

fn header(frame_type: FrameType, flags: FrameFlags) -> FrameHeader {
    FrameHeader {
        magic: MAGIC,
        version: VERSION,
        frame_type,
        flags,
        src_node: 0x0102,
        dst_node: 0x0304,
        reserved: 0,
        stream_seq: 0x0506_0708_090A_0B0C,
        payload_len: 3,
        header_crc: 0x0D0E_0F10,
    }
}

fn ext(imm: Option<u64>) -> DataExtHeader {
    DataExtHeader {
        verb: Verb::Write,
        ext_flags: if imm.is_some() { ExtFlags::has_imm() } else { ExtFlags::empty() },
        mr_handle: 1,
        jetty_src: 2,
        jetty_dst: 3,
        opaque: 4,
        frag_id: 5,
        frag_index: 0,
        frag_total: 1,
        ub_addr: UbAddr::new(1, 2, 0, 0, 0),
        imm,
    }
}

#[test]
fn header_bytes_are_as_laid_out() {
    let bytes = frame_to_vec(&header(FrameType::Credit, FrameFlags::ack_req()), None, &[]);
    let mut want = vec![0x55, 0x42, 0x54, 0x59, 1, 3, 0, 1, 1, 2, 3, 4, 0, 0, 0, 0];
    want.extend([5, 6, 7, 8, 9, 10, 11, 12, 0, 0, 0, 3, 13, 14, 15, 16]);
    assert_eq!(bytes, want);
    let encoded = encode_frame(&header(FrameType::Credit, FrameFlags::ack_req()), None, &[]);
    assert_eq!(encoded.to_vec(), want);
}

#[test]
fn frames_round_trip_with_and_without_immediate() {
    for imm in [None, Some(u64::MAX)] {
        let flags = FrameFlags::ack_req() | FrameFlags::has_imm();
        let e = ext(imm);
        let bytes = frame_to_vec(&header(FrameType::Data, flags), Some(&e), &[7, 8, 9]);
        assert_eq!(bytes.len(), if imm.is_some() { 32 + 56 + 3 } else { 32 + 48 + 3 });
        let (h, got, payload) = decode_frame(&bytes).unwrap();
        assert_eq!(h, header(FrameType::Data, flags));
        assert_eq!(got, Some(e));
        assert_eq!(payload, &[7, 8, 9]);
    }
}

#[test]
fn unreadable_frames_are_refused_with_the_reason() {
    let good = frame_to_vec(&header(FrameType::Data, FrameFlags::empty()), Some(&ext(None)), &[]);
    assert_eq!(internal(decode_frame(&good[..31])), "frame too short for header");
    assert_eq!(internal(decode_frame(&good[..79])), "DATA ext header too short");

    let mut magic = good.clone();
    magic[0] = 0;
    assert_eq!(internal(decode_frame(&magic)), "invalid magic: 0x00425459");

    let mut version = good.clone();
    version[4] = 200;
    assert_eq!(internal(decode_frame(&version)), "version mismatch: 200");

    let mut kind = good.clone();
    kind[5] = 9;
    assert_eq!(internal(decode_frame(&kind)), "unknown frame type: 9");

    let mut verb = good;
    verb[32] = 77;
    assert_eq!(internal(decode_frame(&verb)), "unknown verb: 77");
}

#[test]
fn acknowledgement_and_credit_bytes() {
    let ack = AckPayload { ack_seq: 258, credit_grant: 3, reserved: 0, sack_bitmap: None };
    let bytes = ack_to_vec(&ack);
    assert_eq!(bytes, vec![0, 0, 0, 0, 0, 0, 1, 2, 0, 0, 0, 3, 0, 0, 0, 0]);
    assert_eq!(encode_ack_payload(&ack).to_vec(), bytes);
    assert_eq!(internal(decode_ack_payload(&bytes[..15], false)), "ACK payload too short");
    assert_eq!(internal(decode_ack_payload(&bytes, true)), "ACK payload too short for SACK");

    let credit = credit_to_vec(&CreditPayload { credits: 0x0A0B_0C0D, reserved: 0 });
    assert_eq!(credit, vec![10, 11, 12, 13, 0, 0, 0, 0]);
    assert_eq!(internal(decode_credit_payload(&credit[..7])), "CREDIT payload too short");
}

#[test]
fn unknown_flag_bits_are_dropped() {
    assert_eq!(ExtFlags::from_bits_truncate(0xFF).bits() & 0xF8, 0);
    assert!(FrameFlags::from_bits_truncate(0xFFFF).contains(FrameFlags::err_resp()));
    assert_eq!(FrameFlags::from_bits_truncate(0x8000), FrameFlags::empty());
}

#[test]
fn message_framing_is_length_type_payload() {
    let bytes = encode_ctrl_message(CtrlMsgType::Hello, &[9, 8]);
    assert_eq!(bytes.to_vec(), vec![0, 0, 0, 2, CtrlMsgType::Hello.to_u8(), 9, 8]);
    // Bytes behind the message are left alone
    let (kind, payload) = decode_ctrl_message(&[0, 0, 0, 1, CtrlMsgType::Join.to_u8(), 5, 6]).unwrap();
    assert_eq!(kind, CtrlMsgType::Join);
    assert_eq!(payload, vec![5]);
}

#[test]
fn unreadable_messages_are_refused_with_the_reason() {
    assert_eq!(internal(decode_ctrl_message(&[0, 0, 0, 0])), "control message too short");
    assert_eq!(internal(decode_ctrl_message(&[0, 0, 0, 0, 250])), "unknown ctrl msg type: 250");
    let hello = CtrlMsgType::Hello.to_u8();
    assert_eq!(
        internal(decode_ctrl_message(&[0, 0, 0, 2, hello, 1])),
        "control message truncated"
    );
    assert_eq!(
        internal(ControlMsg::decode(&[0, 0, 0, 1, hello, 1])),
        "failed to fill whole buffer"
    );
}

#[test]
fn payloads_with_unknown_codes_are_refused() {
    let publish = MrPublishPayload {
        owner_node: 1,
        mr_handle: 5,
        base_ub_addr: UbAddr::new(1, 1, 0, 0, 0),
        len: 1024,
        perms: MrPerms::read(),
        device_kind: DeviceKind::Npu,
    };
    let mut bytes = publish.encode().to_vec();
    *bytes.last_mut().unwrap() = 7;
    assert_eq!(internal(MrPublishPayload::decode(&bytes)), "invalid device_kind: 7");
}

#[test]
fn texts_in_messages_must_be_texts() {
    let hello = HelloPayload {
        node_id: 1,
        version: 1,
        local_epoch: 2,
        initial_credits: 3,
        data_addr: "höst:1".to_string(),
    };
    let mut bytes = hello.encode().to_vec();
    assert_eq!(HelloPayload::decode(&bytes).unwrap().data_addr, "höst:1");
    *bytes.last_mut().unwrap() = 0xFF;
    assert_eq!(
        internal(HelloPayload::decode(&bytes)),
        "invalid data_addr: invalid utf-8 sequence of 1 bytes from index 6"
    );
    bytes.pop();
    assert_eq!(internal(HelloPayload::decode(&bytes)), "failed to fill whole buffer");
}

#[test]
fn heartbeat_bytes() {
    let hb = HeartbeatPayload { node_id: 0x0102, timestamp: 0x0304 };
    assert_eq!(hb.encode().to_vec(), vec![1, 2, 0, 0, 0, 0, 0, 0, 3, 4]);
}

#[test]
fn every_message_type_has_its_code() {
    for code in 0..=255u8 {
        if let Some(kind) = CtrlMsgType::from_u8(code) {
            assert_eq!(kind.to_u8(), code);
        }
    }
    assert!(CtrlMsgType::from_u8(0).is_none());
}

#[test]
fn empty_payload_survives_the_wire() {
    let msg = ControlMsg::FetchResp(FetchRespPayload {
        region_id: 1,
        epoch: 2,
        payload: Vec::new(),
        error_code: 3,
    });
    match ControlMsg::decode(&msg.encode()).unwrap() {
        ControlMsg::FetchResp(p) => {
            assert!(p.payload.is_empty());
            assert_eq!(p.error_code, 3);
        }
        _ => panic!("expected FetchResp"),
    }
    let delete = ControlMsg::RegionDelete(RegionDeletePayload { region_id: u64::MAX });
    match ControlMsg::decode(&delete.encode()).unwrap() {
        ControlMsg::RegionDelete(p) => assert_eq!(p.region_id, u64::MAX),
        _ => panic!("expected RegionDelete"),
    }
}
