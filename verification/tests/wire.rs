use bytes::{BufMut, BytesMut};
use unibus::addr::UbAddr;
use unibus::codec::{
    decode_ack_payload, decode_credit_payload, decode_frame, encode_ack_payload,
    encode_credit_payload, encode_frame,
};
use unibus::frame::{
    AckPayload, CreditPayload, DataExtHeader, ExtFlags, FrameFlags, FrameHeader, FrameType, MAGIC,
    VERSION,
};
use unibus::types::Verb;

fn make_test_header() -> FrameHeader {
    FrameHeader {
        magic: MAGIC,
        version: VERSION,
        frame_type: FrameType::Data,
        flags: FrameFlags::ack_req(),
        src_node: 1,
        dst_node: 2,
        reserved: 0,
        stream_seq: 42,
        payload_len: 4,
        header_crc: 0,
    }
}

fn make_test_ext() -> DataExtHeader {
    DataExtHeader {
        verb: Verb::Write,
        ext_flags: ExtFlags::empty(),
        mr_handle: 1,
        jetty_src: 0,
        jetty_dst: 0,
        opaque: 100,
        frag_id: 100,
        frag_index: 0,
        frag_total: 1,
        ub_addr: UbAddr::new(1, 2, 0, 0, 0),
        imm: None,
    }
}

#[test]
fn test_data_frame_roundtrip() {
    let header = make_test_header();
    let ext = make_test_ext();
    let payload = &[1u8, 2, 3, 4];

    let encoded = encode_frame(&header, Some(&ext), payload);
    let (h, e, p) = decode_frame(&encoded).unwrap();

    assert_eq!(h, header);
    assert_eq!(e.as_ref().unwrap(), &ext);
    assert_eq!(p, payload);
}

#[test]
fn test_data_frame_with_imm() {
    let mut ext = make_test_ext();
    ext.ext_flags = ExtFlags::has_imm();
    ext.imm = Some(0x1234_5678);

    let header = make_test_header();
    let encoded = encode_frame(&header, Some(&ext), &[0u8; 4]);
    let (_, e, _) = decode_frame(&encoded).unwrap();

    assert_eq!(e.unwrap().imm, Some(0x1234_5678));
}

#[test]
fn test_fragment_frame() {
    let mut ext = make_test_ext();
    ext.ext_flags = ExtFlags::frag();
    ext.frag_index = 1;
    ext.frag_total = 3;

    let header = make_test_header();
    let encoded = encode_frame(&header, Some(&ext), &[]);
    let (_, e, _) = decode_frame(&encoded).unwrap();
    let decoded_ext = e.unwrap();
    assert_eq!(decoded_ext.frag_index, 1);
    assert_eq!(decoded_ext.frag_total, 3);
}

#[test]
fn test_invalid_magic() {
    let mut header = make_test_header();
    header.magic = 0xDEAD_BEEF;
    let encoded = encode_frame(&header, None, &[]);
    assert!(decode_frame(&encoded).is_err());
}

#[test]
fn test_version_mismatch() {
    let mut buf = BytesMut::with_capacity(32);
    buf.put_u32(MAGIC);
    buf.put_u8(99); // bad version
    buf.put_u8(0x01); // Data
    buf.put_u16(0); // flags
    buf.put_u16(1);
    buf.put_u16(2);
    buf.put_u32(0);
    buf.put_u64(0);
    buf.put_u32(0);
    buf.put_u32(0);
    assert!(decode_frame(&buf).is_err());
}

#[test]
fn test_ack_payload_roundtrip() {
    let ack = AckPayload {
        ack_seq: 100,
        credit_grant: 5,
        reserved: 0,
        sack_bitmap: Some([0xAA; 32]),
    };
    let encoded = encode_ack_payload(&ack);
    let decoded = decode_ack_payload(&encoded, true).unwrap();
    assert_eq!(decoded.ack_seq, 100);
    assert_eq!(decoded.credit_grant, 5);
    assert_eq!(decoded.sack_bitmap.unwrap(), [0xAA; 32]);
}

#[test]
fn test_ack_payload_no_sack() {
    let ack = AckPayload {
        ack_seq: 50,
        credit_grant: 3,
        reserved: 0,
        sack_bitmap: None,
    };
    let encoded = encode_ack_payload(&ack);
    let decoded = decode_ack_payload(&encoded, false).unwrap();
    assert_eq!(decoded.ack_seq, 50);
    assert!(decoded.sack_bitmap.is_none());
}

#[test]
fn test_credit_payload_roundtrip() {
    let credit = CreditPayload {
        credits: 64,
        reserved: 0,
    };
    let encoded = encode_credit_payload(&credit);
    let decoded = decode_credit_payload(&encoded).unwrap();
    assert_eq!(decoded.credits, 64);
}

#[test]
fn test_frame_type_roundtrip() {
    assert_eq!(FrameType::from_u8(0x01), Some(FrameType::Data));
    assert_eq!(FrameType::from_u8(0x02), Some(FrameType::Ack));
    assert_eq!(FrameType::from_u8(0x03), Some(FrameType::Credit));
    assert!(FrameType::from_u8(0x00).is_none());
}

#[test]
fn test_frame_flags() {
    let flags = FrameFlags::ack_req() | FrameFlags::has_imm();
    assert!(flags.contains(FrameFlags::ack_req()));
    assert!(flags.contains(FrameFlags::has_imm()));
    assert!(!flags.contains(FrameFlags::has_sack()));
}

#[test]
fn test_ext_flags() {
    let flags = ExtFlags::has_imm() | ExtFlags::frag();
    assert!(flags.contains(ExtFlags::has_imm()));
    assert!(flags.contains(ExtFlags::frag()));
    assert!(!flags.contains(ExtFlags::err_resp()));
}
