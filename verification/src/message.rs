//! Control plane messages: framing and payloads.
use crate::addr::UbAddr;
use crate::be::{be_bytes, lemma_be_bytes_len, lemma_pow256_values};
use crate::error::UbError;
use crate::text::{dec_text, with_dec};
use crate::types::{AccessPattern, CapacityClass, DeviceKind, LatencyClass, MrPerms, StorageTier};
use crate::wire::{
    block_bytes, bytes_contents, bytes_from, lemma_take_block, lemma_take_text, lemma_take_uint_at,
    lemma_uint_at, parsed, put_len, put_slice, put_u128, put_u16, put_u32, put_u64, put_u8,
    short_input, take_block, take_text, uint_at, Parsed, Reader,
};
use bytes::BytesMut;
use vstd::prelude::*;
use vstd::slice::slice_to_vec;
use vstd::string::*;
use vstd::utf8::encode_utf8;

verus! {

/// Types of control message.
#[derive(Debug, Clone, Copy, PartialEq, Eq, Structural)]
pub enum CtrlMsgType {
    Hello,
    HelloAck,
    MemberUp,
    MemberDown,
    MemberSnapshot,
    MrPublish,
    MrRevoke,
    Heartbeat,
    HeartbeatAck,
    Join,
    DeviceProfilePublish,
    AllocReq,
    AllocResp,
    RegionCreate,
    RegionCreateOk,
    RegionDelete,
    Fetch,
    FetchResp,
    WriteLockReq,
    WriteLockGranted,
    WriteUnlock,
    Invalidate,
    InvalidateAck,
}

impl CtrlMsgType {
    /// The byte that stands for the value on the wire.
    pub open spec fn code(self) -> u8 {
        match self {
            CtrlMsgType::Hello => 0x01,
            CtrlMsgType::HelloAck => 0x02,
            CtrlMsgType::MemberUp => 0x03,
            CtrlMsgType::MemberDown => 0x04,
            CtrlMsgType::MemberSnapshot => 0x05,
            CtrlMsgType::MrPublish => 0x06,
            CtrlMsgType::MrRevoke => 0x07,
            CtrlMsgType::Heartbeat => 0x08,
            CtrlMsgType::HeartbeatAck => 0x09,
            CtrlMsgType::Join => 0x10,
            CtrlMsgType::DeviceProfilePublish => 0x11,
            CtrlMsgType::AllocReq => 0x12,
            CtrlMsgType::AllocResp => 0x13,
            CtrlMsgType::RegionCreate => 0x14,
            CtrlMsgType::RegionCreateOk => 0x15,
            CtrlMsgType::RegionDelete => 0x16,
            CtrlMsgType::Fetch => 0x17,
            CtrlMsgType::FetchResp => 0x18,
            CtrlMsgType::WriteLockReq => 0x19,
            CtrlMsgType::WriteLockGranted => 0x1A,
            CtrlMsgType::WriteUnlock => 0x1B,
            CtrlMsgType::Invalidate => 0x1C,
            CtrlMsgType::InvalidateAck => 0x1D,
        }
    }

    /// The value that a byte stands for.
    pub open spec fn of_code(v: u8) -> Option<Self> {
        if v == 0x01 {
            Some(CtrlMsgType::Hello)
        } else if v == 0x02 {
            Some(CtrlMsgType::HelloAck)
        } else if v == 0x03 {
            Some(CtrlMsgType::MemberUp)
        } else if v == 0x04 {
            Some(CtrlMsgType::MemberDown)
        } else if v == 0x05 {
            Some(CtrlMsgType::MemberSnapshot)
        } else if v == 0x06 {
            Some(CtrlMsgType::MrPublish)
        } else if v == 0x07 {
            Some(CtrlMsgType::MrRevoke)
        } else if v == 0x08 {
            Some(CtrlMsgType::Heartbeat)
        } else if v == 0x09 {
            Some(CtrlMsgType::HeartbeatAck)
        } else if v == 0x10 {
            Some(CtrlMsgType::Join)
        } else if v == 0x11 {
            Some(CtrlMsgType::DeviceProfilePublish)
        } else if v == 0x12 {
            Some(CtrlMsgType::AllocReq)
        } else if v == 0x13 {
            Some(CtrlMsgType::AllocResp)
        } else if v == 0x14 {
            Some(CtrlMsgType::RegionCreate)
        } else if v == 0x15 {
            Some(CtrlMsgType::RegionCreateOk)
        } else if v == 0x16 {
            Some(CtrlMsgType::RegionDelete)
        } else if v == 0x17 {
            Some(CtrlMsgType::Fetch)
        } else if v == 0x18 {
            Some(CtrlMsgType::FetchResp)
        } else if v == 0x19 {
            Some(CtrlMsgType::WriteLockReq)
        } else if v == 0x1A {
            Some(CtrlMsgType::WriteLockGranted)
        } else if v == 0x1B {
            Some(CtrlMsgType::WriteUnlock)
        } else if v == 0x1C {
            Some(CtrlMsgType::Invalidate)
        } else if v == 0x1D {
            Some(CtrlMsgType::InvalidateAck)
        } else {
            None
        }
    }

    /// Bytes and values stand for one another, each value for its own byte.
    pub proof fn lemma_code(self, v: u8)
        ensures
            Self::of_code(self.code()) == Some(self),
            Self::of_code(v) matches Some(x) ==> x.code() == v,
            self.code() == match self {
                CtrlMsgType::Hello => 0x01u8,
                CtrlMsgType::HelloAck => 0x02,
                CtrlMsgType::MemberUp => 0x03,
                CtrlMsgType::MemberDown => 0x04,
                CtrlMsgType::MemberSnapshot => 0x05,
                CtrlMsgType::MrPublish => 0x06,
                CtrlMsgType::MrRevoke => 0x07,
                CtrlMsgType::Heartbeat => 0x08,
                CtrlMsgType::HeartbeatAck => 0x09,
                CtrlMsgType::Join => 0x10,
                CtrlMsgType::DeviceProfilePublish => 0x11,
                CtrlMsgType::AllocReq => 0x12,
                CtrlMsgType::AllocResp => 0x13,
                CtrlMsgType::RegionCreate => 0x14,
                CtrlMsgType::RegionCreateOk => 0x15,
                CtrlMsgType::RegionDelete => 0x16,
                CtrlMsgType::Fetch => 0x17,
                CtrlMsgType::FetchResp => 0x18,
                CtrlMsgType::WriteLockReq => 0x19,
                CtrlMsgType::WriteLockGranted => 0x1A,
                CtrlMsgType::WriteUnlock => 0x1B,
                CtrlMsgType::Invalidate => 0x1C,
                CtrlMsgType::InvalidateAck => 0x1D,
            },
    {
    }

    pub fn to_u8(self) -> (r: u8)
        ensures
            r == self.code(),
    {
        match self {
            CtrlMsgType::Hello => 0x01,
            CtrlMsgType::HelloAck => 0x02,
            CtrlMsgType::MemberUp => 0x03,
            CtrlMsgType::MemberDown => 0x04,
            CtrlMsgType::MemberSnapshot => 0x05,
            CtrlMsgType::MrPublish => 0x06,
            CtrlMsgType::MrRevoke => 0x07,
            CtrlMsgType::Heartbeat => 0x08,
            CtrlMsgType::HeartbeatAck => 0x09,
            CtrlMsgType::Join => 0x10,
            CtrlMsgType::DeviceProfilePublish => 0x11,
            CtrlMsgType::AllocReq => 0x12,
            CtrlMsgType::AllocResp => 0x13,
            CtrlMsgType::RegionCreate => 0x14,
            CtrlMsgType::RegionCreateOk => 0x15,
            CtrlMsgType::RegionDelete => 0x16,
            CtrlMsgType::Fetch => 0x17,
            CtrlMsgType::FetchResp => 0x18,
            CtrlMsgType::WriteLockReq => 0x19,
            CtrlMsgType::WriteLockGranted => 0x1A,
            CtrlMsgType::WriteUnlock => 0x1B,
            CtrlMsgType::Invalidate => 0x1C,
            CtrlMsgType::InvalidateAck => 0x1D,
        }
    }

    pub fn from_u8(v: u8) -> (r: Option<Self>)
        ensures
            r == Self::of_code(v),
    {
        match v {
            0x01 => Some(CtrlMsgType::Hello),
            0x02 => Some(CtrlMsgType::HelloAck),
            0x03 => Some(CtrlMsgType::MemberUp),
            0x04 => Some(CtrlMsgType::MemberDown),
            0x05 => Some(CtrlMsgType::MemberSnapshot),
            0x06 => Some(CtrlMsgType::MrPublish),
            0x07 => Some(CtrlMsgType::MrRevoke),
            0x08 => Some(CtrlMsgType::Heartbeat),
            0x09 => Some(CtrlMsgType::HeartbeatAck),
            0x10 => Some(CtrlMsgType::Join),
            0x11 => Some(CtrlMsgType::DeviceProfilePublish),
            0x12 => Some(CtrlMsgType::AllocReq),
            0x13 => Some(CtrlMsgType::AllocResp),
            0x14 => Some(CtrlMsgType::RegionCreate),
            0x15 => Some(CtrlMsgType::RegionCreateOk),
            0x16 => Some(CtrlMsgType::RegionDelete),
            0x17 => Some(CtrlMsgType::Fetch),
            0x18 => Some(CtrlMsgType::FetchResp),
            0x19 => Some(CtrlMsgType::WriteLockReq),
            0x1A => Some(CtrlMsgType::WriteLockGranted),
            0x1B => Some(CtrlMsgType::WriteUnlock),
            0x1C => Some(CtrlMsgType::Invalidate),
            0x1D => Some(CtrlMsgType::InvalidateAck),
            _ => None,
        }
    }
}

/// A framed message: length of the payload, type, payload.
pub open spec fn frame_bytes(msg_type: CtrlMsgType, payload: Seq<u8>) -> Seq<u8> {
    be_bytes(payload.len(), 4) + (be_bytes(msg_type.code() as nat, 1) + payload)
}

/// The type and the payload of the framed message at the front of `s`.
pub open spec fn take_frame(s: Seq<u8>) -> Result<(CtrlMsgType, Seq<u8>), Seq<char>> {
    if s.len() < 5 {
        Err("control message too short"@)
    } else {
        match CtrlMsgType::of_code(uint_at(s, 4, 1) as u8) {
            None => Err("unknown ctrl msg type: "@ + dec_text(uint_at(s, 4, 1))),
            Some(t) => if s.len() < 5 + uint_at(s, 0, 4) {
                Err("control message truncated"@)
            } else {
                Ok((t, s.subrange(5, 5int + uint_at(s, 0, 4))))
            },
        }
    }
}

/// Taking a framed message gives back its type and payload, whatever follows it.
pub proof fn lemma_frame_round_trip(msg_type: CtrlMsgType, payload: Seq<u8>, rest: Seq<u8>)
    requires
        payload.len() < 0x1_0000_0000,
    ensures
        take_frame(frame_bytes(msg_type, payload) + rest) == Ok::<
            (CtrlMsgType, Seq<u8>),
            Seq<char>,
        >((msg_type, payload)),
        uint_at(frame_bytes(msg_type, payload) + rest, 0, 4) == payload.len(),
        uint_at(frame_bytes(msg_type, payload) + rest, 4, 1) == msg_type.code(),
{
    broadcast use lemma_be_bytes_len;

    let r1 = payload + rest;
    let r0 = be_bytes(msg_type.code() as nat, 1) + r1;
    let s = frame_bytes(msg_type, payload) + rest;
    assert(s =~= be_bytes(payload.len(), 4) + r0);
    assert(s.skip(0) =~= s);
    lemma_pow256_values();
    lemma_uint_at(s, 0, payload.len(), 4, r0);
    lemma_uint_at(s, 4, msg_type.code() as nat, 1, r1);
    msg_type.lemma_code(0);
    assert(s.subrange(5, 5int + payload.len()) =~= s.skip(5).take(payload.len() as int));
    assert(s.skip(5).take(payload.len() as int) =~= payload);
}

fn framed(msg_type: CtrlMsgType, payload: &[u8]) -> (r: Vec<u8>)
    ensures
        r@ == frame_bytes(msg_type, payload@),
{
    broadcast use lemma_be_bytes_len;

    let mut buf: Vec<u8> = Vec::new();
    put_len(&mut buf, payload.len());
    put_u8(&mut buf, msg_type.to_u8());
    put_slice(&mut buf, payload);
    assert(buf@ =~= frame_bytes(msg_type, payload@));
    buf
}

/// Frames a payload.
pub fn encode_ctrl_message(msg_type: CtrlMsgType, payload: &[u8]) -> (r: BytesMut)
    ensures
        bytes_contents(r) == frame_bytes(msg_type, payload@),
{
    bytes_from(framed(msg_type, payload).as_slice())
}

/// Takes a framed message apart.
pub fn decode_ctrl_message(buf: &[u8]) -> (r: Result<(CtrlMsgType, Vec<u8>), UbError>)
    ensures
        match r {
            Ok(p) => take_frame(buf@) == Ok::<(CtrlMsgType, Seq<u8>), Seq<char>>((p.0, p.1@)),
            Err(e) => take_frame(buf@) matches Err(t) && e.is_internal(t),
        },
{
    broadcast use lemma_take_uint_at;

    if buf.len() < 5 {
        return Err(UbError::internal("control message too short"));
    }
    let mut cur = Reader::new(buf);
    let len: u32 = match cur.u32() {
        Ok(v) => v,
        Err(e) => return Err(e),
    };
    let code: u8 = match cur.u8() {
        Ok(v) => v,
        Err(e) => return Err(e),
    };
    let msg_type = match CtrlMsgType::from_u8(code) {
        Some(t) => t,
        None => return Err(UbError::Internal(with_dec("unknown ctrl msg type: ", code as u64))),
    };
    match cur.run(len as usize) {
        Ok(payload) => {
            assert(payload@ =~= buf@.subrange(5, 5 + len));
            Ok((msg_type, slice_to_vec(payload)))
        },
        Err(_) => Err(UbError::internal("control message truncated")),
    }
}

/// HELLO payload; also carried by HELLO_ACK and MEMBER_UP.
#[derive(Debug, Clone)]
pub struct HelloPayload {
    pub node_id: u16,
    pub version: u16,
    pub local_epoch: u32,
    pub initial_credits: u32,
    pub data_addr: String,
}

/// The contents of a `HelloPayload`.
#[verifier::ext_equal]
pub struct HelloPayloadView {
    pub node_id: u16,
    pub version: u16,
    pub local_epoch: u32,
    pub initial_credits: u32,
    pub data_addr: Seq<char>,
}

impl View for HelloPayload {
    type V = HelloPayloadView;

    open spec fn view(&self) -> HelloPayloadView {
        HelloPayloadView {
            node_id: self.node_id,
            version: self.version,
            local_epoch: self.local_epoch,
            initial_credits: self.initial_credits,
            data_addr: self.data_addr@,
        }
    }
}

/// The bytes of the payload, before `rest`.
#[verifier::opaque]
pub open spec fn hello_bytes(p: HelloPayloadView, rest: Seq<u8>) -> Seq<u8> {
    be_bytes(p.node_id as nat, 2) + (
    be_bytes(p.version as nat, 2) + (
    be_bytes(p.local_epoch as nat, 4) + (
    be_bytes(p.initial_credits as nat, 4) + (
    block_bytes(encode_utf8(p.data_addr), rest)))))
}

/// The payload at the front of `s`.
#[verifier::opaque]
pub open spec fn take_hello(s: Seq<u8>) -> Parsed<HelloPayloadView> {
    if s.len() < 12 {
        Err(short_input())
    } else {
        match take_text(s.skip(12), "invalid data_addr: "@) {
            Err(e) => Err(e),
            Ok((data_addr, s1)) => Ok(
                (
                    HelloPayloadView {
                        node_id: uint_at(s, 0, 2) as u16,
                        version: uint_at(s, 2, 2) as u16,
                        local_epoch: uint_at(s, 4, 4) as u32,
                        initial_credits: uint_at(s, 8, 4) as u32,
                        data_addr,
                    },
                    s1,
                ),
            ),
        }
    }
}

/// Decoding gives back what was encoded, whatever follows it. Each number
/// stands at its own place, high-order byte first.
pub proof fn lemma_hello_round_trip(p: HelloPayloadView, rest: Seq<u8>)
    requires
        encode_utf8(p.data_addr).len() < 0x1_0000_0000,
    ensures
        take_hello(hello_bytes(p, rest)) == parsed(p, rest),
        uint_at(hello_bytes(p, rest), 0, 2) == p.node_id,
        uint_at(hello_bytes(p, rest), 2, 2) == p.version,
        uint_at(hello_bytes(p, rest), 4, 4) == p.local_epoch,
        uint_at(hello_bytes(p, rest), 8, 4) == p.initial_credits,
{
    reveal(hello_bytes);
    let r5 = rest;
    let r4 = block_bytes(encode_utf8(p.data_addr), r5);
    let r3 = be_bytes(p.initial_credits as nat, 4) + r4;
    let r2 = be_bytes(p.local_epoch as nat, 4) + r3;
    let r1 = be_bytes(p.version as nat, 2) + r2;
    let r0 = be_bytes(p.node_id as nat, 2) + r1;
    lemma_pow256_values();
    assert(r0.skip(0) =~= r0);
    lemma_uint_at(r0, 0, p.node_id as nat, 2, r1);
    lemma_uint_at(r0, 2, p.version as nat, 2, r2);
    lemma_uint_at(r0, 4, p.local_epoch as nat, 4, r3);
    lemma_uint_at(r0, 8, p.initial_credits as nat, 4, r4);
    lemma_take_text(p.data_addr, "invalid data_addr: "@, r5);
    reveal(take_hello);
}

impl HelloPayload {
    pub fn encode(&self) -> (buf: Vec<u8>)
        ensures
            buf@ == hello_bytes(self@, Seq::empty()),
    {
        broadcast use lemma_be_bytes_len;

        reveal(hello_bytes);
        let mut buf: Vec<u8> = Vec::new();
        put_u16(&mut buf, self.node_id);
        put_u16(&mut buf, self.version);
        put_u32(&mut buf, self.local_epoch);
        put_u32(&mut buf, self.initial_credits);
        let data_addr_bytes = self.data_addr.as_str().as_bytes();
        put_len(&mut buf, data_addr_bytes.len());
        put_slice(&mut buf, data_addr_bytes);
        assert(buf@ =~= hello_bytes(self@, Seq::empty()));
        buf
    }

    pub fn decode(data: &[u8]) -> (r: Result<Self, UbError>)
        ensures
            match r {
                Ok(p) => take_hello(data@) matches Ok(x) && x.0 == p@,
                Err(e) => take_hello(data@) matches Err(t) && e.is_internal(t),
            },
    {
        broadcast use lemma_take_uint_at;

        reveal(take_hello);
        let mut cur = Reader::new(data);
        let node_id = match cur.u16() {
            Ok(v) => v,
            Err(e) => return Err(e),
        };
        let version = match cur.u16() {
            Ok(v) => v,
            Err(e) => return Err(e),
        };
        let local_epoch = match cur.u32() {
            Ok(v) => v,
            Err(e) => return Err(e),
        };
        let initial_credits = match cur.u32() {
            Ok(v) => v,
            Err(e) => return Err(e),
        };
        let data_addr = match cur.text("invalid data_addr: ") {
            Ok(v) => v,
            Err(e) => return Err(e),
        };
        Ok(HelloPayload { node_id, version, local_epoch, initial_credits, data_addr })
    }
}

/// HEARTBEAT payload.
#[derive(Debug, Clone, Copy)]
pub struct HeartbeatPayload {
    pub node_id: u16,
    pub timestamp: u64,
}

/// The bytes of the payload, before `rest`.
#[verifier::opaque]
pub open spec fn heartbeat_bytes(p: HeartbeatPayload, rest: Seq<u8>) -> Seq<u8> {
    be_bytes(p.node_id as nat, 2) + (be_bytes(p.timestamp as nat, 8) + (rest))
}

/// The payload at the front of `s`.
#[verifier::opaque]
pub open spec fn take_heartbeat(s: Seq<u8>) -> Parsed<HeartbeatPayload> {
    if s.len() < 10 {
        Err(short_input())
    } else {
        Ok(
            (
                HeartbeatPayload {
                    node_id: uint_at(s, 0, 2) as u16,
                    timestamp: uint_at(s, 2, 8) as u64,
                },
                s.skip(10),
            ),
        )
    }
}

/// Decoding gives back what was encoded, whatever follows it. Each number
/// stands at its own place, high-order byte first.
pub proof fn lemma_heartbeat_round_trip(p: HeartbeatPayload, rest: Seq<u8>)
    ensures
        take_heartbeat(heartbeat_bytes(p, rest)) == parsed(p, rest),
        uint_at(heartbeat_bytes(p, rest), 0, 2) == p.node_id,
        uint_at(heartbeat_bytes(p, rest), 2, 8) == p.timestamp,
{
    reveal(heartbeat_bytes);
    let r2 = rest;
    let r1 = be_bytes(p.timestamp as nat, 8) + r2;
    let r0 = be_bytes(p.node_id as nat, 2) + r1;
    lemma_pow256_values();
    assert(r0.skip(0) =~= r0);
    lemma_uint_at(r0, 0, p.node_id as nat, 2, r1);
    lemma_uint_at(r0, 2, p.timestamp as nat, 8, r2);
    reveal(take_heartbeat);
}

impl HeartbeatPayload {
    pub fn encode(&self) -> (buf: Vec<u8>)
        ensures
            buf@ == heartbeat_bytes(*self, Seq::empty()),
    {
        broadcast use lemma_be_bytes_len;

        reveal(heartbeat_bytes);
        let mut buf: Vec<u8> = Vec::new();
        put_u16(&mut buf, self.node_id);
        put_u64(&mut buf, self.timestamp);
        assert(buf@ =~= heartbeat_bytes(*self, Seq::empty()));
        buf
    }

    pub fn decode(data: &[u8]) -> (r: Result<Self, UbError>)
        ensures
            match r {
                Ok(p) => take_heartbeat(data@) matches Ok(x) && x.0 == p,
                Err(e) => take_heartbeat(data@) matches Err(t) && e.is_internal(t),
            },
    {
        broadcast use lemma_take_uint_at;

        reveal(take_heartbeat);
        let mut cur = Reader::new(data);
        let node_id = match cur.u16() {
            Ok(v) => v,
            Err(e) => return Err(e),
        };
        let timestamp = match cur.u64() {
            Ok(v) => v,
            Err(e) => return Err(e),
        };
        Ok(HeartbeatPayload { node_id, timestamp })
    }
}

/// MR_PUBLISH payload.
#[derive(Debug, Clone, Copy)]
pub struct MrPublishPayload {
    pub owner_node: u16,
    pub mr_handle: u32,
    pub base_ub_addr: UbAddr,
    pub len: u64,
    pub perms: MrPerms,
    pub device_kind: DeviceKind,
}

/// The bytes of the payload, before `rest`.
#[verifier::opaque]
pub open spec fn mr_publish_bytes(p: MrPublishPayload, rest: Seq<u8>) -> Seq<u8> {
    be_bytes(p.owner_node as nat, 2) + (
    be_bytes(p.mr_handle as nat, 4) + (
    be_bytes(p.base_ub_addr.0 as nat, 16) + (
    be_bytes(p.len as nat, 8) + (
    be_bytes(p.perms.spec_bits() as nat, 1) + (
    be_bytes(p.device_kind.code() as nat, 1) + rest)))))
}

/// The payload at the front of `s`.
#[verifier::opaque]
pub open spec fn take_mr_publish(s: Seq<u8>) -> Parsed<MrPublishPayload> {
    if s.len() < 32 {
        Err(short_input())
    } else {
        match DeviceKind::of_code(uint_at(s, 31, 1) as u8) {
            None => Err("invalid device_kind: "@ + dec_text(uint_at(s, 31, 1))),
            Some(device_kind) => Ok(
                (
                    MrPublishPayload {
                        owner_node: uint_at(s, 0, 2) as u16,
                        mr_handle: uint_at(s, 2, 4) as u32,
                        base_ub_addr: UbAddr(uint_at(s, 6, 16) as u128),
                        len: uint_at(s, 22, 8) as u64,
                        perms: MrPerms::of_bits(uint_at(s, 30, 1) as u8),
                        device_kind,
                    },
                    s.skip(32),
                ),
            ),
        }
    }
}

/// Decoding gives back what was encoded, whatever follows it. Each number
/// stands at its own place, high-order byte first.
pub proof fn lemma_mr_publish_round_trip(p: MrPublishPayload, rest: Seq<u8>)
    requires
        p.perms.known(),
    ensures
        take_mr_publish(mr_publish_bytes(p, rest)) == parsed(p, rest),
        uint_at(mr_publish_bytes(p, rest), 0, 2) == p.owner_node,
        uint_at(mr_publish_bytes(p, rest), 2, 4) == p.mr_handle,
        uint_at(mr_publish_bytes(p, rest), 6, 16) == p.base_ub_addr.0,
        uint_at(mr_publish_bytes(p, rest), 22, 8) == p.len,
        uint_at(mr_publish_bytes(p, rest), 30, 1) == p.perms.spec_bits(),
        uint_at(mr_publish_bytes(p, rest), 31, 1) == p.device_kind.code(),
{
    reveal(mr_publish_bytes);
    let r6 = rest;
    let r5 = be_bytes(p.device_kind.code() as nat, 1) + r6;
    let r4 = be_bytes(p.perms.spec_bits() as nat, 1) + r5;
    let r3 = be_bytes(p.len as nat, 8) + r4;
    let r2 = be_bytes(p.base_ub_addr.0 as nat, 16) + r3;
    let r1 = be_bytes(p.mr_handle as nat, 4) + r2;
    let r0 = be_bytes(p.owner_node as nat, 2) + r1;
    lemma_pow256_values();
    assert(r0.skip(0) =~= r0);
    lemma_uint_at(r0, 0, p.owner_node as nat, 2, r1);
    lemma_uint_at(r0, 2, p.mr_handle as nat, 4, r2);
    lemma_uint_at(r0, 6, p.base_ub_addr.0 as nat, 16, r3);
    lemma_uint_at(r0, 22, p.len as nat, 8, r4);
    lemma_uint_at(r0, 30, p.perms.spec_bits() as nat, 1, r5);
    p.perms.lemma_of_bits();
    lemma_uint_at(r0, 31, p.device_kind.code() as nat, 1, r6);
    p.device_kind.lemma_code(0);
    reveal(take_mr_publish);
}

impl MrPublishPayload {
    pub fn encode(&self) -> (buf: Vec<u8>)
        ensures
            buf@ == mr_publish_bytes(*self, Seq::empty()),
    {
        broadcast use lemma_be_bytes_len;

        reveal(mr_publish_bytes);
        let mut buf: Vec<u8> = Vec::new();
        put_u16(&mut buf, self.owner_node);
        put_u32(&mut buf, self.mr_handle);
        put_slice(&mut buf, &self.base_ub_addr.to_bytes());
        put_u64(&mut buf, self.len);
        put_u8(&mut buf, self.perms.bits());
        put_u8(&mut buf, self.device_kind.to_u8());
        assert(buf@ =~= mr_publish_bytes(*self, Seq::empty()));
        buf
    }

    pub fn decode(data: &[u8]) -> (r: Result<Self, UbError>)
        ensures
            match r {
                Ok(p) => take_mr_publish(data@) matches Ok(x) && x.0 == p,
                Err(e) => take_mr_publish(data@) matches Err(t) && e.is_internal(t),
            },
    {
        broadcast use lemma_take_uint_at;

        reveal(take_mr_publish);
        let mut cur = Reader::new(data);
        let owner_node = match cur.u16() {
            Ok(v) => v,
            Err(e) => return Err(e),
        };
        let mr_handle = match cur.u32() {
            Ok(v) => v,
            Err(e) => return Err(e),
        };
        let base_ub_addr_value = match cur.u128() {
            Ok(v) => v,
            Err(e) => return Err(e),
        };
        let base_ub_addr = UbAddr(base_ub_addr_value);
        let len = match cur.u64() {
            Ok(v) => v,
            Err(e) => return Err(e),
        };
        let perms_bits = match cur.u8() {
            Ok(v) => v,
            Err(e) => return Err(e),
        };
        let perms = MrPerms::from_bits_truncate(perms_bits);
        let device_kind_code = match cur.u8() {
            Ok(v) => v,
            Err(e) => return Err(e),
        };
        let device_kind = match DeviceKind::from_u8(device_kind_code) {
            Some(v) => v,
            None => return Err(
                UbError::Internal(with_dec("invalid device_kind: ", device_kind_code as u64)),
            ),
        };
        Ok(MrPublishPayload { owner_node, mr_handle, base_ub_addr, len, perms, device_kind })
    }
}

/// MR_REVOKE payload.
#[derive(Debug, Clone, Copy)]
pub struct MrRevokePayload {
    pub owner_node: u16,
    pub mr_handle: u32,
}

/// The bytes of the payload, before `rest`.
#[verifier::opaque]
pub open spec fn mr_revoke_bytes(p: MrRevokePayload, rest: Seq<u8>) -> Seq<u8> {
    be_bytes(p.owner_node as nat, 2) + (be_bytes(p.mr_handle as nat, 4) + (rest))
}

/// The payload at the front of `s`.
#[verifier::opaque]
pub open spec fn take_mr_revoke(s: Seq<u8>) -> Parsed<MrRevokePayload> {
    if s.len() < 6 {
        Err(short_input())
    } else {
        Ok(
            (
                MrRevokePayload {
                    owner_node: uint_at(s, 0, 2) as u16,
                    mr_handle: uint_at(s, 2, 4) as u32,
                },
                s.skip(6),
            ),
        )
    }
}

/// Decoding gives back what was encoded, whatever follows it. Each number
/// stands at its own place, high-order byte first.
pub proof fn lemma_mr_revoke_round_trip(p: MrRevokePayload, rest: Seq<u8>)
    ensures
        take_mr_revoke(mr_revoke_bytes(p, rest)) == parsed(p, rest),
        uint_at(mr_revoke_bytes(p, rest), 0, 2) == p.owner_node,
        uint_at(mr_revoke_bytes(p, rest), 2, 4) == p.mr_handle,
{
    reveal(mr_revoke_bytes);
    let r2 = rest;
    let r1 = be_bytes(p.mr_handle as nat, 4) + r2;
    let r0 = be_bytes(p.owner_node as nat, 2) + r1;
    lemma_pow256_values();
    assert(r0.skip(0) =~= r0);
    lemma_uint_at(r0, 0, p.owner_node as nat, 2, r1);
    lemma_uint_at(r0, 2, p.mr_handle as nat, 4, r2);
    reveal(take_mr_revoke);
}

impl MrRevokePayload {
    pub fn encode(&self) -> (buf: Vec<u8>)
        ensures
            buf@ == mr_revoke_bytes(*self, Seq::empty()),
    {
        broadcast use lemma_be_bytes_len;

        reveal(mr_revoke_bytes);
        let mut buf: Vec<u8> = Vec::new();
        put_u16(&mut buf, self.owner_node);
        put_u32(&mut buf, self.mr_handle);
        assert(buf@ =~= mr_revoke_bytes(*self, Seq::empty()));
        buf
    }

    pub fn decode(data: &[u8]) -> (r: Result<Self, UbError>)
        ensures
            match r {
                Ok(p) => take_mr_revoke(data@) matches Ok(x) && x.0 == p,
                Err(e) => take_mr_revoke(data@) matches Err(t) && e.is_internal(t),
            },
    {
        broadcast use lemma_take_uint_at;

        reveal(take_mr_revoke);
        let mut cur = Reader::new(data);
        let owner_node = match cur.u16() {
            Ok(v) => v,
            Err(e) => return Err(e),
        };
        let mr_handle = match cur.u32() {
            Ok(v) => v,
            Err(e) => return Err(e),
        };
        Ok(MrRevokePayload { owner_node, mr_handle })
    }
}

/// MEMBER_DOWN payload.
#[derive(Debug, Clone, Copy)]
pub struct MemberDownPayload {
    pub node_id: u16,
    /// 0 for a graceful leave, 1 for a timeout.
    pub reason: u8,
}

/// The bytes of the payload, before `rest`.
#[verifier::opaque]
pub open spec fn member_down_bytes(p: MemberDownPayload, rest: Seq<u8>) -> Seq<u8> {
    be_bytes(p.node_id as nat, 2) + (be_bytes(p.reason as nat, 1) + (rest))
}

/// The payload at the front of `s`.
#[verifier::opaque]
pub open spec fn take_member_down(s: Seq<u8>) -> Parsed<MemberDownPayload> {
    if s.len() < 3 {
        Err(short_input())
    } else {
        Ok(
            (
                MemberDownPayload {
                    node_id: uint_at(s, 0, 2) as u16,
                    reason: uint_at(s, 2, 1) as u8,
                },
                s.skip(3),
            ),
        )
    }
}

/// Decoding gives back what was encoded, whatever follows it. Each number
/// stands at its own place, high-order byte first.
pub proof fn lemma_member_down_round_trip(p: MemberDownPayload, rest: Seq<u8>)
    ensures
        take_member_down(member_down_bytes(p, rest)) == parsed(p, rest),
        uint_at(member_down_bytes(p, rest), 0, 2) == p.node_id,
        uint_at(member_down_bytes(p, rest), 2, 1) == p.reason,
{
    reveal(member_down_bytes);
    let r2 = rest;
    let r1 = be_bytes(p.reason as nat, 1) + r2;
    let r0 = be_bytes(p.node_id as nat, 2) + r1;
    lemma_pow256_values();
    assert(r0.skip(0) =~= r0);
    lemma_uint_at(r0, 0, p.node_id as nat, 2, r1);
    lemma_uint_at(r0, 2, p.reason as nat, 1, r2);
    reveal(take_member_down);
}

impl MemberDownPayload {
    pub fn encode(&self) -> (buf: Vec<u8>)
        ensures
            buf@ == member_down_bytes(*self, Seq::empty()),
    {
        broadcast use lemma_be_bytes_len;

        reveal(member_down_bytes);
        let mut buf: Vec<u8> = Vec::new();
        put_u16(&mut buf, self.node_id);
        put_u8(&mut buf, self.reason);
        assert(buf@ =~= member_down_bytes(*self, Seq::empty()));
        buf
    }

    pub fn decode(data: &[u8]) -> (r: Result<Self, UbError>)
        ensures
            match r {
                Ok(p) => take_member_down(data@) matches Ok(x) && x.0 == p,
                Err(e) => take_member_down(data@) matches Err(t) && e.is_internal(t),
            },
    {
        broadcast use lemma_take_uint_at;

        reveal(take_member_down);
        let mut cur = Reader::new(data);
        let node_id = match cur.u16() {
            Ok(v) => v,
            Err(e) => return Err(e),
        };
        let reason = match cur.u8() {
            Ok(v) => v,
            Err(e) => return Err(e),
        };
        Ok(MemberDownPayload { node_id, reason })
    }
}

/// JOIN payload, sent to a seed node.
#[derive(Debug, Clone)]
pub struct JoinPayload {
    pub node_id: u16,
    pub epoch: u32,
    pub data_addr: String,
    pub control_addr: String,
    pub initial_credits: u32,
}

/// The contents of a `JoinPayload`.
#[verifier::ext_equal]
pub struct JoinPayloadView {
    pub node_id: u16,
    pub epoch: u32,
    pub data_addr: Seq<char>,
    pub control_addr: Seq<char>,
    pub initial_credits: u32,
}

impl View for JoinPayload {
    type V = JoinPayloadView;

    open spec fn view(&self) -> JoinPayloadView {
        JoinPayloadView {
            node_id: self.node_id,
            epoch: self.epoch,
            data_addr: self.data_addr@,
            control_addr: self.control_addr@,
            initial_credits: self.initial_credits,
        }
    }
}

/// The bytes of the payload, before `rest`.
#[verifier::opaque]
pub open spec fn join_bytes(p: JoinPayloadView, rest: Seq<u8>) -> Seq<u8> {
    be_bytes(p.node_id as nat, 2) + (
    be_bytes(p.epoch as nat, 4) + (
    block_bytes(encode_utf8(p.data_addr),
    block_bytes(encode_utf8(p.control_addr),
    be_bytes(p.initial_credits as nat, 4) + rest))))
}

/// The payload at the front of `s`.
#[verifier::opaque]
pub open spec fn take_join(s: Seq<u8>) -> Parsed<JoinPayloadView> {
    if s.len() < 6 {
        Err(short_input())
    } else {
        match take_text(s.skip(6), "invalid data_addr: "@) {
            Err(e) => Err(e),
            Ok((data_addr, s1)) => match take_text(s1, "invalid control_addr: "@) {
                Err(e) => Err(e),
                Ok((control_addr, s2)) => if s2.len() < 4 {
                    Err(short_input())
                } else {
                    Ok(
                        (
                            JoinPayloadView {
                                node_id: uint_at(s, 0, 2) as u16,
                                epoch: uint_at(s, 2, 4) as u32,
                                data_addr,
                                control_addr,
                                initial_credits: uint_at(s2, 0, 4) as u32,
                            },
                            s2.skip(4),
                        ),
                    )
                },
            },
        }
    }
}

/// Decoding gives back what was encoded, whatever follows it. Each number
/// stands at its own place, high-order byte first.
pub proof fn lemma_join_round_trip(p: JoinPayloadView, rest: Seq<u8>)
    requires
        encode_utf8(p.data_addr).len() < 0x1_0000_0000,
        encode_utf8(p.control_addr).len() < 0x1_0000_0000,
    ensures
        take_join(join_bytes(p, rest)) == parsed(p, rest),
        uint_at(join_bytes(p, rest), 0, 2) == p.node_id,
        uint_at(join_bytes(p, rest), 2, 4) == p.epoch,
{
    reveal(join_bytes);
    let r5 = rest;
    let r4 = be_bytes(p.initial_credits as nat, 4) + r5;
    let r3 = block_bytes(encode_utf8(p.control_addr), r4);
    let r2 = block_bytes(encode_utf8(p.data_addr), r3);
    let r1 = be_bytes(p.epoch as nat, 4) + r2;
    let r0 = be_bytes(p.node_id as nat, 2) + r1;
    lemma_pow256_values();
    assert(r0.skip(0) =~= r0);
    lemma_uint_at(r0, 0, p.node_id as nat, 2, r1);
    lemma_uint_at(r0, 2, p.epoch as nat, 4, r2);
    lemma_take_text(p.data_addr, "invalid data_addr: "@, r3);
    lemma_take_text(p.control_addr, "invalid control_addr: "@, r4);
    assert(r4.skip(0) =~= r4);
    lemma_uint_at(r4, 0, p.initial_credits as nat, 4, r5);
    reveal(take_join);
}

impl JoinPayload {
    pub fn encode(&self) -> (buf: Vec<u8>)
        ensures
            buf@ == join_bytes(self@, Seq::empty()),
    {
        broadcast use lemma_be_bytes_len;

        reveal(join_bytes);
        let mut buf: Vec<u8> = Vec::new();
        put_u16(&mut buf, self.node_id);
        put_u32(&mut buf, self.epoch);
        let data_addr_bytes = self.data_addr.as_str().as_bytes();
        put_len(&mut buf, data_addr_bytes.len());
        put_slice(&mut buf, data_addr_bytes);
        let control_addr_bytes = self.control_addr.as_str().as_bytes();
        put_len(&mut buf, control_addr_bytes.len());
        put_slice(&mut buf, control_addr_bytes);
        put_u32(&mut buf, self.initial_credits);
        assert(buf@ =~= join_bytes(self@, Seq::empty()));
        buf
    }

    pub fn decode(data: &[u8]) -> (r: Result<Self, UbError>)
        ensures
            match r {
                Ok(p) => take_join(data@) matches Ok(x) && x.0 == p@,
                Err(e) => take_join(data@) matches Err(t) && e.is_internal(t),
            },
    {
        broadcast use lemma_take_uint_at;

        reveal(take_join);
        let mut cur = Reader::new(data);
        let node_id = match cur.u16() {
            Ok(v) => v,
            Err(e) => return Err(e),
        };
        let epoch = match cur.u32() {
            Ok(v) => v,
            Err(e) => return Err(e),
        };
        let data_addr = match cur.text("invalid data_addr: ") {
            Ok(v) => v,
            Err(e) => return Err(e),
        };
        let control_addr = match cur.text("invalid control_addr: ") {
            Ok(v) => v,
            Err(e) => return Err(e),
        };
        let initial_credits = match cur.u32() {
            Ok(v) => v,
            Err(e) => return Err(e),
        };
        Ok(JoinPayload { node_id, epoch, data_addr, control_addr, initial_credits })
    }
}

/// One node of a MEMBER_SNAPSHOT message.
#[derive(Debug, Clone)]
pub struct SnapshotNodeInfo {
    pub node_id: u16,
    pub state: u8,
    pub data_addr: String,
    pub control_addr: String,
    pub epoch: u32,
}

/// The contents of a `SnapshotNodeInfo`.
#[verifier::ext_equal]
pub struct SnapshotNodeView {
    pub node_id: u16,
    pub state: u8,
    pub data_addr: Seq<char>,
    pub control_addr: Seq<char>,
    pub epoch: u32,
}

impl View for SnapshotNodeInfo {
    type V = SnapshotNodeView;

    open spec fn view(&self) -> SnapshotNodeView {
        SnapshotNodeView {
            node_id: self.node_id,
            state: self.state,
            data_addr: self.data_addr@,
            control_addr: self.control_addr@,
            epoch: self.epoch,
        }
    }
}

/// MEMBER_SNAPSHOT payload.
#[derive(Debug, Clone)]
pub struct MemberSnapshotPayload {
    pub nodes: Vec<SnapshotNodeInfo>,
}

impl View for MemberSnapshotPayload {
    type V = Seq<SnapshotNodeView>;

    open spec fn view(&self) -> Seq<SnapshotNodeView> {
        self.nodes@.map_values(|n: SnapshotNodeInfo| n@)
    }
}

/// The bytes of one node, before `rest`.
pub open spec fn node_bytes(p: SnapshotNodeView, rest: Seq<u8>) -> Seq<u8> {
    be_bytes(p.node_id as nat, 2) + (
    be_bytes(p.state as nat, 1) + (
    be_bytes(p.epoch as nat, 4) + (
    block_bytes(encode_utf8(p.data_addr), block_bytes(encode_utf8(p.control_addr), rest)))))
}

/// The node at the front of `s`.
#[verifier::opaque]
pub open spec fn take_node(s: Seq<u8>) -> Parsed<SnapshotNodeView> {
    if s.len() < 7 {
        Err(short_input())
    } else {
        match take_text(s.skip(7), "invalid data_addr: "@) {
            Err(e) => Err(e),
            Ok((data_addr, s1)) => match take_text(s1, "invalid control_addr: "@) {
                Err(e) => Err(e),
                Ok((control_addr, s2)) => Ok(
                    (
                        SnapshotNodeView {
                            node_id: uint_at(s, 0, 2) as u16,
                            state: uint_at(s, 2, 1) as u8,
                            epoch: uint_at(s, 3, 4) as u32,
                            data_addr,
                            control_addr,
                        },
                        s2,
                    ),
                ),
            },
        }
    }
}

/// Decoding gives back what was encoded, whatever follows it. Each number
/// stands at its own place, high-order byte first.
pub proof fn lemma_node_round_trip(p: SnapshotNodeView, rest: Seq<u8>)
    requires
        encode_utf8(p.data_addr).len() < 0x1_0000_0000,
        encode_utf8(p.control_addr).len() < 0x1_0000_0000,
    ensures
        take_node(node_bytes(p, rest)) == parsed(p, rest),
        uint_at(node_bytes(p, rest), 0, 2) == p.node_id,
        uint_at(node_bytes(p, rest), 2, 1) == p.state,
        uint_at(node_bytes(p, rest), 3, 4) == p.epoch,
{
    let r5 = rest;
    let r4 = block_bytes(encode_utf8(p.control_addr), r5);
    let r3 = block_bytes(encode_utf8(p.data_addr), r4);
    let r2 = be_bytes(p.epoch as nat, 4) + r3;
    let r1 = be_bytes(p.state as nat, 1) + r2;
    let r0 = be_bytes(p.node_id as nat, 2) + r1;
    lemma_pow256_values();
    assert(r0.skip(0) =~= r0);
    lemma_uint_at(r0, 0, p.node_id as nat, 2, r1);
    lemma_uint_at(r0, 2, p.state as nat, 1, r2);
    lemma_uint_at(r0, 3, p.epoch as nat, 4, r3);
    lemma_take_text(p.data_addr, "invalid data_addr: "@, r4);
    lemma_take_text(p.control_addr, "invalid control_addr: "@, r5);
    reveal(take_node);
}

/// The bytes of the nodes from the `i`th on, before `rest`.
pub open spec fn nodes_bytes(nodes: Seq<SnapshotNodeView>, i: int, rest: Seq<u8>) -> Seq<u8>
    decreases nodes.len() - i,
{
    if i < 0 || i >= nodes.len() {
        rest
    } else {
        node_bytes(nodes[i], nodes_bytes(nodes, i + 1, rest))
    }
}

/// The bytes of the payload, before `rest`.
pub open spec fn member_snapshot_bytes(nodes: Seq<SnapshotNodeView>, rest: Seq<u8>) -> Seq<u8> {
    be_bytes(nodes.len(), 4) + nodes_bytes(nodes, 0, rest)
}

/// `n` nodes at the front of `s`, after those in `acc`.
pub open spec fn take_nodes(n: nat, s: Seq<u8>, acc: Seq<SnapshotNodeView>) -> Parsed<
    Seq<SnapshotNodeView>,
>
    decreases n,
{
    if n == 0 {
        Ok((acc, s))
    } else {
        match take_node(s) {
            Err(e) => Err(e),
            Ok((x, s1)) => take_nodes((n - 1) as nat, s1, acc.push(x)),
        }
    }
}

/// The payload at the front of `s`.
pub open spec fn take_member_snapshot(s: Seq<u8>) -> Parsed<Seq<SnapshotNodeView>> {
    if s.len() < 4 {
        Err(short_input())
    } else {
        take_nodes(uint_at(s, 0, 4), s.skip(4), Seq::empty())
    }
}

/// Whether the node's addresses have lengths that fit in 32 bits.
pub open spec fn node_fits(p: SnapshotNodeView) -> bool {
    encode_utf8(p.data_addr).len() < 0x1_0000_0000 && encode_utf8(p.control_addr).len()
        < 0x1_0000_0000
}

proof fn lemma_nodes(nodes: Seq<SnapshotNodeView>, i: int, rest: Seq<u8>)
    requires
        0 <= i <= nodes.len(),
        forall|k: int| 0 <= k < nodes.len() ==> node_fits(#[trigger] nodes[k]),
    ensures
        take_nodes((nodes.len() - i) as nat, nodes_bytes(nodes, i, rest), nodes.take(i))
            == parsed(nodes, rest),
    decreases nodes.len() - i,
{
    if i == nodes.len() {
        assert(nodes.take(i) =~= nodes);
    } else {
        lemma_node_round_trip(nodes[i], nodes_bytes(nodes, i + 1, rest));
        assert(nodes.take(i).push(nodes[i]) =~= nodes.take(i + 1));
        lemma_nodes(nodes, i + 1, rest);
    }
}

/// Decoding gives back what was encoded, whatever follows it.
pub proof fn lemma_member_snapshot_round_trip(nodes: Seq<SnapshotNodeView>, rest: Seq<u8>)
    requires
        nodes.len() < 0x1_0000_0000,
        forall|k: int| 0 <= k < nodes.len() ==> node_fits(#[trigger] nodes[k]),
    ensures
        take_member_snapshot(member_snapshot_bytes(nodes, rest)) == parsed(nodes, rest),
{
    lemma_pow256_values();
    let s = member_snapshot_bytes(nodes, rest);
    assert(s.skip(0) =~= s);
    lemma_uint_at(s, 0, nodes.len(), 4, nodes_bytes(nodes, 0, rest));
    lemma_nodes(nodes, 0, rest);
    assert(nodes.take(0) =~= Seq::empty());
}

proof fn lemma_nodes_append(nodes: Seq<SnapshotNodeView>, i: int, a: Seq<u8>, b: Seq<u8>)
    requires
        0 <= i <= nodes.len(),
    ensures
        nodes_bytes(nodes, i, a + b) == nodes_bytes(nodes, i, a) + b,
    decreases nodes.len() - i,
{
    broadcast use lemma_be_bytes_len;

    if i < nodes.len() {
        lemma_nodes_append(nodes, i + 1, a, b);
        let c = nodes_bytes(nodes, i + 1, a);
        assert(node_bytes(nodes[i], c + b) =~= node_bytes(nodes[i], c) + b);
    }
}

proof fn lemma_nodes_split(nodes: Seq<SnapshotNodeView>, k: int, i: int, rest: Seq<u8>)
    requires
        0 <= i <= k < nodes.len(),
    ensures
        nodes_bytes(nodes.take(k + 1), i, rest) == nodes_bytes(
            nodes.take(k),
            i,
            node_bytes(nodes[k], rest),
        ),
    decreases k - i,
{
    if i < k {
        lemma_nodes_split(nodes, k, i + 1, rest);
    } else {
        assert(nodes_bytes(nodes.take(k + 1), k + 1, rest) == rest);
    }
}

fn put_node(buf: &mut Vec<u8>, node: &SnapshotNodeInfo)
    ensures
        final(buf)@ == old(buf)@ + node_bytes(node@, Seq::empty()),
{
    broadcast use lemma_be_bytes_len;

    put_u16(buf, node.node_id);
    put_u8(buf, node.state);
    put_u32(buf, node.epoch);
    let data_addr_bytes = node.data_addr.as_str().as_bytes();
    put_len(buf, data_addr_bytes.len());
    put_slice(buf, data_addr_bytes);
    let control_addr_bytes = node.control_addr.as_str().as_bytes();
    put_len(buf, control_addr_bytes.len());
    put_slice(buf, control_addr_bytes);
    assert(buf@ =~= old(buf)@ + node_bytes(node@, Seq::empty()));
}

fn read_node(cur: &mut Reader) -> (r: Result<SnapshotNodeInfo, UbError>)
    requires
        old(cur).wf(),
    ensures
        final(cur).wf(),
        match r {
            Ok(v) => take_node(old(cur).rest()) == parsed(v@, final(cur).rest()),
            Err(e) => take_node(old(cur).rest()) matches Err(t) && e.is_internal(t),
        },
{
    broadcast use lemma_take_uint_at;

    reveal(take_node);
    let node_id = match cur.u16() {
        Ok(v) => v,
        Err(e) => return Err(e),
    };
    let state = match cur.u8() {
        Ok(v) => v,
        Err(e) => return Err(e),
    };
    let epoch = match cur.u32() {
        Ok(v) => v,
        Err(e) => return Err(e),
    };
    let data_addr = match cur.text("invalid data_addr: ") {
        Ok(v) => v,
        Err(e) => return Err(e),
    };
    let control_addr = match cur.text("invalid control_addr: ") {
        Ok(v) => v,
        Err(e) => return Err(e),
    };
    Ok(SnapshotNodeInfo { node_id, state, data_addr, control_addr, epoch })
}

impl MemberSnapshotPayload {
    pub fn encode(&self) -> (buf: Vec<u8>)
        ensures
            buf@ == member_snapshot_bytes(self@, Seq::empty()),
    {
        broadcast use lemma_be_bytes_len;

        let mut buf: Vec<u8> = Vec::new();
        put_len(&mut buf, self.nodes.len());
        let ghost all = self@;
        let ghost head = be_bytes(all.len(), 4);
        let mut i: usize = 0;
        proof {
            assert(buf@ =~= head + nodes_bytes(all.take(0), 0, Seq::empty()));
        }
        while i < self.nodes.len()
            invariant
                i <= self.nodes@.len(),
                all == self@,
                head == be_bytes(all.len(), 4),
                buf@ == head + nodes_bytes(all.take(i as int), 0, Seq::empty()),
            decreases self.nodes@.len() - i,
        {
            let node = &self.nodes[i];
            put_node(&mut buf, node);
            proof {
                assert(all[i as int] == node@);
                lemma_nodes_split(all, i as int, 0, Seq::empty());
                lemma_nodes_append(
                    all.take(i as int),
                    0,
                    Seq::empty(),
                    node_bytes(node@, Seq::empty()),
                );
                assert(Seq::<u8>::empty() + node_bytes(node@, Seq::empty()) =~= node_bytes(
                    node@,
                    Seq::empty(),
                ));
                assert(buf@ =~= head + nodes_bytes(all.take(i + 1), 0, Seq::empty()));
            }
            i = i + 1;
        }
        proof {
            assert(all.take(i as int) =~= all);
        }
        buf
    }

    pub fn decode(data: &[u8]) -> (r: Result<Self, UbError>)
        ensures
            match r {
                Ok(p) => take_member_snapshot(data@) matches Ok(x) && x.0 == p@,
                Err(e) => take_member_snapshot(data@) matches Err(t) && e.is_internal(t),
            },
    {
        let mut cur = Reader::new(data);
        let count: u32 = match cur.u32() {
            Ok(v) => v,
            Err(e) => return Err(e),
        };
        let mut nodes: Vec<SnapshotNodeInfo> = Vec::new();
        let mut i: u32 = 0;
        let ghost seen = Seq::<SnapshotNodeView>::empty();
        while i < count
            invariant
                i <= count,
                cur.wf(),
                seen.len() == nodes@.len(),
                forall|k: int| 0 <= k < seen.len() ==> seen[k] == (#[trigger] nodes@[k])@,
                take_member_snapshot(data@) == take_nodes((count - i) as nat, cur.rest(), seen),
            decreases count - i,
        {
            let node = match read_node(&mut cur) {
                Ok(v) => v,
                Err(e) => return Err(e),
            };
            proof {
                seen = seen.push(node@);
            }
            nodes.push(node);
            i = i + 1;
        }
        let r = MemberSnapshotPayload { nodes };
        assert(r@ =~= seen);
        Ok(r)
    }
}

/// One device profile of a DEVICE_PROFILE_PUBLISH message.
#[derive(Debug, Clone, Copy)]
pub struct DeviceProfileEntry {
    pub node_id: u16,
    pub device_id: u16,
    pub kind: DeviceKind,
    pub tier: StorageTier,
    pub capacity_bytes: u64,
    pub peak_read_bw_mbps: u32,
    pub peak_write_bw_mbps: u32,
    pub read_latency_ns_p50: u32,
    pub write_latency_ns_p50: u32,
    pub used_bytes: u64,
    pub recent_rps: u32,
}

/// The bytes of the payload, before `rest`.
#[verifier::opaque]
pub open spec fn profile_bytes(p: DeviceProfileEntry, rest: Seq<u8>) -> Seq<u8> {
    be_bytes(p.node_id as nat, 2) + (
    be_bytes(p.device_id as nat, 2) + (
    be_bytes(p.kind.code() as nat, 1) + (
    be_bytes(p.tier.code() as nat, 1) + (
    be_bytes(p.capacity_bytes as nat, 8) + (
    be_bytes(p.peak_read_bw_mbps as nat, 4) + (
    be_bytes(p.peak_write_bw_mbps as nat, 4) + (
    be_bytes(p.read_latency_ns_p50 as nat, 4) + (
    be_bytes(p.write_latency_ns_p50 as nat, 4) + (
    be_bytes(p.used_bytes as nat, 8) + (
    be_bytes(p.recent_rps as nat, 4) + rest))))))))))
}

/// The payload at the front of `s`.
#[verifier::opaque]
pub open spec fn take_profile(s: Seq<u8>) -> Parsed<DeviceProfileEntry> {
    if s.len() < 5 {
        Err(short_input())
    } else {
        match DeviceKind::of_code(uint_at(s, 4, 1) as u8) {
            None => Err("invalid device_kind: "@ + dec_text(uint_at(s, 4, 1))),
            Some(kind) => if s.len() < 6 {
                Err(short_input())
            } else {
                match StorageTier::of_code(uint_at(s, 5, 1) as u8) {
                    None => Err("invalid storage_tier: "@ + dec_text(uint_at(s, 5, 1))),
                    Some(tier) => if s.len() < 42 {
                        Err(short_input())
                    } else {
                        Ok(
                            (
                                DeviceProfileEntry {
                                    node_id: uint_at(s, 0, 2) as u16,
                                    device_id: uint_at(s, 2, 2) as u16,
                                    kind,
                                    tier,
                                    capacity_bytes: uint_at(s, 6, 8) as u64,
                                    peak_read_bw_mbps: uint_at(s, 14, 4) as u32,
                                    peak_write_bw_mbps: uint_at(s, 18, 4) as u32,
                                    read_latency_ns_p50: uint_at(s, 22, 4) as u32,
                                    write_latency_ns_p50: uint_at(s, 26, 4) as u32,
                                    used_bytes: uint_at(s, 30, 8) as u64,
                                    recent_rps: uint_at(s, 38, 4) as u32,
                                },
                                s.skip(42),
                            ),
                        )
                    },
                }
            },
        }
    }
}

/// Decoding gives back what was encoded, whatever follows it. Each number
/// stands at its own place, high-order byte first.
pub proof fn lemma_profile_round_trip(p: DeviceProfileEntry, rest: Seq<u8>)
    ensures
        take_profile(profile_bytes(p, rest)) == parsed(p, rest),
        uint_at(profile_bytes(p, rest), 0, 2) == p.node_id,
        uint_at(profile_bytes(p, rest), 2, 2) == p.device_id,
        uint_at(profile_bytes(p, rest), 4, 1) == p.kind.code(),
        uint_at(profile_bytes(p, rest), 5, 1) == p.tier.code(),
        uint_at(profile_bytes(p, rest), 6, 8) == p.capacity_bytes,
        uint_at(profile_bytes(p, rest), 14, 4) == p.peak_read_bw_mbps,
        uint_at(profile_bytes(p, rest), 18, 4) == p.peak_write_bw_mbps,
        uint_at(profile_bytes(p, rest), 22, 4) == p.read_latency_ns_p50,
        uint_at(profile_bytes(p, rest), 26, 4) == p.write_latency_ns_p50,
        uint_at(profile_bytes(p, rest), 30, 8) == p.used_bytes,
        uint_at(profile_bytes(p, rest), 38, 4) == p.recent_rps,
{
    reveal(profile_bytes);
    let r11 = rest;
    let r10 = be_bytes(p.recent_rps as nat, 4) + r11;
    let r9 = be_bytes(p.used_bytes as nat, 8) + r10;
    let r8 = be_bytes(p.write_latency_ns_p50 as nat, 4) + r9;
    let r7 = be_bytes(p.read_latency_ns_p50 as nat, 4) + r8;
    let r6 = be_bytes(p.peak_write_bw_mbps as nat, 4) + r7;
    let r5 = be_bytes(p.peak_read_bw_mbps as nat, 4) + r6;
    let r4 = be_bytes(p.capacity_bytes as nat, 8) + r5;
    let r3 = be_bytes(p.tier.code() as nat, 1) + r4;
    let r2 = be_bytes(p.kind.code() as nat, 1) + r3;
    let r1 = be_bytes(p.device_id as nat, 2) + r2;
    let r0 = be_bytes(p.node_id as nat, 2) + r1;
    lemma_pow256_values();
    assert(r0.skip(0) =~= r0);
    lemma_uint_at(r0, 0, p.node_id as nat, 2, r1);
    lemma_uint_at(r0, 2, p.device_id as nat, 2, r2);
    lemma_uint_at(r0, 4, p.kind.code() as nat, 1, r3);
    p.kind.lemma_code(0);
    lemma_uint_at(r0, 5, p.tier.code() as nat, 1, r4);
    p.tier.lemma_code(0);
    lemma_uint_at(r0, 6, p.capacity_bytes as nat, 8, r5);
    lemma_uint_at(r0, 14, p.peak_read_bw_mbps as nat, 4, r6);
    lemma_uint_at(r0, 18, p.peak_write_bw_mbps as nat, 4, r7);
    lemma_uint_at(r0, 22, p.read_latency_ns_p50 as nat, 4, r8);
    lemma_uint_at(r0, 26, p.write_latency_ns_p50 as nat, 4, r9);
    lemma_uint_at(r0, 30, p.used_bytes as nat, 8, r10);
    lemma_uint_at(r0, 38, p.recent_rps as nat, 4, r11);
    reveal(take_profile);
}

impl DeviceProfileEntry {
    pub fn encode(&self) -> (buf: Vec<u8>)
        ensures
            buf@ == profile_bytes(*self, Seq::empty()),
    {
        broadcast use lemma_be_bytes_len;

        reveal(profile_bytes);
        let mut buf: Vec<u8> = Vec::new();
        put_u16(&mut buf, self.node_id);
        put_u16(&mut buf, self.device_id);
        put_u8(&mut buf, self.kind.to_u8());
        put_u8(&mut buf, self.tier.to_u8());
        put_u64(&mut buf, self.capacity_bytes);
        put_u32(&mut buf, self.peak_read_bw_mbps);
        put_u32(&mut buf, self.peak_write_bw_mbps);
        put_u32(&mut buf, self.read_latency_ns_p50);
        put_u32(&mut buf, self.write_latency_ns_p50);
        put_u64(&mut buf, self.used_bytes);
        put_u32(&mut buf, self.recent_rps);
        assert(buf@ =~= profile_bytes(*self, Seq::empty()));
        buf
    }

    pub fn decode(data: &[u8]) -> (r: Result<Self, UbError>)
        ensures
            match r {
                Ok(p) => take_profile(data@) matches Ok(x) && x.0 == p,
                Err(e) => take_profile(data@) matches Err(t) && e.is_internal(t),
            },
    {
        broadcast use lemma_take_uint_at;

        reveal(take_profile);
        let mut cur = Reader::new(data);
        let node_id = match cur.u16() {
            Ok(v) => v,
            Err(e) => return Err(e),
        };
        let device_id = match cur.u16() {
            Ok(v) => v,
            Err(e) => return Err(e),
        };
        let kind_code = match cur.u8() {
            Ok(v) => v,
            Err(e) => return Err(e),
        };
        let kind = match DeviceKind::from_u8(kind_code) {
            Some(v) => v,
            None => return Err(
                UbError::Internal(with_dec("invalid device_kind: ", kind_code as u64)),
            ),
        };
        let tier_code = match cur.u8() {
            Ok(v) => v,
            Err(e) => return Err(e),
        };
        let tier = match StorageTier::from_u8(tier_code) {
            Some(v) => v,
            None => return Err(
                UbError::Internal(with_dec("invalid storage_tier: ", tier_code as u64)),
            ),
        };
        let capacity_bytes = match cur.u64() {
            Ok(v) => v,
            Err(e) => return Err(e),
        };
        let peak_read_bw_mbps = match cur.u32() {
            Ok(v) => v,
            Err(e) => return Err(e),
        };
        let peak_write_bw_mbps = match cur.u32() {
            Ok(v) => v,
            Err(e) => return Err(e),
        };
        let read_latency_ns_p50 = match cur.u32() {
            Ok(v) => v,
            Err(e) => return Err(e),
        };
        let write_latency_ns_p50 = match cur.u32() {
            Ok(v) => v,
            Err(e) => return Err(e),
        };
        let used_bytes = match cur.u64() {
            Ok(v) => v,
            Err(e) => return Err(e),
        };
        let recent_rps = match cur.u32() {
            Ok(v) => v,
            Err(e) => return Err(e),
        };
        Ok(
            DeviceProfileEntry {
                node_id,
                device_id,
                kind,
                tier,
                capacity_bytes,
                peak_read_bw_mbps,
                peak_write_bw_mbps,
                read_latency_ns_p50,
                write_latency_ns_p50,
                used_bytes,
                recent_rps,
            },
        )
    }
}

/// DEVICE_PROFILE_PUBLISH payload.
#[derive(Debug, Clone)]
pub struct DeviceProfilePublishPayload {
    pub entries: Vec<DeviceProfileEntry>,
}

/// The bytes of the entries from the `i`th on, each behind its length, before `rest`.
pub open spec fn profiles_bytes(entries: Seq<DeviceProfileEntry>, i: int, rest: Seq<u8>) -> Seq<u8>
    decreases entries.len() - i,
{
    if i < 0 || i >= entries.len() {
        rest
    } else {
        block_bytes(profile_bytes(entries[i], Seq::empty()), profiles_bytes(entries, i + 1, rest))
    }
}

/// The bytes of the payload, before `rest`.
pub open spec fn profile_publish_bytes(entries: Seq<DeviceProfileEntry>, rest: Seq<u8>) -> Seq<u8> {
    be_bytes(entries.len(), 4) + profiles_bytes(entries, 0, rest)
}

/// `n` entries at the front of `s`, after those in `acc`.
pub open spec fn take_profiles(n: nat, s: Seq<u8>, acc: Seq<DeviceProfileEntry>) -> Parsed<
    Seq<DeviceProfileEntry>,
>
    decreases n,
{
    if n == 0 {
        Ok((acc, s))
    } else {
        match take_block(s) {
            Err(e) => Err(e),
            Ok((b, s1)) => match take_profile(b) {
                Err(e) => Err(e),
                Ok((x, _left)) => take_profiles((n - 1) as nat, s1, acc.push(x)),
            },
        }
    }
}

/// The payload at the front of `s`.
pub open spec fn take_profile_publish(s: Seq<u8>) -> Parsed<Seq<DeviceProfileEntry>> {
    if s.len() < 4 {
        Err(short_input())
    } else {
        take_profiles(uint_at(s, 0, 4), s.skip(4), Seq::empty())
    }
}

proof fn lemma_profile_len(p: DeviceProfileEntry)
    ensures
        profile_bytes(p, Seq::empty()).len() == 42,
{
    broadcast use lemma_be_bytes_len;

    reveal(profile_bytes);
}

proof fn lemma_profiles(entries: Seq<DeviceProfileEntry>, i: int, rest: Seq<u8>)
    requires
        0 <= i <= entries.len(),
    ensures
        take_profiles((entries.len() - i) as nat, profiles_bytes(entries, i, rest), entries.take(i))
            == parsed(entries, rest),
    decreases entries.len() - i,
{
    if i == entries.len() {
        assert(entries.take(i) =~= entries);
    } else {
        lemma_profile_len(entries[i]);
        lemma_take_block(
            profile_bytes(entries[i], Seq::empty()),
            profiles_bytes(entries, i + 1, rest),
        );
        lemma_profile_round_trip(entries[i], Seq::empty());
        assert(entries.take(i).push(entries[i]) =~= entries.take(i + 1));
        lemma_profiles(entries, i + 1, rest);
    }
}

/// Decoding gives back what was encoded, whatever follows it.
pub proof fn lemma_profile_publish_round_trip(entries: Seq<DeviceProfileEntry>, rest: Seq<u8>)
    requires
        entries.len() < 0x1_0000_0000,
    ensures
        take_profile_publish(profile_publish_bytes(entries, rest)) == parsed(entries, rest),
{
    lemma_pow256_values();
    let s = profile_publish_bytes(entries, rest);
    assert(s.skip(0) =~= s);
    lemma_uint_at(s, 0, entries.len(), 4, profiles_bytes(entries, 0, rest));
    lemma_profiles(entries, 0, rest);
    assert(entries.take(0) =~= Seq::empty());
}

proof fn lemma_profiles_append(entries: Seq<DeviceProfileEntry>, i: int, a: Seq<u8>, b: Seq<u8>)
    requires
        0 <= i <= entries.len(),
    ensures
        profiles_bytes(entries, i, a + b) == profiles_bytes(entries, i, a) + b,
    decreases entries.len() - i,
{
    broadcast use lemma_be_bytes_len;

    if i < entries.len() {
        lemma_profiles_append(entries, i + 1, a, b);
        let c = profiles_bytes(entries, i + 1, a);
        let e = profile_bytes(entries[i], Seq::empty());
        assert(block_bytes(e, c + b) =~= block_bytes(e, c) + b);
    }
}

proof fn lemma_profiles_split(entries: Seq<DeviceProfileEntry>, k: int, i: int, rest: Seq<u8>)
    requires
        0 <= i <= k < entries.len(),
    ensures
        profiles_bytes(entries.take(k + 1), i, rest) == profiles_bytes(
            entries.take(k),
            i,
            block_bytes(profile_bytes(entries[k], Seq::empty()), rest),
        ),
    decreases k - i,
{
    if i < k {
        lemma_profiles_split(entries, k, i + 1, rest);
    } else {
        assert(profiles_bytes(entries.take(k + 1), k + 1, rest) == rest);
    }
}

impl DeviceProfilePublishPayload {
    pub fn encode(&self) -> (buf: Vec<u8>)
        ensures
            buf@ == profile_publish_bytes(self.entries@, Seq::empty()),
    {
        broadcast use lemma_be_bytes_len;

        let mut buf: Vec<u8> = Vec::new();
        put_len(&mut buf, self.entries.len());
        let ghost all = self.entries@;
        let ghost head = be_bytes(all.len(), 4);
        let mut i: usize = 0;
        proof {
            assert(buf@ =~= head + profiles_bytes(all.take(0), 0, Seq::empty()));
        }
        while i < self.entries.len()
            invariant
                i <= self.entries@.len(),
                all == self.entries@,
                head == be_bytes(all.len(), 4),
                buf@ == head + profiles_bytes(all.take(i as int), 0, Seq::empty()),
            decreases self.entries@.len() - i,
        {
            let ghost before = buf@;
            let entry = self.entries[i].encode();
            put_len(&mut buf, entry.len());
            put_slice(&mut buf, entry.as_slice());
            proof {
                let block = block_bytes(entry@, Seq::empty());
                assert(buf@ =~= before + block);
                lemma_profiles_split(all, i as int, 0, Seq::empty());
                lemma_profiles_append(all.take(i as int), 0, Seq::empty(), block);
                assert(Seq::<u8>::empty() + block =~= block);
                assert(buf@ =~= head + profiles_bytes(all.take(i + 1), 0, Seq::empty()));
            }
            i = i + 1;
        }
        proof {
            assert(all.take(i as int) =~= all);
        }
        buf
    }

    pub fn decode(data: &[u8]) -> (r: Result<Self, UbError>)
        ensures
            match r {
                Ok(p) => take_profile_publish(data@) matches Ok(x) && x.0 == p.entries@,
                Err(e) => take_profile_publish(data@) matches Err(t) && e.is_internal(t),
            },
    {
        let mut cur = Reader::new(data);
        let count: u32 = match cur.u32() {
            Ok(v) => v,
            Err(e) => return Err(e),
        };
        let mut entries: Vec<DeviceProfileEntry> = Vec::new();
        let mut i: u32 = 0;
        while i < count
            invariant
                i <= count,
                cur.wf(),
                take_profile_publish(data@) == take_profiles(
                    (count - i) as nat,
                    cur.rest(),
                    entries@,
                ),
            decreases count - i,
        {
            let block = match cur.block() {
                Ok(v) => v,
                Err(e) => return Err(e),
            };
            let entry = match DeviceProfileEntry::decode(block.as_slice()) {
                Ok(v) => v,
                Err(e) => return Err(e),
            };
            entries.push(entry);
            i = i + 1;
        }
        Ok(DeviceProfilePublishPayload { entries })
    }
}

/// ALLOC_REQ payload: requester to placer.
#[derive(Debug, Clone, Copy)]
pub struct AllocReqPayload {
    pub region_id: u64,
    pub size: u64,
    pub access: AccessPattern,
    pub latency_class: LatencyClass,
    pub capacity_class: CapacityClass,
    /// 0 for no pin, 1 for memory, 2 for NPU.
    pub pin_kind: u8,
    pub expected_readers: u32,
    pub requester_node_id: u16,
}

/// The bytes of the payload, before `rest`.
#[verifier::opaque]
pub open spec fn alloc_req_bytes(p: AllocReqPayload, rest: Seq<u8>) -> Seq<u8> {
    be_bytes(p.region_id as nat, 8) + (
    be_bytes(p.size as nat, 8) + (
    be_bytes(p.access.code() as nat, 1) + (
    be_bytes(p.latency_class.code() as nat, 1) + (
    be_bytes(p.capacity_class.code() as nat, 1) + (
    be_bytes(p.pin_kind as nat, 1) + (
    be_bytes(p.expected_readers as nat, 4) + (
    be_bytes(p.requester_node_id as nat, 2) + rest)))))))
}

/// The payload at the front of `s`.
#[verifier::opaque]
pub open spec fn take_alloc_req(s: Seq<u8>) -> Parsed<AllocReqPayload> {
    if s.len() < 17 {
        Err(short_input())
    } else {
        match AccessPattern::of_code(uint_at(s, 16, 1) as u8) {
            None => Err("invalid access_pattern: "@ + dec_text(uint_at(s, 16, 1))),
            Some(access) => if s.len() < 18 {
                Err(short_input())
            } else {
                match LatencyClass::of_code(uint_at(s, 17, 1) as u8) {
                    None => Err("invalid latency_class: "@ + dec_text(uint_at(s, 17, 1))),
                    Some(latency_class) => if s.len() < 19 {
                        Err(short_input())
                    } else {
                        match CapacityClass::of_code(uint_at(s, 18, 1) as u8) {
                            None => Err("invalid capacity_class: "@ + dec_text(uint_at(s, 18, 1))),
                            Some(capacity_class) => if s.len() < 26 {
                                Err(short_input())
                            } else {
                                Ok(
                                    (
                                        AllocReqPayload {
                                            region_id: uint_at(s, 0, 8) as u64,
                                            size: uint_at(s, 8, 8) as u64,
                                            access,
                                            latency_class,
                                            capacity_class,
                                            pin_kind: uint_at(s, 19, 1) as u8,
                                            expected_readers: uint_at(s, 20, 4) as u32,
                                            requester_node_id: uint_at(s, 24, 2) as u16,
                                        },
                                        s.skip(26),
                                    ),
                                )
                            },
                        }
                    },
                }
            },
        }
    }
}

/// Decoding gives back what was encoded, whatever follows it. Each number
/// stands at its own place, high-order byte first.
pub proof fn lemma_alloc_req_round_trip(p: AllocReqPayload, rest: Seq<u8>)
    ensures
        take_alloc_req(alloc_req_bytes(p, rest)) == parsed(p, rest),
        uint_at(alloc_req_bytes(p, rest), 0, 8) == p.region_id,
        uint_at(alloc_req_bytes(p, rest), 8, 8) == p.size,
        uint_at(alloc_req_bytes(p, rest), 16, 1) == p.access.code(),
        uint_at(alloc_req_bytes(p, rest), 17, 1) == p.latency_class.code(),
        uint_at(alloc_req_bytes(p, rest), 18, 1) == p.capacity_class.code(),
        uint_at(alloc_req_bytes(p, rest), 19, 1) == p.pin_kind,
        uint_at(alloc_req_bytes(p, rest), 20, 4) == p.expected_readers,
        uint_at(alloc_req_bytes(p, rest), 24, 2) == p.requester_node_id,
{
    reveal(alloc_req_bytes);
    let r8 = rest;
    let r7 = be_bytes(p.requester_node_id as nat, 2) + r8;
    let r6 = be_bytes(p.expected_readers as nat, 4) + r7;
    let r5 = be_bytes(p.pin_kind as nat, 1) + r6;
    let r4 = be_bytes(p.capacity_class.code() as nat, 1) + r5;
    let r3 = be_bytes(p.latency_class.code() as nat, 1) + r4;
    let r2 = be_bytes(p.access.code() as nat, 1) + r3;
    let r1 = be_bytes(p.size as nat, 8) + r2;
    let r0 = be_bytes(p.region_id as nat, 8) + r1;
    lemma_pow256_values();
    assert(r0.skip(0) =~= r0);
    lemma_uint_at(r0, 0, p.region_id as nat, 8, r1);
    lemma_uint_at(r0, 8, p.size as nat, 8, r2);
    lemma_uint_at(r0, 16, p.access.code() as nat, 1, r3);
    p.access.lemma_code(0);
    lemma_uint_at(r0, 17, p.latency_class.code() as nat, 1, r4);
    p.latency_class.lemma_code(0);
    lemma_uint_at(r0, 18, p.capacity_class.code() as nat, 1, r5);
    p.capacity_class.lemma_code(0);
    lemma_uint_at(r0, 19, p.pin_kind as nat, 1, r6);
    lemma_uint_at(r0, 20, p.expected_readers as nat, 4, r7);
    lemma_uint_at(r0, 24, p.requester_node_id as nat, 2, r8);
    reveal(take_alloc_req);
}

impl AllocReqPayload {
    pub fn encode(&self) -> (buf: Vec<u8>)
        ensures
            buf@ == alloc_req_bytes(*self, Seq::empty()),
    {
        broadcast use lemma_be_bytes_len;

        reveal(alloc_req_bytes);
        let mut buf: Vec<u8> = Vec::new();
        put_u64(&mut buf, self.region_id);
        put_u64(&mut buf, self.size);
        put_u8(&mut buf, self.access.to_u8());
        put_u8(&mut buf, self.latency_class.to_u8());
        put_u8(&mut buf, self.capacity_class.to_u8());
        put_u8(&mut buf, self.pin_kind);
        put_u32(&mut buf, self.expected_readers);
        put_u16(&mut buf, self.requester_node_id);
        assert(buf@ =~= alloc_req_bytes(*self, Seq::empty()));
        buf
    }

    pub fn decode(data: &[u8]) -> (r: Result<Self, UbError>)
        ensures
            match r {
                Ok(p) => take_alloc_req(data@) matches Ok(x) && x.0 == p,
                Err(e) => take_alloc_req(data@) matches Err(t) && e.is_internal(t),
            },
    {
        broadcast use lemma_take_uint_at;

        reveal(take_alloc_req);
        let mut cur = Reader::new(data);
        let region_id = match cur.u64() {
            Ok(v) => v,
            Err(e) => return Err(e),
        };
        let size = match cur.u64() {
            Ok(v) => v,
            Err(e) => return Err(e),
        };
        let access_code = match cur.u8() {
            Ok(v) => v,
            Err(e) => return Err(e),
        };
        let access = match AccessPattern::from_u8(access_code) {
            Some(v) => v,
            None => return Err(
                UbError::Internal(with_dec("invalid access_pattern: ", access_code as u64)),
            ),
        };
        let latency_class_code = match cur.u8() {
            Ok(v) => v,
            Err(e) => return Err(e),
        };
        let latency_class = match LatencyClass::from_u8(latency_class_code) {
            Some(v) => v,
            None => return Err(
                UbError::Internal(with_dec("invalid latency_class: ", latency_class_code as u64)),
            ),
        };
        let capacity_class_code = match cur.u8() {
            Ok(v) => v,
            Err(e) => return Err(e),
        };
        let capacity_class = match CapacityClass::from_u8(capacity_class_code) {
            Some(v) => v,
            None => return Err(
                UbError::Internal(with_dec("invalid capacity_class: ", capacity_class_code as u64)),
            ),
        };
        let pin_kind = match cur.u8() {
            Ok(v) => v,
            Err(e) => return Err(e),
        };
        let expected_readers = match cur.u32() {
            Ok(v) => v,
            Err(e) => return Err(e),
        };
        let requester_node_id = match cur.u16() {
            Ok(v) => v,
            Err(e) => return Err(e),
        };
        Ok(
            AllocReqPayload {
                region_id,
                size,
                access,
                latency_class,
                capacity_class,
                pin_kind,
                expected_readers,
                requester_node_id,
            },
        )
    }
}

/// ALLOC_RESP payload: placer to requester.
#[derive(Debug, Clone, Copy)]
pub struct AllocRespPayload {
    pub region_id: u64,
    /// The virtual address, as a number.
    pub ub_va: u128,
    pub home_node_id: u16,
    pub device_id: u16,
    pub mr_handle: u32,
    pub base_offset: u64,
    pub error_code: u32,
}

/// The bytes of the payload, before `rest`.
#[verifier::opaque]
pub open spec fn alloc_resp_bytes(p: AllocRespPayload, rest: Seq<u8>) -> Seq<u8> {
    be_bytes(p.region_id as nat, 8) + (
    be_bytes(p.ub_va as nat, 16) + (
    be_bytes(p.home_node_id as nat, 2) + (
    be_bytes(p.device_id as nat, 2) + (
    be_bytes(p.mr_handle as nat, 4) + (
    be_bytes(p.base_offset as nat, 8) + (
    be_bytes(p.error_code as nat, 4) + rest))))))
}

/// The payload at the front of `s`.
#[verifier::opaque]
pub open spec fn take_alloc_resp(s: Seq<u8>) -> Parsed<AllocRespPayload> {
    if s.len() < 44 {
        Err(short_input())
    } else {
        Ok(
            (
                AllocRespPayload {
                    region_id: uint_at(s, 0, 8) as u64,
                    ub_va: uint_at(s, 8, 16) as u128,
                    home_node_id: uint_at(s, 24, 2) as u16,
                    device_id: uint_at(s, 26, 2) as u16,
                    mr_handle: uint_at(s, 28, 4) as u32,
                    base_offset: uint_at(s, 32, 8) as u64,
                    error_code: uint_at(s, 40, 4) as u32,
                },
                s.skip(44),
            ),
        )
    }
}

/// Decoding gives back what was encoded, whatever follows it. Each number
/// stands at its own place, high-order byte first.
pub proof fn lemma_alloc_resp_round_trip(p: AllocRespPayload, rest: Seq<u8>)
    ensures
        take_alloc_resp(alloc_resp_bytes(p, rest)) == parsed(p, rest),
        uint_at(alloc_resp_bytes(p, rest), 0, 8) == p.region_id,
        uint_at(alloc_resp_bytes(p, rest), 8, 16) == p.ub_va,
        uint_at(alloc_resp_bytes(p, rest), 24, 2) == p.home_node_id,
        uint_at(alloc_resp_bytes(p, rest), 26, 2) == p.device_id,
        uint_at(alloc_resp_bytes(p, rest), 28, 4) == p.mr_handle,
        uint_at(alloc_resp_bytes(p, rest), 32, 8) == p.base_offset,
        uint_at(alloc_resp_bytes(p, rest), 40, 4) == p.error_code,
{
    reveal(alloc_resp_bytes);
    let r7 = rest;
    let r6 = be_bytes(p.error_code as nat, 4) + r7;
    let r5 = be_bytes(p.base_offset as nat, 8) + r6;
    let r4 = be_bytes(p.mr_handle as nat, 4) + r5;
    let r3 = be_bytes(p.device_id as nat, 2) + r4;
    let r2 = be_bytes(p.home_node_id as nat, 2) + r3;
    let r1 = be_bytes(p.ub_va as nat, 16) + r2;
    let r0 = be_bytes(p.region_id as nat, 8) + r1;
    lemma_pow256_values();
    assert(r0.skip(0) =~= r0);
    lemma_uint_at(r0, 0, p.region_id as nat, 8, r1);
    lemma_uint_at(r0, 8, p.ub_va as nat, 16, r2);
    lemma_uint_at(r0, 24, p.home_node_id as nat, 2, r3);
    lemma_uint_at(r0, 26, p.device_id as nat, 2, r4);
    lemma_uint_at(r0, 28, p.mr_handle as nat, 4, r5);
    lemma_uint_at(r0, 32, p.base_offset as nat, 8, r6);
    lemma_uint_at(r0, 40, p.error_code as nat, 4, r7);
    reveal(take_alloc_resp);
}

impl AllocRespPayload {
    pub fn encode(&self) -> (buf: Vec<u8>)
        ensures
            buf@ == alloc_resp_bytes(*self, Seq::empty()),
    {
        broadcast use lemma_be_bytes_len;

        reveal(alloc_resp_bytes);
        let mut buf: Vec<u8> = Vec::new();
        put_u64(&mut buf, self.region_id);
        put_u128(&mut buf, self.ub_va);
        put_u16(&mut buf, self.home_node_id);
        put_u16(&mut buf, self.device_id);
        put_u32(&mut buf, self.mr_handle);
        put_u64(&mut buf, self.base_offset);
        put_u32(&mut buf, self.error_code);
        assert(buf@ =~= alloc_resp_bytes(*self, Seq::empty()));
        buf
    }

    pub fn decode(data: &[u8]) -> (r: Result<Self, UbError>)
        ensures
            match r {
                Ok(p) => take_alloc_resp(data@) matches Ok(x) && x.0 == p,
                Err(e) => take_alloc_resp(data@) matches Err(t) && e.is_internal(t),
            },
    {
        broadcast use lemma_take_uint_at;

        reveal(take_alloc_resp);
        let mut cur = Reader::new(data);
        let region_id = match cur.u64() {
            Ok(v) => v,
            Err(e) => return Err(e),
        };
        let ub_va = match cur.u128() {
            Ok(v) => v,
            Err(e) => return Err(e),
        };
        let home_node_id = match cur.u16() {
            Ok(v) => v,
            Err(e) => return Err(e),
        };
        let device_id = match cur.u16() {
            Ok(v) => v,
            Err(e) => return Err(e),
        };
        let mr_handle = match cur.u32() {
            Ok(v) => v,
            Err(e) => return Err(e),
        };
        let base_offset = match cur.u64() {
            Ok(v) => v,
            Err(e) => return Err(e),
        };
        let error_code = match cur.u32() {
            Ok(v) => v,
            Err(e) => return Err(e),
        };
        Ok(
            AllocRespPayload {
                region_id,
                ub_va,
                home_node_id,
                device_id,
                mr_handle,
                base_offset,
                error_code,
            },
        )
    }
}

/// REGION_CREATE payload: placer to home node.
#[derive(Debug, Clone, Copy)]
pub struct RegionCreatePayload {
    pub region_id: u64,
    pub size: u64,
    pub device_kind: DeviceKind,
}

/// The bytes of the payload, before `rest`.
#[verifier::opaque]
pub open spec fn region_create_bytes(p: RegionCreatePayload, rest: Seq<u8>) -> Seq<u8> {
    be_bytes(p.region_id as nat, 8) + (
    be_bytes(p.size as nat, 8) + (
    be_bytes(p.device_kind.code() as nat, 1) + rest))
}

/// The payload at the front of `s`.
#[verifier::opaque]
pub open spec fn take_region_create(s: Seq<u8>) -> Parsed<RegionCreatePayload> {
    if s.len() < 17 {
        Err(short_input())
    } else {
        match DeviceKind::of_code(uint_at(s, 16, 1) as u8) {
            None => Err("invalid device_kind: "@ + dec_text(uint_at(s, 16, 1))),
            Some(device_kind) => Ok(
                (
                    RegionCreatePayload {
                        region_id: uint_at(s, 0, 8) as u64,
                        size: uint_at(s, 8, 8) as u64,
                        device_kind,
                    },
                    s.skip(17),
                ),
            ),
        }
    }
}

/// Decoding gives back what was encoded, whatever follows it. Each number
/// stands at its own place, high-order byte first.
pub proof fn lemma_region_create_round_trip(p: RegionCreatePayload, rest: Seq<u8>)
    ensures
        take_region_create(region_create_bytes(p, rest)) == parsed(p, rest),
        uint_at(region_create_bytes(p, rest), 0, 8) == p.region_id,
        uint_at(region_create_bytes(p, rest), 8, 8) == p.size,
        uint_at(region_create_bytes(p, rest), 16, 1) == p.device_kind.code(),
{
    reveal(region_create_bytes);
    let r3 = rest;
    let r2 = be_bytes(p.device_kind.code() as nat, 1) + r3;
    let r1 = be_bytes(p.size as nat, 8) + r2;
    let r0 = be_bytes(p.region_id as nat, 8) + r1;
    lemma_pow256_values();
    assert(r0.skip(0) =~= r0);
    lemma_uint_at(r0, 0, p.region_id as nat, 8, r1);
    lemma_uint_at(r0, 8, p.size as nat, 8, r2);
    lemma_uint_at(r0, 16, p.device_kind.code() as nat, 1, r3);
    p.device_kind.lemma_code(0);
    reveal(take_region_create);
}

impl RegionCreatePayload {
    pub fn encode(&self) -> (buf: Vec<u8>)
        ensures
            buf@ == region_create_bytes(*self, Seq::empty()),
    {
        broadcast use lemma_be_bytes_len;

        reveal(region_create_bytes);
        let mut buf: Vec<u8> = Vec::new();
        put_u64(&mut buf, self.region_id);
        put_u64(&mut buf, self.size);
        put_u8(&mut buf, self.device_kind.to_u8());
        assert(buf@ =~= region_create_bytes(*self, Seq::empty()));
        buf
    }

    pub fn decode(data: &[u8]) -> (r: Result<Self, UbError>)
        ensures
            match r {
                Ok(p) => take_region_create(data@) matches Ok(x) && x.0 == p,
                Err(e) => take_region_create(data@) matches Err(t) && e.is_internal(t),
            },
    {
        broadcast use lemma_take_uint_at;

        reveal(take_region_create);
        let mut cur = Reader::new(data);
        let region_id = match cur.u64() {
            Ok(v) => v,
            Err(e) => return Err(e),
        };
        let size = match cur.u64() {
            Ok(v) => v,
            Err(e) => return Err(e),
        };
        let device_kind_code = match cur.u8() {
            Ok(v) => v,
            Err(e) => return Err(e),
        };
        let device_kind = match DeviceKind::from_u8(device_kind_code) {
            Some(v) => v,
            None => return Err(
                UbError::Internal(with_dec("invalid device_kind: ", device_kind_code as u64)),
            ),
        };
        Ok(RegionCreatePayload { region_id, size, device_kind })
    }
}

/// REGION_CREATE_OK payload: home node to placer.
#[derive(Debug, Clone, Copy)]
pub struct RegionCreateOkPayload {
    pub region_id: u64,
    pub mr_handle: u32,
    pub base_offset: u64,
    pub device_id: u16,
}

/// The bytes of the payload, before `rest`.
#[verifier::opaque]
pub open spec fn region_create_ok_bytes(p: RegionCreateOkPayload, rest: Seq<u8>) -> Seq<u8> {
    be_bytes(p.region_id as nat, 8) + (
    be_bytes(p.mr_handle as nat, 4) + (
    be_bytes(p.base_offset as nat, 8) + (
    be_bytes(p.device_id as nat, 2) + rest)))
}

/// The payload at the front of `s`.
#[verifier::opaque]
pub open spec fn take_region_create_ok(s: Seq<u8>) -> Parsed<RegionCreateOkPayload> {
    if s.len() < 22 {
        Err(short_input())
    } else {
        Ok(
            (
                RegionCreateOkPayload {
                    region_id: uint_at(s, 0, 8) as u64,
                    mr_handle: uint_at(s, 8, 4) as u32,
                    base_offset: uint_at(s, 12, 8) as u64,
                    device_id: uint_at(s, 20, 2) as u16,
                },
                s.skip(22),
            ),
        )
    }
}

/// Decoding gives back what was encoded, whatever follows it. Each number
/// stands at its own place, high-order byte first.
pub proof fn lemma_region_create_ok_round_trip(p: RegionCreateOkPayload, rest: Seq<u8>)
    ensures
        take_region_create_ok(region_create_ok_bytes(p, rest)) == parsed(p, rest),
        uint_at(region_create_ok_bytes(p, rest), 0, 8) == p.region_id,
        uint_at(region_create_ok_bytes(p, rest), 8, 4) == p.mr_handle,
        uint_at(region_create_ok_bytes(p, rest), 12, 8) == p.base_offset,
        uint_at(region_create_ok_bytes(p, rest), 20, 2) == p.device_id,
{
    reveal(region_create_ok_bytes);
    let r4 = rest;
    let r3 = be_bytes(p.device_id as nat, 2) + r4;
    let r2 = be_bytes(p.base_offset as nat, 8) + r3;
    let r1 = be_bytes(p.mr_handle as nat, 4) + r2;
    let r0 = be_bytes(p.region_id as nat, 8) + r1;
    lemma_pow256_values();
    assert(r0.skip(0) =~= r0);
    lemma_uint_at(r0, 0, p.region_id as nat, 8, r1);
    lemma_uint_at(r0, 8, p.mr_handle as nat, 4, r2);
    lemma_uint_at(r0, 12, p.base_offset as nat, 8, r3);
    lemma_uint_at(r0, 20, p.device_id as nat, 2, r4);
    reveal(take_region_create_ok);
}

impl RegionCreateOkPayload {
    pub fn encode(&self) -> (buf: Vec<u8>)
        ensures
            buf@ == region_create_ok_bytes(*self, Seq::empty()),
    {
        broadcast use lemma_be_bytes_len;

        reveal(region_create_ok_bytes);
        let mut buf: Vec<u8> = Vec::new();
        put_u64(&mut buf, self.region_id);
        put_u32(&mut buf, self.mr_handle);
        put_u64(&mut buf, self.base_offset);
        put_u16(&mut buf, self.device_id);
        assert(buf@ =~= region_create_ok_bytes(*self, Seq::empty()));
        buf
    }

    pub fn decode(data: &[u8]) -> (r: Result<Self, UbError>)
        ensures
            match r {
                Ok(p) => take_region_create_ok(data@) matches Ok(x) && x.0 == p,
                Err(e) => take_region_create_ok(data@) matches Err(t) && e.is_internal(t),
            },
    {
        broadcast use lemma_take_uint_at;

        reveal(take_region_create_ok);
        let mut cur = Reader::new(data);
        let region_id = match cur.u64() {
            Ok(v) => v,
            Err(e) => return Err(e),
        };
        let mr_handle = match cur.u32() {
            Ok(v) => v,
            Err(e) => return Err(e),
        };
        let base_offset = match cur.u64() {
            Ok(v) => v,
            Err(e) => return Err(e),
        };
        let device_id = match cur.u16() {
            Ok(v) => v,
            Err(e) => return Err(e),
        };
        Ok(RegionCreateOkPayload { region_id, mr_handle, base_offset, device_id })
    }
}

/// REGION_DELETE payload: placer to home node.
#[derive(Debug, Clone, Copy)]
pub struct RegionDeletePayload {
    pub region_id: u64,
}

/// The bytes of the payload, before `rest`.
#[verifier::opaque]
pub open spec fn region_delete_bytes(p: RegionDeletePayload, rest: Seq<u8>) -> Seq<u8> {
    be_bytes(p.region_id as nat, 8) + (rest)
}

/// The payload at the front of `s`.
#[verifier::opaque]
pub open spec fn take_region_delete(s: Seq<u8>) -> Parsed<RegionDeletePayload> {
    if s.len() < 8 {
        Err(short_input())
    } else {
        Ok((RegionDeletePayload { region_id: uint_at(s, 0, 8) as u64 }, s.skip(8)))
    }
}

/// Decoding gives back what was encoded, whatever follows it. Each number
/// stands at its own place, high-order byte first.
pub proof fn lemma_region_delete_round_trip(p: RegionDeletePayload, rest: Seq<u8>)
    ensures
        take_region_delete(region_delete_bytes(p, rest)) == parsed(p, rest),
        uint_at(region_delete_bytes(p, rest), 0, 8) == p.region_id,
{
    reveal(region_delete_bytes);
    let r1 = rest;
    let r0 = be_bytes(p.region_id as nat, 8) + r1;
    lemma_pow256_values();
    assert(r0.skip(0) =~= r0);
    lemma_uint_at(r0, 0, p.region_id as nat, 8, r1);
    reveal(take_region_delete);
}

impl RegionDeletePayload {
    pub fn encode(&self) -> (buf: Vec<u8>)
        ensures
            buf@ == region_delete_bytes(*self, Seq::empty()),
    {
        broadcast use lemma_be_bytes_len;

        reveal(region_delete_bytes);
        let mut buf: Vec<u8> = Vec::new();
        put_u64(&mut buf, self.region_id);
        assert(buf@ =~= region_delete_bytes(*self, Seq::empty()));
        buf
    }

    pub fn decode(data: &[u8]) -> (r: Result<Self, UbError>)
        ensures
            match r {
                Ok(p) => take_region_delete(data@) matches Ok(x) && x.0 == p,
                Err(e) => take_region_delete(data@) matches Err(t) && e.is_internal(t),
            },
    {
        broadcast use lemma_take_uint_at;

        reveal(take_region_delete);
        let mut cur = Reader::new(data);
        let region_id = match cur.u64() {
            Ok(v) => v,
            Err(e) => return Err(e),
        };
        Ok(RegionDeletePayload { region_id })
    }
}

/// FETCH payload: reader to home node.
#[derive(Debug, Clone, Copy)]
pub struct FetchPayload {
    pub region_id: u64,
    pub offset: u64,
    pub len: u32,
    pub requester_node_id: u16,
}

/// The bytes of the payload, before `rest`.
#[verifier::opaque]
pub open spec fn fetch_bytes(p: FetchPayload, rest: Seq<u8>) -> Seq<u8> {
    be_bytes(p.region_id as nat, 8) + (
    be_bytes(p.offset as nat, 8) + (
    be_bytes(p.len as nat, 4) + (
    be_bytes(p.requester_node_id as nat, 2) + rest)))
}

/// The payload at the front of `s`.
#[verifier::opaque]
pub open spec fn take_fetch(s: Seq<u8>) -> Parsed<FetchPayload> {
    if s.len() < 22 {
        Err(short_input())
    } else {
        Ok(
            (
                FetchPayload {
                    region_id: uint_at(s, 0, 8) as u64,
                    offset: uint_at(s, 8, 8) as u64,
                    len: uint_at(s, 16, 4) as u32,
                    requester_node_id: uint_at(s, 20, 2) as u16,
                },
                s.skip(22),
            ),
        )
    }
}

/// Decoding gives back what was encoded, whatever follows it. Each number
/// stands at its own place, high-order byte first.
pub proof fn lemma_fetch_round_trip(p: FetchPayload, rest: Seq<u8>)
    ensures
        take_fetch(fetch_bytes(p, rest)) == parsed(p, rest),
        uint_at(fetch_bytes(p, rest), 0, 8) == p.region_id,
        uint_at(fetch_bytes(p, rest), 8, 8) == p.offset,
        uint_at(fetch_bytes(p, rest), 16, 4) == p.len,
        uint_at(fetch_bytes(p, rest), 20, 2) == p.requester_node_id,
{
    reveal(fetch_bytes);
    let r4 = rest;
    let r3 = be_bytes(p.requester_node_id as nat, 2) + r4;
    let r2 = be_bytes(p.len as nat, 4) + r3;
    let r1 = be_bytes(p.offset as nat, 8) + r2;
    let r0 = be_bytes(p.region_id as nat, 8) + r1;
    lemma_pow256_values();
    assert(r0.skip(0) =~= r0);
    lemma_uint_at(r0, 0, p.region_id as nat, 8, r1);
    lemma_uint_at(r0, 8, p.offset as nat, 8, r2);
    lemma_uint_at(r0, 16, p.len as nat, 4, r3);
    lemma_uint_at(r0, 20, p.requester_node_id as nat, 2, r4);
    reveal(take_fetch);
}

impl FetchPayload {
    pub fn encode(&self) -> (buf: Vec<u8>)
        ensures
            buf@ == fetch_bytes(*self, Seq::empty()),
    {
        broadcast use lemma_be_bytes_len;

        reveal(fetch_bytes);
        let mut buf: Vec<u8> = Vec::new();
        put_u64(&mut buf, self.region_id);
        put_u64(&mut buf, self.offset);
        put_u32(&mut buf, self.len);
        put_u16(&mut buf, self.requester_node_id);
        assert(buf@ =~= fetch_bytes(*self, Seq::empty()));
        buf
    }

    pub fn decode(data: &[u8]) -> (r: Result<Self, UbError>)
        ensures
            match r {
                Ok(p) => take_fetch(data@) matches Ok(x) && x.0 == p,
                Err(e) => take_fetch(data@) matches Err(t) && e.is_internal(t),
            },
    {
        broadcast use lemma_take_uint_at;

        reveal(take_fetch);
        let mut cur = Reader::new(data);
        let region_id = match cur.u64() {
            Ok(v) => v,
            Err(e) => return Err(e),
        };
        let offset = match cur.u64() {
            Ok(v) => v,
            Err(e) => return Err(e),
        };
        let len = match cur.u32() {
            Ok(v) => v,
            Err(e) => return Err(e),
        };
        let requester_node_id = match cur.u16() {
            Ok(v) => v,
            Err(e) => return Err(e),
        };
        Ok(FetchPayload { region_id, offset, len, requester_node_id })
    }
}

/// FETCH_RESP payload: home node to reader.
#[derive(Debug, Clone)]
pub struct FetchRespPayload {
    pub region_id: u64,
    pub epoch: u64,
    pub payload: Vec<u8>,
    pub error_code: u32,
}

/// The contents of a `FetchRespPayload`.
#[verifier::ext_equal]
pub struct FetchRespPayloadView {
    pub region_id: u64,
    pub epoch: u64,
    pub payload: Seq<u8>,
    pub error_code: u32,
}

impl View for FetchRespPayload {
    type V = FetchRespPayloadView;

    open spec fn view(&self) -> FetchRespPayloadView {
        FetchRespPayloadView {
            region_id: self.region_id,
            epoch: self.epoch,
            payload: self.payload@,
            error_code: self.error_code,
        }
    }
}

/// The bytes of the payload, before `rest`.
#[verifier::opaque]
pub open spec fn fetch_resp_bytes(p: FetchRespPayloadView, rest: Seq<u8>) -> Seq<u8> {
    be_bytes(p.region_id as nat, 8) + (
    be_bytes(p.epoch as nat, 8) + (
    block_bytes(p.payload, be_bytes(p.error_code as nat, 4) + rest)))
}

/// The payload at the front of `s`.
#[verifier::opaque]
pub open spec fn take_fetch_resp(s: Seq<u8>) -> Parsed<FetchRespPayloadView> {
    if s.len() < 16 {
        Err(short_input())
    } else {
        match take_block(s.skip(16)) {
            Err(e) => Err(e),
            Ok((payload, s1)) => if s1.len() < 4 {
                Err(short_input())
            } else {
                Ok(
                    (
                        FetchRespPayloadView {
                            region_id: uint_at(s, 0, 8) as u64,
                            epoch: uint_at(s, 8, 8) as u64,
                            payload,
                            error_code: uint_at(s1, 0, 4) as u32,
                        },
                        s1.skip(4),
                    ),
                )
            },
        }
    }
}

/// Decoding gives back what was encoded, whatever follows it. Each number
/// stands at its own place, high-order byte first.
pub proof fn lemma_fetch_resp_round_trip(p: FetchRespPayloadView, rest: Seq<u8>)
    requires
        p.payload.len() < 0x1_0000_0000,
    ensures
        take_fetch_resp(fetch_resp_bytes(p, rest)) == parsed(p, rest),
        uint_at(fetch_resp_bytes(p, rest), 0, 8) == p.region_id,
        uint_at(fetch_resp_bytes(p, rest), 8, 8) == p.epoch,
{
    reveal(fetch_resp_bytes);
    let r4 = rest;
    let r3 = be_bytes(p.error_code as nat, 4) + r4;
    let r2 = block_bytes(p.payload, r3);
    let r1 = be_bytes(p.epoch as nat, 8) + r2;
    let r0 = be_bytes(p.region_id as nat, 8) + r1;
    lemma_pow256_values();
    assert(r0.skip(0) =~= r0);
    lemma_uint_at(r0, 0, p.region_id as nat, 8, r1);
    lemma_uint_at(r0, 8, p.epoch as nat, 8, r2);
    lemma_take_block(p.payload, r3);
    assert(r3.skip(0) =~= r3);
    lemma_uint_at(r3, 0, p.error_code as nat, 4, r4);
    reveal(take_fetch_resp);
}

impl FetchRespPayload {
    pub fn encode(&self) -> (buf: Vec<u8>)
        ensures
            buf@ == fetch_resp_bytes(self@, Seq::empty()),
    {
        broadcast use lemma_be_bytes_len;

        reveal(fetch_resp_bytes);
        let mut buf: Vec<u8> = Vec::new();
        put_u64(&mut buf, self.region_id);
        put_u64(&mut buf, self.epoch);
        put_len(&mut buf, self.payload.len());
        put_slice(&mut buf, self.payload.as_slice());
        put_u32(&mut buf, self.error_code);
        assert(buf@ =~= fetch_resp_bytes(self@, Seq::empty()));
        buf
    }

    pub fn decode(data: &[u8]) -> (r: Result<Self, UbError>)
        ensures
            match r {
                Ok(p) => take_fetch_resp(data@) matches Ok(x) && x.0 == p@,
                Err(e) => take_fetch_resp(data@) matches Err(t) && e.is_internal(t),
            },
    {
        broadcast use lemma_take_uint_at;

        reveal(take_fetch_resp);
        let mut cur = Reader::new(data);
        let region_id = match cur.u64() {
            Ok(v) => v,
            Err(e) => return Err(e),
        };
        let epoch = match cur.u64() {
            Ok(v) => v,
            Err(e) => return Err(e),
        };
        let payload = match cur.block() {
            Ok(v) => v,
            Err(e) => return Err(e),
        };
        let error_code = match cur.u32() {
            Ok(v) => v,
            Err(e) => return Err(e),
        };
        Ok(FetchRespPayload { region_id, epoch, payload, error_code })
    }
}

/// WRITE_LOCK_REQ payload: writer to home node.
#[derive(Debug, Clone, Copy)]
pub struct WriteLockReqPayload {
    pub region_id: u64,
    pub writer_node_id: u16,
}

/// The bytes of the payload, before `rest`.
#[verifier::opaque]
pub open spec fn write_lock_req_bytes(p: WriteLockReqPayload, rest: Seq<u8>) -> Seq<u8> {
    be_bytes(p.region_id as nat, 8) + (be_bytes(p.writer_node_id as nat, 2) + (rest))
}

/// The payload at the front of `s`.
#[verifier::opaque]
pub open spec fn take_write_lock_req(s: Seq<u8>) -> Parsed<WriteLockReqPayload> {
    if s.len() < 10 {
        Err(short_input())
    } else {
        Ok(
            (
                WriteLockReqPayload {
                    region_id: uint_at(s, 0, 8) as u64,
                    writer_node_id: uint_at(s, 8, 2) as u16,
                },
                s.skip(10),
            ),
        )
    }
}

/// Decoding gives back what was encoded, whatever follows it. Each number
/// stands at its own place, high-order byte first.
pub proof fn lemma_write_lock_req_round_trip(p: WriteLockReqPayload, rest: Seq<u8>)
    ensures
        take_write_lock_req(write_lock_req_bytes(p, rest)) == parsed(p, rest),
        uint_at(write_lock_req_bytes(p, rest), 0, 8) == p.region_id,
        uint_at(write_lock_req_bytes(p, rest), 8, 2) == p.writer_node_id,
{
    reveal(write_lock_req_bytes);
    let r2 = rest;
    let r1 = be_bytes(p.writer_node_id as nat, 2) + r2;
    let r0 = be_bytes(p.region_id as nat, 8) + r1;
    lemma_pow256_values();
    assert(r0.skip(0) =~= r0);
    lemma_uint_at(r0, 0, p.region_id as nat, 8, r1);
    lemma_uint_at(r0, 8, p.writer_node_id as nat, 2, r2);
    reveal(take_write_lock_req);
}

impl WriteLockReqPayload {
    pub fn encode(&self) -> (buf: Vec<u8>)
        ensures
            buf@ == write_lock_req_bytes(*self, Seq::empty()),
    {
        broadcast use lemma_be_bytes_len;

        reveal(write_lock_req_bytes);
        let mut buf: Vec<u8> = Vec::new();
        put_u64(&mut buf, self.region_id);
        put_u16(&mut buf, self.writer_node_id);
        assert(buf@ =~= write_lock_req_bytes(*self, Seq::empty()));
        buf
    }

    pub fn decode(data: &[u8]) -> (r: Result<Self, UbError>)
        ensures
            match r {
                Ok(p) => take_write_lock_req(data@) matches Ok(x) && x.0 == p,
                Err(e) => take_write_lock_req(data@) matches Err(t) && e.is_internal(t),
            },
    {
        broadcast use lemma_take_uint_at;

        reveal(take_write_lock_req);
        let mut cur = Reader::new(data);
        let region_id = match cur.u64() {
            Ok(v) => v,
            Err(e) => return Err(e),
        };
        let writer_node_id = match cur.u16() {
            Ok(v) => v,
            Err(e) => return Err(e),
        };
        Ok(WriteLockReqPayload { region_id, writer_node_id })
    }
}

/// WRITE_LOCK_GRANTED payload: home node to writer.
#[derive(Debug, Clone, Copy)]
pub struct WriteLockGrantedPayload {
    pub region_id: u64,
    pub epoch: u64,
    pub error_code: u32,
}

/// The bytes of the payload, before `rest`.
#[verifier::opaque]
pub open spec fn write_lock_granted_bytes(p: WriteLockGrantedPayload, rest: Seq<u8>) -> Seq<u8> {
    be_bytes(p.region_id as nat, 8) + (
    be_bytes(p.epoch as nat, 8) + (
    be_bytes(p.error_code as nat, 4) + rest))
}

/// The payload at the front of `s`.
#[verifier::opaque]
pub open spec fn take_write_lock_granted(s: Seq<u8>) -> Parsed<WriteLockGrantedPayload> {
    if s.len() < 20 {
        Err(short_input())
    } else {
        Ok(
            (
                WriteLockGrantedPayload {
                    region_id: uint_at(s, 0, 8) as u64,
                    epoch: uint_at(s, 8, 8) as u64,
                    error_code: uint_at(s, 16, 4) as u32,
                },
                s.skip(20),
            ),
        )
    }
}

/// Decoding gives back what was encoded, whatever follows it. Each number
/// stands at its own place, high-order byte first.
pub proof fn lemma_write_lock_granted_round_trip(p: WriteLockGrantedPayload, rest: Seq<u8>)
    ensures
        take_write_lock_granted(write_lock_granted_bytes(p, rest)) == parsed(p, rest),
        uint_at(write_lock_granted_bytes(p, rest), 0, 8) == p.region_id,
        uint_at(write_lock_granted_bytes(p, rest), 8, 8) == p.epoch,
        uint_at(write_lock_granted_bytes(p, rest), 16, 4) == p.error_code,
{
    reveal(write_lock_granted_bytes);
    let r3 = rest;
    let r2 = be_bytes(p.error_code as nat, 4) + r3;
    let r1 = be_bytes(p.epoch as nat, 8) + r2;
    let r0 = be_bytes(p.region_id as nat, 8) + r1;
    lemma_pow256_values();
    assert(r0.skip(0) =~= r0);
    lemma_uint_at(r0, 0, p.region_id as nat, 8, r1);
    lemma_uint_at(r0, 8, p.epoch as nat, 8, r2);
    lemma_uint_at(r0, 16, p.error_code as nat, 4, r3);
    reveal(take_write_lock_granted);
}

impl WriteLockGrantedPayload {
    pub fn encode(&self) -> (buf: Vec<u8>)
        ensures
            buf@ == write_lock_granted_bytes(*self, Seq::empty()),
    {
        broadcast use lemma_be_bytes_len;

        reveal(write_lock_granted_bytes);
        let mut buf: Vec<u8> = Vec::new();
        put_u64(&mut buf, self.region_id);
        put_u64(&mut buf, self.epoch);
        put_u32(&mut buf, self.error_code);
        assert(buf@ =~= write_lock_granted_bytes(*self, Seq::empty()));
        buf
    }

    pub fn decode(data: &[u8]) -> (r: Result<Self, UbError>)
        ensures
            match r {
                Ok(p) => take_write_lock_granted(data@) matches Ok(x) && x.0 == p,
                Err(e) => take_write_lock_granted(data@) matches Err(t) && e.is_internal(t),
            },
    {
        broadcast use lemma_take_uint_at;

        reveal(take_write_lock_granted);
        let mut cur = Reader::new(data);
        let region_id = match cur.u64() {
            Ok(v) => v,
            Err(e) => return Err(e),
        };
        let epoch = match cur.u64() {
            Ok(v) => v,
            Err(e) => return Err(e),
        };
        let error_code = match cur.u32() {
            Ok(v) => v,
            Err(e) => return Err(e),
        };
        Ok(WriteLockGrantedPayload { region_id, epoch, error_code })
    }
}

/// WRITE_UNLOCK payload: writer to home node.
#[derive(Debug, Clone, Copy)]
pub struct WriteUnlockPayload {
    pub region_id: u64,
    pub writer_node_id: u16,
}

/// The bytes of the payload, before `rest`.
#[verifier::opaque]
pub open spec fn write_unlock_bytes(p: WriteUnlockPayload, rest: Seq<u8>) -> Seq<u8> {
    be_bytes(p.region_id as nat, 8) + (be_bytes(p.writer_node_id as nat, 2) + (rest))
}

/// The payload at the front of `s`.
#[verifier::opaque]
pub open spec fn take_write_unlock(s: Seq<u8>) -> Parsed<WriteUnlockPayload> {
    if s.len() < 10 {
        Err(short_input())
    } else {
        Ok(
            (
                WriteUnlockPayload {
                    region_id: uint_at(s, 0, 8) as u64,
                    writer_node_id: uint_at(s, 8, 2) as u16,
                },
                s.skip(10),
            ),
        )
    }
}

/// Decoding gives back what was encoded, whatever follows it. Each number
/// stands at its own place, high-order byte first.
pub proof fn lemma_write_unlock_round_trip(p: WriteUnlockPayload, rest: Seq<u8>)
    ensures
        take_write_unlock(write_unlock_bytes(p, rest)) == parsed(p, rest),
        uint_at(write_unlock_bytes(p, rest), 0, 8) == p.region_id,
        uint_at(write_unlock_bytes(p, rest), 8, 2) == p.writer_node_id,
{
    reveal(write_unlock_bytes);
    let r2 = rest;
    let r1 = be_bytes(p.writer_node_id as nat, 2) + r2;
    let r0 = be_bytes(p.region_id as nat, 8) + r1;
    lemma_pow256_values();
    assert(r0.skip(0) =~= r0);
    lemma_uint_at(r0, 0, p.region_id as nat, 8, r1);
    lemma_uint_at(r0, 8, p.writer_node_id as nat, 2, r2);
    reveal(take_write_unlock);
}

impl WriteUnlockPayload {
    pub fn encode(&self) -> (buf: Vec<u8>)
        ensures
            buf@ == write_unlock_bytes(*self, Seq::empty()),
    {
        broadcast use lemma_be_bytes_len;

        reveal(write_unlock_bytes);
        let mut buf: Vec<u8> = Vec::new();
        put_u64(&mut buf, self.region_id);
        put_u16(&mut buf, self.writer_node_id);
        assert(buf@ =~= write_unlock_bytes(*self, Seq::empty()));
        buf
    }

    pub fn decode(data: &[u8]) -> (r: Result<Self, UbError>)
        ensures
            match r {
                Ok(p) => take_write_unlock(data@) matches Ok(x) && x.0 == p,
                Err(e) => take_write_unlock(data@) matches Err(t) && e.is_internal(t),
            },
    {
        broadcast use lemma_take_uint_at;

        reveal(take_write_unlock);
        let mut cur = Reader::new(data);
        let region_id = match cur.u64() {
            Ok(v) => v,
            Err(e) => return Err(e),
        };
        let writer_node_id = match cur.u16() {
            Ok(v) => v,
            Err(e) => return Err(e),
        };
        Ok(WriteUnlockPayload { region_id, writer_node_id })
    }
}

/// INVALIDATE payload: home node to readers.
#[derive(Debug, Clone, Copy)]
pub struct InvalidatePayload {
    pub region_id: u64,
    pub new_epoch: u64,
}

/// The bytes of the payload, before `rest`.
#[verifier::opaque]
pub open spec fn invalidate_bytes(p: InvalidatePayload, rest: Seq<u8>) -> Seq<u8> {
    be_bytes(p.region_id as nat, 8) + (be_bytes(p.new_epoch as nat, 8) + (rest))
}

/// The payload at the front of `s`.
#[verifier::opaque]
pub open spec fn take_invalidate(s: Seq<u8>) -> Parsed<InvalidatePayload> {
    if s.len() < 16 {
        Err(short_input())
    } else {
        Ok(
            (
                InvalidatePayload {
                    region_id: uint_at(s, 0, 8) as u64,
                    new_epoch: uint_at(s, 8, 8) as u64,
                },
                s.skip(16),
            ),
        )
    }
}

/// Decoding gives back what was encoded, whatever follows it. Each number
/// stands at its own place, high-order byte first.
pub proof fn lemma_invalidate_round_trip(p: InvalidatePayload, rest: Seq<u8>)
    ensures
        take_invalidate(invalidate_bytes(p, rest)) == parsed(p, rest),
        uint_at(invalidate_bytes(p, rest), 0, 8) == p.region_id,
        uint_at(invalidate_bytes(p, rest), 8, 8) == p.new_epoch,
{
    reveal(invalidate_bytes);
    let r2 = rest;
    let r1 = be_bytes(p.new_epoch as nat, 8) + r2;
    let r0 = be_bytes(p.region_id as nat, 8) + r1;
    lemma_pow256_values();
    assert(r0.skip(0) =~= r0);
    lemma_uint_at(r0, 0, p.region_id as nat, 8, r1);
    lemma_uint_at(r0, 8, p.new_epoch as nat, 8, r2);
    reveal(take_invalidate);
}

impl InvalidatePayload {
    pub fn encode(&self) -> (buf: Vec<u8>)
        ensures
            buf@ == invalidate_bytes(*self, Seq::empty()),
    {
        broadcast use lemma_be_bytes_len;

        reveal(invalidate_bytes);
        let mut buf: Vec<u8> = Vec::new();
        put_u64(&mut buf, self.region_id);
        put_u64(&mut buf, self.new_epoch);
        assert(buf@ =~= invalidate_bytes(*self, Seq::empty()));
        buf
    }

    pub fn decode(data: &[u8]) -> (r: Result<Self, UbError>)
        ensures
            match r {
                Ok(p) => take_invalidate(data@) matches Ok(x) && x.0 == p,
                Err(e) => take_invalidate(data@) matches Err(t) && e.is_internal(t),
            },
    {
        broadcast use lemma_take_uint_at;

        reveal(take_invalidate);
        let mut cur = Reader::new(data);
        let region_id = match cur.u64() {
            Ok(v) => v,
            Err(e) => return Err(e),
        };
        let new_epoch = match cur.u64() {
            Ok(v) => v,
            Err(e) => return Err(e),
        };
        Ok(InvalidatePayload { region_id, new_epoch })
    }
}

/// INVALIDATE_ACK payload: reader to home node.
#[derive(Debug, Clone, Copy)]
pub struct InvalidateAckPayload {
    pub region_id: u64,
}

/// The bytes of the payload, before `rest`.
#[verifier::opaque]
pub open spec fn invalidate_ack_bytes(p: InvalidateAckPayload, rest: Seq<u8>) -> Seq<u8> {
    be_bytes(p.region_id as nat, 8) + (rest)
}

/// The payload at the front of `s`.
#[verifier::opaque]
pub open spec fn take_invalidate_ack(s: Seq<u8>) -> Parsed<InvalidateAckPayload> {
    if s.len() < 8 {
        Err(short_input())
    } else {
        Ok((InvalidateAckPayload { region_id: uint_at(s, 0, 8) as u64 }, s.skip(8)))
    }
}

/// Decoding gives back what was encoded, whatever follows it. Each number
/// stands at its own place, high-order byte first.
pub proof fn lemma_invalidate_ack_round_trip(p: InvalidateAckPayload, rest: Seq<u8>)
    ensures
        take_invalidate_ack(invalidate_ack_bytes(p, rest)) == parsed(p, rest),
        uint_at(invalidate_ack_bytes(p, rest), 0, 8) == p.region_id,
{
    reveal(invalidate_ack_bytes);
    let r1 = rest;
    let r0 = be_bytes(p.region_id as nat, 8) + r1;
    lemma_pow256_values();
    assert(r0.skip(0) =~= r0);
    lemma_uint_at(r0, 0, p.region_id as nat, 8, r1);
    reveal(take_invalidate_ack);
}

impl InvalidateAckPayload {
    pub fn encode(&self) -> (buf: Vec<u8>)
        ensures
            buf@ == invalidate_ack_bytes(*self, Seq::empty()),
    {
        broadcast use lemma_be_bytes_len;

        reveal(invalidate_ack_bytes);
        let mut buf: Vec<u8> = Vec::new();
        put_u64(&mut buf, self.region_id);
        assert(buf@ =~= invalidate_ack_bytes(*self, Seq::empty()));
        buf
    }

    pub fn decode(data: &[u8]) -> (r: Result<Self, UbError>)
        ensures
            match r {
                Ok(p) => take_invalidate_ack(data@) matches Ok(x) && x.0 == p,
                Err(e) => take_invalidate_ack(data@) matches Err(t) && e.is_internal(t),
            },
    {
        broadcast use lemma_take_uint_at;

        reveal(take_invalidate_ack);
        let mut cur = Reader::new(data);
        let region_id = match cur.u64() {
            Ok(v) => v,
            Err(e) => return Err(e),
        };
        Ok(InvalidateAckPayload { region_id })
    }
}

/// Control messages.
#[derive(Debug, Clone)]
pub enum ControlMsg {
    Hello(HelloPayload),
    HelloAck(HelloPayload),
    MemberUp(HelloPayload),
    MemberDown(MemberDownPayload),
    MemberSnapshot(MemberSnapshotPayload),
    Heartbeat(HeartbeatPayload),
    HeartbeatAck(HeartbeatPayload),
    MrPublish(MrPublishPayload),
    MrRevoke(MrRevokePayload),
    Join(JoinPayload),
    DeviceProfilePublish(DeviceProfilePublishPayload),
    AllocReq(AllocReqPayload),
    AllocResp(AllocRespPayload),
    RegionCreate(RegionCreatePayload),
    RegionCreateOk(RegionCreateOkPayload),
    RegionDelete(RegionDeletePayload),
    Fetch(FetchPayload),
    FetchResp(FetchRespPayload),
    WriteLockReq(WriteLockReqPayload),
    WriteLockGranted(WriteLockGrantedPayload),
    WriteUnlock(WriteUnlockPayload),
    Invalidate(InvalidatePayload),
    InvalidateAck(InvalidateAckPayload),
}

/// The contents of a `ControlMsg`.
#[verifier::ext_equal]
pub enum ControlMsgView {
    Hello(HelloPayloadView),
    HelloAck(HelloPayloadView),
    MemberUp(HelloPayloadView),
    MemberDown(MemberDownPayload),
    MemberSnapshot(Seq<SnapshotNodeView>),
    Heartbeat(HeartbeatPayload),
    HeartbeatAck(HeartbeatPayload),
    MrPublish(MrPublishPayload),
    MrRevoke(MrRevokePayload),
    Join(JoinPayloadView),
    DeviceProfilePublish(Seq<DeviceProfileEntry>),
    AllocReq(AllocReqPayload),
    AllocResp(AllocRespPayload),
    RegionCreate(RegionCreatePayload),
    RegionCreateOk(RegionCreateOkPayload),
    RegionDelete(RegionDeletePayload),
    Fetch(FetchPayload),
    FetchResp(FetchRespPayloadView),
    WriteLockReq(WriteLockReqPayload),
    WriteLockGranted(WriteLockGrantedPayload),
    WriteUnlock(WriteUnlockPayload),
    Invalidate(InvalidatePayload),
    InvalidateAck(InvalidateAckPayload),
}

impl View for ControlMsg {
    type V = ControlMsgView;

    open spec fn view(&self) -> ControlMsgView {
        match self {
            ControlMsg::Hello(p) => ControlMsgView::Hello(p@),
            ControlMsg::HelloAck(p) => ControlMsgView::HelloAck(p@),
            ControlMsg::MemberUp(p) => ControlMsgView::MemberUp(p@),
            ControlMsg::MemberDown(p) => ControlMsgView::MemberDown(*p),
            ControlMsg::MemberSnapshot(p) => ControlMsgView::MemberSnapshot(p@),
            ControlMsg::Heartbeat(p) => ControlMsgView::Heartbeat(*p),
            ControlMsg::HeartbeatAck(p) => ControlMsgView::HeartbeatAck(*p),
            ControlMsg::MrPublish(p) => ControlMsgView::MrPublish(*p),
            ControlMsg::MrRevoke(p) => ControlMsgView::MrRevoke(*p),
            ControlMsg::Join(p) => ControlMsgView::Join(p@),
            ControlMsg::DeviceProfilePublish(p) => ControlMsgView::DeviceProfilePublish(p.entries@),
            ControlMsg::AllocReq(p) => ControlMsgView::AllocReq(*p),
            ControlMsg::AllocResp(p) => ControlMsgView::AllocResp(*p),
            ControlMsg::RegionCreate(p) => ControlMsgView::RegionCreate(*p),
            ControlMsg::RegionCreateOk(p) => ControlMsgView::RegionCreateOk(*p),
            ControlMsg::RegionDelete(p) => ControlMsgView::RegionDelete(*p),
            ControlMsg::Fetch(p) => ControlMsgView::Fetch(*p),
            ControlMsg::FetchResp(p) => ControlMsgView::FetchResp(p@),
            ControlMsg::WriteLockReq(p) => ControlMsgView::WriteLockReq(*p),
            ControlMsg::WriteLockGranted(p) => ControlMsgView::WriteLockGranted(*p),
            ControlMsg::WriteUnlock(p) => ControlMsgView::WriteUnlock(*p),
            ControlMsg::Invalidate(p) => ControlMsgView::Invalidate(*p),
            ControlMsg::InvalidateAck(p) => ControlMsgView::InvalidateAck(*p),
        }
    }
}

impl ControlMsgView {
    /// The type of the message.
    pub open spec fn spec_type(self) -> CtrlMsgType {
        match self {
            ControlMsgView::Hello(_) => CtrlMsgType::Hello,
            ControlMsgView::HelloAck(_) => CtrlMsgType::HelloAck,
            ControlMsgView::MemberUp(_) => CtrlMsgType::MemberUp,
            ControlMsgView::MemberDown(_) => CtrlMsgType::MemberDown,
            ControlMsgView::MemberSnapshot(_) => CtrlMsgType::MemberSnapshot,
            ControlMsgView::Heartbeat(_) => CtrlMsgType::Heartbeat,
            ControlMsgView::HeartbeatAck(_) => CtrlMsgType::HeartbeatAck,
            ControlMsgView::MrPublish(_) => CtrlMsgType::MrPublish,
            ControlMsgView::MrRevoke(_) => CtrlMsgType::MrRevoke,
            ControlMsgView::Join(_) => CtrlMsgType::Join,
            ControlMsgView::DeviceProfilePublish(_) => CtrlMsgType::DeviceProfilePublish,
            ControlMsgView::AllocReq(_) => CtrlMsgType::AllocReq,
            ControlMsgView::AllocResp(_) => CtrlMsgType::AllocResp,
            ControlMsgView::RegionCreate(_) => CtrlMsgType::RegionCreate,
            ControlMsgView::RegionCreateOk(_) => CtrlMsgType::RegionCreateOk,
            ControlMsgView::RegionDelete(_) => CtrlMsgType::RegionDelete,
            ControlMsgView::Fetch(_) => CtrlMsgType::Fetch,
            ControlMsgView::FetchResp(_) => CtrlMsgType::FetchResp,
            ControlMsgView::WriteLockReq(_) => CtrlMsgType::WriteLockReq,
            ControlMsgView::WriteLockGranted(_) => CtrlMsgType::WriteLockGranted,
            ControlMsgView::WriteUnlock(_) => CtrlMsgType::WriteUnlock,
            ControlMsgView::Invalidate(_) => CtrlMsgType::Invalidate,
            ControlMsgView::InvalidateAck(_) => CtrlMsgType::InvalidateAck,
        }
    }

    /// The bytes of the payload.
    pub open spec fn payload_bytes(self) -> Seq<u8> {
        match self {
            ControlMsgView::Hello(p) => hello_bytes(p, Seq::empty()),
            ControlMsgView::HelloAck(p) => hello_bytes(p, Seq::empty()),
            ControlMsgView::MemberUp(p) => hello_bytes(p, Seq::empty()),
            ControlMsgView::MemberDown(p) => member_down_bytes(p, Seq::empty()),
            ControlMsgView::MemberSnapshot(p) => member_snapshot_bytes(p, Seq::empty()),
            ControlMsgView::Heartbeat(p) => heartbeat_bytes(p, Seq::empty()),
            ControlMsgView::HeartbeatAck(p) => heartbeat_bytes(p, Seq::empty()),
            ControlMsgView::MrPublish(p) => mr_publish_bytes(p, Seq::empty()),
            ControlMsgView::MrRevoke(p) => mr_revoke_bytes(p, Seq::empty()),
            ControlMsgView::Join(p) => join_bytes(p, Seq::empty()),
            ControlMsgView::DeviceProfilePublish(p) => profile_publish_bytes(p, Seq::empty()),
            ControlMsgView::AllocReq(p) => alloc_req_bytes(p, Seq::empty()),
            ControlMsgView::AllocResp(p) => alloc_resp_bytes(p, Seq::empty()),
            ControlMsgView::RegionCreate(p) => region_create_bytes(p, Seq::empty()),
            ControlMsgView::RegionCreateOk(p) => region_create_ok_bytes(p, Seq::empty()),
            ControlMsgView::RegionDelete(p) => region_delete_bytes(p, Seq::empty()),
            ControlMsgView::Fetch(p) => fetch_bytes(p, Seq::empty()),
            ControlMsgView::FetchResp(p) => fetch_resp_bytes(p, Seq::empty()),
            ControlMsgView::WriteLockReq(p) => write_lock_req_bytes(p, Seq::empty()),
            ControlMsgView::WriteLockGranted(p) => write_lock_granted_bytes(p, Seq::empty()),
            ControlMsgView::WriteUnlock(p) => write_unlock_bytes(p, Seq::empty()),
            ControlMsgView::Invalidate(p) => invalidate_bytes(p, Seq::empty()),
            ControlMsgView::InvalidateAck(p) => invalidate_ack_bytes(p, Seq::empty()),
        }
    }

    /// Whether every length in the message, and that of its payload, fits in 32 bits, and
    /// only known permission bits are set.
    pub open spec fn fits(self) -> bool {
        &&& self.payload_bytes().len() < 0x1_0000_0000
        &&& match self {
            ControlMsgView::Hello(p) => encode_utf8(p.data_addr).len() < 0x1_0000_0000,
            ControlMsgView::HelloAck(p) => encode_utf8(p.data_addr).len() < 0x1_0000_0000,
            ControlMsgView::MemberUp(p) => encode_utf8(p.data_addr).len() < 0x1_0000_0000,
            ControlMsgView::MemberSnapshot(p) => p.len() < 0x1_0000_0000 && forall|k: int|
                0 <= k < p.len() ==> node_fits(#[trigger] p[k]),
            ControlMsgView::MrPublish(p) => p.perms.known(),
            ControlMsgView::Join(p) => encode_utf8(p.data_addr).len() < 0x1_0000_0000
                && encode_utf8(p.control_addr).len() < 0x1_0000_0000,
            ControlMsgView::DeviceProfilePublish(p) => p.len() < 0x1_0000_0000,
            ControlMsgView::FetchResp(p) => p.payload.len() < 0x1_0000_0000,
            _ => true,
        }
    }
}

/// The payload of a message of type `t`.
pub open spec fn take_payload(t: CtrlMsgType, s: Seq<u8>) -> Result<ControlMsgView, Seq<char>> {
    match t {
        CtrlMsgType::Hello => match take_hello(s) {
            Err(e) => Err(e),
            Ok((p, _left)) => Ok(ControlMsgView::Hello(p)),
        },
        CtrlMsgType::HelloAck => match take_hello(s) {
            Err(e) => Err(e),
            Ok((p, _left)) => Ok(ControlMsgView::HelloAck(p)),
        },
        CtrlMsgType::MemberUp => match take_hello(s) {
            Err(e) => Err(e),
            Ok((p, _left)) => Ok(ControlMsgView::MemberUp(p)),
        },
        CtrlMsgType::MemberDown => match take_member_down(s) {
            Err(e) => Err(e),
            Ok((p, _left)) => Ok(ControlMsgView::MemberDown(p)),
        },
        CtrlMsgType::MemberSnapshot => match take_member_snapshot(s) {
            Err(e) => Err(e),
            Ok((p, _left)) => Ok(ControlMsgView::MemberSnapshot(p)),
        },
        CtrlMsgType::Heartbeat => match take_heartbeat(s) {
            Err(e) => Err(e),
            Ok((p, _left)) => Ok(ControlMsgView::Heartbeat(p)),
        },
        CtrlMsgType::HeartbeatAck => match take_heartbeat(s) {
            Err(e) => Err(e),
            Ok((p, _left)) => Ok(ControlMsgView::HeartbeatAck(p)),
        },
        CtrlMsgType::MrPublish => match take_mr_publish(s) {
            Err(e) => Err(e),
            Ok((p, _left)) => Ok(ControlMsgView::MrPublish(p)),
        },
        CtrlMsgType::MrRevoke => match take_mr_revoke(s) {
            Err(e) => Err(e),
            Ok((p, _left)) => Ok(ControlMsgView::MrRevoke(p)),
        },
        CtrlMsgType::Join => match take_join(s) {
            Err(e) => Err(e),
            Ok((p, _left)) => Ok(ControlMsgView::Join(p)),
        },
        CtrlMsgType::DeviceProfilePublish => match take_profile_publish(s) {
            Err(e) => Err(e),
            Ok((p, _left)) => Ok(ControlMsgView::DeviceProfilePublish(p)),
        },
        CtrlMsgType::AllocReq => match take_alloc_req(s) {
            Err(e) => Err(e),
            Ok((p, _left)) => Ok(ControlMsgView::AllocReq(p)),
        },
        CtrlMsgType::AllocResp => match take_alloc_resp(s) {
            Err(e) => Err(e),
            Ok((p, _left)) => Ok(ControlMsgView::AllocResp(p)),
        },
        CtrlMsgType::RegionCreate => match take_region_create(s) {
            Err(e) => Err(e),
            Ok((p, _left)) => Ok(ControlMsgView::RegionCreate(p)),
        },
        CtrlMsgType::RegionCreateOk => match take_region_create_ok(s) {
            Err(e) => Err(e),
            Ok((p, _left)) => Ok(ControlMsgView::RegionCreateOk(p)),
        },
        CtrlMsgType::RegionDelete => match take_region_delete(s) {
            Err(e) => Err(e),
            Ok((p, _left)) => Ok(ControlMsgView::RegionDelete(p)),
        },
        CtrlMsgType::Fetch => match take_fetch(s) {
            Err(e) => Err(e),
            Ok((p, _left)) => Ok(ControlMsgView::Fetch(p)),
        },
        CtrlMsgType::FetchResp => match take_fetch_resp(s) {
            Err(e) => Err(e),
            Ok((p, _left)) => Ok(ControlMsgView::FetchResp(p)),
        },
        CtrlMsgType::WriteLockReq => match take_write_lock_req(s) {
            Err(e) => Err(e),
            Ok((p, _left)) => Ok(ControlMsgView::WriteLockReq(p)),
        },
        CtrlMsgType::WriteLockGranted => match take_write_lock_granted(s) {
            Err(e) => Err(e),
            Ok((p, _left)) => Ok(ControlMsgView::WriteLockGranted(p)),
        },
        CtrlMsgType::WriteUnlock => match take_write_unlock(s) {
            Err(e) => Err(e),
            Ok((p, _left)) => Ok(ControlMsgView::WriteUnlock(p)),
        },
        CtrlMsgType::Invalidate => match take_invalidate(s) {
            Err(e) => Err(e),
            Ok((p, _left)) => Ok(ControlMsgView::Invalidate(p)),
        },
        CtrlMsgType::InvalidateAck => match take_invalidate_ack(s) {
            Err(e) => Err(e),
            Ok((p, _left)) => Ok(ControlMsgView::InvalidateAck(p)),
        },
    }
}

/// The message at the front of `s`.
pub open spec fn take_message(s: Seq<u8>) -> Result<ControlMsgView, Seq<char>> {
    match take_frame(s) {
        Err(e) => Err(e),
        Ok((t, payload)) => take_payload(t, payload),
    }
}

/// Decoding an encoded message gives the message back, whatever follows it.
pub proof fn lemma_message_round_trip(m: ControlMsgView, rest: Seq<u8>)
    requires
        m.fits(),
    ensures
        take_message(frame_bytes(m.spec_type(), m.payload_bytes()) + rest) == Ok::<
            ControlMsgView,
            Seq<char>,
        >(m),
{
    lemma_frame_round_trip(m.spec_type(), m.payload_bytes(), rest);
    lemma_payload_round_trip(m);
}

proof fn lemma_payload_round_trip(m: ControlMsgView)
    requires
        m.fits(),
    ensures
        take_payload(m.spec_type(), m.payload_bytes()) == Ok::<ControlMsgView, Seq<char>>(m),
{
    match m {
        ControlMsgView::Hello(p) => {
            lemma_hello_round_trip(p, Seq::empty());
        },
        ControlMsgView::HelloAck(p) => {
            lemma_hello_round_trip(p, Seq::empty());
        },
        ControlMsgView::MemberUp(p) => {
            lemma_hello_round_trip(p, Seq::empty());
        },
        ControlMsgView::MemberDown(p) => {
            lemma_member_down_round_trip(p, Seq::empty());
        },
        ControlMsgView::MemberSnapshot(p) => {
            lemma_member_snapshot_round_trip(p, Seq::empty());
        },
        ControlMsgView::Heartbeat(p) => {
            lemma_heartbeat_round_trip(p, Seq::empty());
        },
        ControlMsgView::HeartbeatAck(p) => {
            lemma_heartbeat_round_trip(p, Seq::empty());
        },
        ControlMsgView::MrPublish(p) => {
            lemma_mr_publish_round_trip(p, Seq::empty());
        },
        ControlMsgView::MrRevoke(p) => {
            lemma_mr_revoke_round_trip(p, Seq::empty());
        },
        ControlMsgView::Join(p) => {
            lemma_join_round_trip(p, Seq::empty());
        },
        ControlMsgView::DeviceProfilePublish(p) => {
            lemma_profile_publish_round_trip(p, Seq::empty());
        },
        ControlMsgView::AllocReq(p) => {
            lemma_alloc_req_round_trip(p, Seq::empty());
        },
        ControlMsgView::AllocResp(p) => {
            lemma_alloc_resp_round_trip(p, Seq::empty());
        },
        ControlMsgView::RegionCreate(p) => {
            lemma_region_create_round_trip(p, Seq::empty());
        },
        ControlMsgView::RegionCreateOk(p) => {
            lemma_region_create_ok_round_trip(p, Seq::empty());
        },
        ControlMsgView::RegionDelete(p) => {
            lemma_region_delete_round_trip(p, Seq::empty());
        },
        ControlMsgView::Fetch(p) => {
            lemma_fetch_round_trip(p, Seq::empty());
        },
        ControlMsgView::FetchResp(p) => {
            lemma_fetch_resp_round_trip(p, Seq::empty());
        },
        ControlMsgView::WriteLockReq(p) => {
            lemma_write_lock_req_round_trip(p, Seq::empty());
        },
        ControlMsgView::WriteLockGranted(p) => {
            lemma_write_lock_granted_round_trip(p, Seq::empty());
        },
        ControlMsgView::WriteUnlock(p) => {
            lemma_write_unlock_round_trip(p, Seq::empty());
        },
        ControlMsgView::Invalidate(p) => {
            lemma_invalidate_round_trip(p, Seq::empty());
        },
        ControlMsgView::InvalidateAck(p) => {
            lemma_invalidate_ack_round_trip(p, Seq::empty());
        },
    }
}

impl ControlMsg {
    pub fn msg_type(&self) -> (r: CtrlMsgType)
        ensures
            r == self@.spec_type(),
    {
        match self {
            ControlMsg::Hello(_) => CtrlMsgType::Hello,
            ControlMsg::HelloAck(_) => CtrlMsgType::HelloAck,
            ControlMsg::MemberUp(_) => CtrlMsgType::MemberUp,
            ControlMsg::MemberDown(_) => CtrlMsgType::MemberDown,
            ControlMsg::MemberSnapshot(_) => CtrlMsgType::MemberSnapshot,
            ControlMsg::Heartbeat(_) => CtrlMsgType::Heartbeat,
            ControlMsg::HeartbeatAck(_) => CtrlMsgType::HeartbeatAck,
            ControlMsg::MrPublish(_) => CtrlMsgType::MrPublish,
            ControlMsg::MrRevoke(_) => CtrlMsgType::MrRevoke,
            ControlMsg::Join(_) => CtrlMsgType::Join,
            ControlMsg::DeviceProfilePublish(_) => CtrlMsgType::DeviceProfilePublish,
            ControlMsg::AllocReq(_) => CtrlMsgType::AllocReq,
            ControlMsg::AllocResp(_) => CtrlMsgType::AllocResp,
            ControlMsg::RegionCreate(_) => CtrlMsgType::RegionCreate,
            ControlMsg::RegionCreateOk(_) => CtrlMsgType::RegionCreateOk,
            ControlMsg::RegionDelete(_) => CtrlMsgType::RegionDelete,
            ControlMsg::Fetch(_) => CtrlMsgType::Fetch,
            ControlMsg::FetchResp(_) => CtrlMsgType::FetchResp,
            ControlMsg::WriteLockReq(_) => CtrlMsgType::WriteLockReq,
            ControlMsg::WriteLockGranted(_) => CtrlMsgType::WriteLockGranted,
            ControlMsg::WriteUnlock(_) => CtrlMsgType::WriteUnlock,
            ControlMsg::Invalidate(_) => CtrlMsgType::Invalidate,
            ControlMsg::InvalidateAck(_) => CtrlMsgType::InvalidateAck,
        }
    }

    pub fn encode_payload(&self) -> (r: Vec<u8>)
        ensures
            r@ == self@.payload_bytes(),
    {
        match self {
            ControlMsg::Hello(p) => p.encode(),
            ControlMsg::HelloAck(p) => p.encode(),
            ControlMsg::MemberUp(p) => p.encode(),
            ControlMsg::MemberDown(p) => p.encode(),
            ControlMsg::MemberSnapshot(p) => p.encode(),
            ControlMsg::Heartbeat(p) => p.encode(),
            ControlMsg::HeartbeatAck(p) => p.encode(),
            ControlMsg::MrPublish(p) => p.encode(),
            ControlMsg::MrRevoke(p) => p.encode(),
            ControlMsg::Join(p) => p.encode(),
            ControlMsg::DeviceProfilePublish(p) => p.encode(),
            ControlMsg::AllocReq(p) => p.encode(),
            ControlMsg::AllocResp(p) => p.encode(),
            ControlMsg::RegionCreate(p) => p.encode(),
            ControlMsg::RegionCreateOk(p) => p.encode(),
            ControlMsg::RegionDelete(p) => p.encode(),
            ControlMsg::Fetch(p) => p.encode(),
            ControlMsg::FetchResp(p) => p.encode(),
            ControlMsg::WriteLockReq(p) => p.encode(),
            ControlMsg::WriteLockGranted(p) => p.encode(),
            ControlMsg::WriteUnlock(p) => p.encode(),
            ControlMsg::Invalidate(p) => p.encode(),
            ControlMsg::InvalidateAck(p) => p.encode(),
        }
    }

    /// The complete message: framing and payload.
    pub fn to_vec(&self) -> (r: Vec<u8>)
        ensures
            r@ == frame_bytes(self@.spec_type(), self@.payload_bytes()),
    {
        let payload = self.encode_payload();
        framed(self.msg_type(), payload.as_slice())
    }

    /// Encodes a complete message.
    pub fn encode(&self) -> (r: BytesMut)
        ensures
            bytes_contents(r) == frame_bytes(self@.spec_type(), self@.payload_bytes()),
    {
        bytes_from(self.to_vec().as_slice())
    }

    /// Decodes a framed message.
    pub fn decode(buf: &[u8]) -> (r: Result<Self, UbError>)
        ensures
            match r {
                Ok(m) => take_message(buf@) == Ok::<ControlMsgView, Seq<char>>(m@),
                Err(e) => take_message(buf@) matches Err(t) && e.is_internal(t),
            },
    {
        let (msg_type, payload) = match decode_ctrl_message(buf) {
            Ok(p) => p,
            Err(e) => return Err(e),
        };
        let data = payload.as_slice();
        match msg_type {
            CtrlMsgType::Hello => match HelloPayload::decode(data) {
                Ok(p) => Ok(ControlMsg::Hello(p)),
                Err(e) => Err(e),
            },
            CtrlMsgType::HelloAck => match HelloPayload::decode(data) {
                Ok(p) => Ok(ControlMsg::HelloAck(p)),
                Err(e) => Err(e),
            },
            CtrlMsgType::MemberUp => match HelloPayload::decode(data) {
                Ok(p) => Ok(ControlMsg::MemberUp(p)),
                Err(e) => Err(e),
            },
            CtrlMsgType::MemberDown => match MemberDownPayload::decode(data) {
                Ok(p) => Ok(ControlMsg::MemberDown(p)),
                Err(e) => Err(e),
            },
            CtrlMsgType::MemberSnapshot => match MemberSnapshotPayload::decode(data) {
                Ok(p) => Ok(ControlMsg::MemberSnapshot(p)),
                Err(e) => Err(e),
            },
            CtrlMsgType::Heartbeat => match HeartbeatPayload::decode(data) {
                Ok(p) => Ok(ControlMsg::Heartbeat(p)),
                Err(e) => Err(e),
            },
            CtrlMsgType::HeartbeatAck => match HeartbeatPayload::decode(data) {
                Ok(p) => Ok(ControlMsg::HeartbeatAck(p)),
                Err(e) => Err(e),
            },
            CtrlMsgType::MrPublish => match MrPublishPayload::decode(data) {
                Ok(p) => Ok(ControlMsg::MrPublish(p)),
                Err(e) => Err(e),
            },
            CtrlMsgType::MrRevoke => match MrRevokePayload::decode(data) {
                Ok(p) => Ok(ControlMsg::MrRevoke(p)),
                Err(e) => Err(e),
            },
            CtrlMsgType::Join => match JoinPayload::decode(data) {
                Ok(p) => Ok(ControlMsg::Join(p)),
                Err(e) => Err(e),
            },
            CtrlMsgType::DeviceProfilePublish => match DeviceProfilePublishPayload::decode(data) {
                Ok(p) => Ok(ControlMsg::DeviceProfilePublish(p)),
                Err(e) => Err(e),
            },
            CtrlMsgType::AllocReq => match AllocReqPayload::decode(data) {
                Ok(p) => Ok(ControlMsg::AllocReq(p)),
                Err(e) => Err(e),
            },
            CtrlMsgType::AllocResp => match AllocRespPayload::decode(data) {
                Ok(p) => Ok(ControlMsg::AllocResp(p)),
                Err(e) => Err(e),
            },
            CtrlMsgType::RegionCreate => match RegionCreatePayload::decode(data) {
                Ok(p) => Ok(ControlMsg::RegionCreate(p)),
                Err(e) => Err(e),
            },
            CtrlMsgType::RegionCreateOk => match RegionCreateOkPayload::decode(data) {
                Ok(p) => Ok(ControlMsg::RegionCreateOk(p)),
                Err(e) => Err(e),
            },
            CtrlMsgType::RegionDelete => match RegionDeletePayload::decode(data) {
                Ok(p) => Ok(ControlMsg::RegionDelete(p)),
                Err(e) => Err(e),
            },
            CtrlMsgType::Fetch => match FetchPayload::decode(data) {
                Ok(p) => Ok(ControlMsg::Fetch(p)),
                Err(e) => Err(e),
            },
            CtrlMsgType::FetchResp => match FetchRespPayload::decode(data) {
                Ok(p) => Ok(ControlMsg::FetchResp(p)),
                Err(e) => Err(e),
            },
            CtrlMsgType::WriteLockReq => match WriteLockReqPayload::decode(data) {
                Ok(p) => Ok(ControlMsg::WriteLockReq(p)),
                Err(e) => Err(e),
            },
            CtrlMsgType::WriteLockGranted => match WriteLockGrantedPayload::decode(data) {
                Ok(p) => Ok(ControlMsg::WriteLockGranted(p)),
                Err(e) => Err(e),
            },
            CtrlMsgType::WriteUnlock => match WriteUnlockPayload::decode(data) {
                Ok(p) => Ok(ControlMsg::WriteUnlock(p)),
                Err(e) => Err(e),
            },
            CtrlMsgType::Invalidate => match InvalidatePayload::decode(data) {
                Ok(p) => Ok(ControlMsg::Invalidate(p)),
                Err(e) => Err(e),
            },
            CtrlMsgType::InvalidateAck => match InvalidateAckPayload::decode(data) {
                Ok(p) => Ok(ControlMsg::InvalidateAck(p)),
                Err(e) => Err(e),
            },
        }
    }
}

} // verus!
