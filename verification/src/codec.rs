//! Encoding and decoding of data plane frames.
use crate::addr::UbAddr;
use crate::be::{be_bytes, lemma_be_bytes_len, lemma_pow256_values};
use crate::error::UbError;
use crate::frame::{
    AckPayload, AckView, CreditPayload, DataExtHeader, ExtFlags, FrameFlags, FrameHeader, FrameType,
    DATA_EXT_HEADER_SIZE, FRAME_HEADER_SIZE, MAGIC, VERSION,
};
use crate::text::{dec_text, hex_text, push_hex, with_dec};
use crate::types::Verb;
use crate::wire::{
    bytes_contents, bytes_from, lemma_take_uint_at, lemma_uint_at, parsed, put_slice, put_u16,
    put_u32, put_u64, put_u8, short_input, uint_at, Parsed, Reader,
};
use bytes::BytesMut;
use vstd::prelude::*;
use vstd::string::*;

verus! {

/// The bytes of a header, before `rest`.
#[verifier::opaque]
pub open spec fn header_bytes(p: FrameHeader, rest: Seq<u8>) -> Seq<u8> {
    be_bytes(p.magic as nat, 4) + (
    be_bytes(p.version as nat, 1) + (
    be_bytes(p.frame_type.code() as nat, 1) + (
    be_bytes(p.flags.spec_bits() as nat, 2) + (
    be_bytes(p.src_node as nat, 2) + (
    be_bytes(p.dst_node as nat, 2) + (
    be_bytes(p.reserved as nat, 4) + (
    be_bytes(p.stream_seq as nat, 8) + (
    be_bytes(p.payload_len as nat, 4) + (
    be_bytes(p.header_crc as nat, 4) + rest)))))))))
}

/// The header in the first bytes of `s`, which holds one at least.
#[verifier::opaque]
pub open spec fn take_header(s: Seq<u8>) -> Parsed<FrameHeader> {
    if uint_at(s, 0, 4) != MAGIC {
        Err("invalid magic: 0x"@ + hex_text(uint_at(s, 0, 4), 8))
    } else if uint_at(s, 4, 1) != VERSION {
        Err("version mismatch: "@ + dec_text(uint_at(s, 4, 1)))
    } else {
        match FrameType::of_code(uint_at(s, 5, 1) as u8) {
            None => Err("unknown frame type: "@ + dec_text(uint_at(s, 5, 1))),
            Some(frame_type) => Ok(
                (
                    FrameHeader {
                        magic: MAGIC,
                        version: VERSION,
                        frame_type,
                        flags: FrameFlags::of_bits(uint_at(s, 6, 2) as u16),
                        src_node: uint_at(s, 8, 2) as u16,
                        dst_node: uint_at(s, 10, 2) as u16,
                        reserved: uint_at(s, 12, 4) as u32,
                        stream_seq: uint_at(s, 16, 8) as u64,
                        payload_len: uint_at(s, 24, 4) as u32,
                        header_crc: uint_at(s, 28, 4) as u32,
                    },
                    s.skip(32),
                ),
            ),
        }
    }
}

/// The bytes of the fixed part of an extension header, before `rest`.
#[verifier::opaque]
pub open spec fn ext_fixed_bytes(p: DataExtHeader, rest: Seq<u8>) -> Seq<u8> {
    be_bytes(p.verb.code() as nat, 1) + (
    be_bytes(p.ext_flags.spec_bits() as nat, 1) + (
    be_bytes(0, 2) + (
    be_bytes(p.mr_handle as nat, 4) + (
    be_bytes(p.jetty_src as nat, 4) + (
    be_bytes(p.jetty_dst as nat, 4) + (
    be_bytes(p.opaque as nat, 8) + (
    be_bytes(p.frag_id as nat, 4) + (
    be_bytes(p.frag_index as nat, 2) + (
    be_bytes(p.frag_total as nat, 2) + (
    be_bytes(p.ub_addr.0 as nat, 16) + rest))))))))))
}

/// The fixed part of an extension header in the first bytes of `s`, which holds one at
/// least.
#[verifier::opaque]
pub open spec fn take_ext_fixed(s: Seq<u8>) -> Parsed<DataExtHeader> {
    match Verb::of_code(uint_at(s, 0, 1) as u8) {
        None => Err("unknown verb: "@ + dec_text(uint_at(s, 0, 1))),
        Some(verb) => Ok(
            (
                DataExtHeader {
                    verb,
                    ext_flags: ExtFlags::of_bits(uint_at(s, 1, 1) as u8),
                    mr_handle: uint_at(s, 4, 4) as u32,
                    jetty_src: uint_at(s, 8, 4) as u32,
                    jetty_dst: uint_at(s, 12, 4) as u32,
                    opaque: uint_at(s, 16, 8) as u64,
                    frag_id: uint_at(s, 24, 4) as u32,
                    frag_index: uint_at(s, 28, 2) as u16,
                    frag_total: uint_at(s, 30, 2) as u16,
                    ub_addr: UbAddr(uint_at(s, 32, 16) as u128),
                    imm: None,
                },
                s.skip(48),
            ),
        ),
    }
}

/// The bytes of an extension header, before `rest`. An immediate value is written where
/// there is one.
pub open spec fn ext_bytes(p: DataExtHeader, rest: Seq<u8>) -> Seq<u8> {
    match p.imm {
        Some(v) => ext_fixed_bytes(p, be_bytes(v as nat, 8) + rest),
        None => ext_fixed_bytes(p, rest),
    }
}

/// Whether the flag for an immediate value is set.
pub open spec fn says_imm(f: ExtFlags) -> bool {
    f.spec_bits() & 0x01 == 0x01
}

/// The extension header in the first bytes of `s`. An immediate value follows the fixed
/// part where the flag for it is set.
pub open spec fn take_ext(s: Seq<u8>) -> Parsed<DataExtHeader> {
    match take_ext_fixed(s) {
        Err(e) => Err(e),
        Ok((p, left)) => if !says_imm(p.ext_flags) {
            Ok((p, left))
        } else if left.len() < 8 {
            Err(short_input())
        } else {
            Ok((DataExtHeader { imm: Some(uint_at(left, 0, 8) as u64), ..p }, left.skip(8)))
        },
    }
}

/// The bytes of a frame.
pub open spec fn frame_bytes(
    header: FrameHeader,
    ext: Option<DataExtHeader>,
    payload: Seq<u8>,
) -> Seq<u8> {
    match ext {
        Some(x) => header_bytes(header, ext_bytes(x, payload)),
        None => header_bytes(header, payload),
    }
}

/// What the bytes of a frame hold: header, extension header of a data frame, payload.
pub open spec fn parse_frame(s: Seq<u8>) -> Result<
    (FrameHeader, Option<DataExtHeader>, Seq<u8>),
    Seq<char>,
> {
    if s.len() < FRAME_HEADER_SIZE {
        Err("frame too short for header"@)
    } else {
        match take_header(s) {
            Err(e) => Err(e),
            Ok((h, s1)) => if h.frame_type == FrameType::Data {
                if s1.len() < DATA_EXT_HEADER_SIZE {
                    Err("DATA ext header too short"@)
                } else {
                    match take_ext(s1) {
                        Err(e) => Err(e),
                        Ok((x, s2)) => Ok((h, Some(x), s2)),
                    }
                }
            } else {
                Ok((h, None, s1))
            },
        }
    }
}

/// Whether a frame says of itself what it holds: this version's header, known flags, an
/// extension header on data frames alone, and the flag for an immediate value where there
/// is one.
pub open spec fn consistent(header: FrameHeader, ext: Option<DataExtHeader>) -> bool {
    &&& header.magic == MAGIC
    &&& header.version == VERSION
    &&& header.flags.known()
    &&& (header.frame_type == FrameType::Data) == (ext is Some)
    &&& ext matches Some(x) ==> x.ext_flags.known() && says_imm(x.ext_flags) == (x.imm is Some)
}

/// Decoding gives back what was encoded, whatever follows it. Each number
/// stands at its own place, high-order byte first.
pub proof fn lemma_header_round_trip(p: FrameHeader, rest: Seq<u8>)
    requires
        p.magic == MAGIC,
        p.version == VERSION,
        p.flags.known(),
    ensures
        take_header(header_bytes(p, rest)) == parsed(p, rest),
        header_bytes(p, rest).len() == 32 + rest.len(),
        uint_at(header_bytes(p, rest), 0, 4) == p.magic,
        uint_at(header_bytes(p, rest), 4, 1) == p.version,
        uint_at(header_bytes(p, rest), 5, 1) == p.frame_type.code(),
        uint_at(header_bytes(p, rest), 6, 2) == p.flags.spec_bits(),
        uint_at(header_bytes(p, rest), 8, 2) == p.src_node,
        uint_at(header_bytes(p, rest), 10, 2) == p.dst_node,
        uint_at(header_bytes(p, rest), 12, 4) == p.reserved,
        uint_at(header_bytes(p, rest), 16, 8) == p.stream_seq,
        uint_at(header_bytes(p, rest), 24, 4) == p.payload_len,
        uint_at(header_bytes(p, rest), 28, 4) == p.header_crc,
{
    broadcast use lemma_be_bytes_len;

    reveal(header_bytes);
    let r10 = rest;
    let r9 = be_bytes(p.header_crc as nat, 4) + r10;
    let r8 = be_bytes(p.payload_len as nat, 4) + r9;
    let r7 = be_bytes(p.stream_seq as nat, 8) + r8;
    let r6 = be_bytes(p.reserved as nat, 4) + r7;
    let r5 = be_bytes(p.dst_node as nat, 2) + r6;
    let r4 = be_bytes(p.src_node as nat, 2) + r5;
    let r3 = be_bytes(p.flags.spec_bits() as nat, 2) + r4;
    let r2 = be_bytes(p.frame_type.code() as nat, 1) + r3;
    let r1 = be_bytes(p.version as nat, 1) + r2;
    let r0 = be_bytes(p.magic as nat, 4) + r1;
    lemma_pow256_values();
    assert(r0.skip(0) =~= r0);
    lemma_uint_at(r0, 0, p.magic as nat, 4, r1);
    lemma_uint_at(r0, 4, p.version as nat, 1, r2);
    lemma_uint_at(r0, 5, p.frame_type.code() as nat, 1, r3);
    p.frame_type.lemma_code(0);
    lemma_uint_at(r0, 6, p.flags.spec_bits() as nat, 2, r4);
    p.flags.lemma_of_bits();
    lemma_uint_at(r0, 8, p.src_node as nat, 2, r5);
    lemma_uint_at(r0, 10, p.dst_node as nat, 2, r6);
    lemma_uint_at(r0, 12, p.reserved as nat, 4, r7);
    lemma_uint_at(r0, 16, p.stream_seq as nat, 8, r8);
    lemma_uint_at(r0, 24, p.payload_len as nat, 4, r9);
    lemma_uint_at(r0, 28, p.header_crc as nat, 4, r10);
    reveal(take_header);
}

/// Decoding gives back what was encoded, whatever follows it. Each number
/// stands at its own place, high-order byte first.
pub proof fn lemma_ext_fixed_round_trip(p: DataExtHeader, rest: Seq<u8>)
    requires
        p.ext_flags.known(),
    ensures
        take_ext_fixed(ext_fixed_bytes(p, rest)) == parsed(DataExtHeader { imm: None, ..p }, rest),
        ext_fixed_bytes(p, rest).len() == 48 + rest.len(),
        uint_at(ext_fixed_bytes(p, rest), 0, 1) == p.verb.code(),
        uint_at(ext_fixed_bytes(p, rest), 1, 1) == p.ext_flags.spec_bits(),
        uint_at(ext_fixed_bytes(p, rest), 2, 2) == 0,
        uint_at(ext_fixed_bytes(p, rest), 4, 4) == p.mr_handle,
        uint_at(ext_fixed_bytes(p, rest), 8, 4) == p.jetty_src,
        uint_at(ext_fixed_bytes(p, rest), 12, 4) == p.jetty_dst,
        uint_at(ext_fixed_bytes(p, rest), 16, 8) == p.opaque,
        uint_at(ext_fixed_bytes(p, rest), 24, 4) == p.frag_id,
        uint_at(ext_fixed_bytes(p, rest), 28, 2) == p.frag_index,
        uint_at(ext_fixed_bytes(p, rest), 30, 2) == p.frag_total,
        uint_at(ext_fixed_bytes(p, rest), 32, 16) == p.ub_addr.0,
{
    broadcast use lemma_be_bytes_len;

    reveal(ext_fixed_bytes);
    let r11 = rest;
    let r10 = be_bytes(p.ub_addr.0 as nat, 16) + r11;
    let r9 = be_bytes(p.frag_total as nat, 2) + r10;
    let r8 = be_bytes(p.frag_index as nat, 2) + r9;
    let r7 = be_bytes(p.frag_id as nat, 4) + r8;
    let r6 = be_bytes(p.opaque as nat, 8) + r7;
    let r5 = be_bytes(p.jetty_dst as nat, 4) + r6;
    let r4 = be_bytes(p.jetty_src as nat, 4) + r5;
    let r3 = be_bytes(p.mr_handle as nat, 4) + r4;
    let r2 = be_bytes(0, 2) + r3;
    let r1 = be_bytes(p.ext_flags.spec_bits() as nat, 1) + r2;
    let r0 = be_bytes(p.verb.code() as nat, 1) + r1;
    lemma_pow256_values();
    assert(r0.skip(0) =~= r0);
    lemma_uint_at(r0, 0, p.verb.code() as nat, 1, r1);
    p.verb.lemma_code(0);
    lemma_uint_at(r0, 1, p.ext_flags.spec_bits() as nat, 1, r2);
    p.ext_flags.lemma_of_bits();
    lemma_uint_at(r0, 2, 0, 2, r3);
    lemma_uint_at(r0, 4, p.mr_handle as nat, 4, r4);
    lemma_uint_at(r0, 8, p.jetty_src as nat, 4, r5);
    lemma_uint_at(r0, 12, p.jetty_dst as nat, 4, r6);
    lemma_uint_at(r0, 16, p.opaque as nat, 8, r7);
    lemma_uint_at(r0, 24, p.frag_id as nat, 4, r8);
    lemma_uint_at(r0, 28, p.frag_index as nat, 2, r9);
    lemma_uint_at(r0, 30, p.frag_total as nat, 2, r10);
    lemma_uint_at(r0, 32, p.ub_addr.0 as nat, 16, r11);
    reveal(take_ext_fixed);
}

/// Decoding an encoded frame gives back header, extension header and payload.
pub proof fn lemma_frame_round_trip(
    header: FrameHeader,
    ext: Option<DataExtHeader>,
    payload: Seq<u8>,
)
    requires
        consistent(header, ext),
    ensures
        parse_frame(frame_bytes(header, ext, payload)) == Ok::<
            (FrameHeader, Option<DataExtHeader>, Seq<u8>),
            Seq<char>,
        >((header, ext, payload)),
{
    match ext {
        Some(x) => {
            match x.imm {
                Some(v) => {
                    lemma_pow256_values();
                    let tail = be_bytes(v as nat, 8) + payload;
                    assert(tail.skip(0) =~= tail);
                    lemma_uint_at(tail, 0, v as nat, 8, payload);
                    lemma_ext_fixed_round_trip(x, tail);
                },
                None => {
                    lemma_ext_fixed_round_trip(x, payload);
                },
            }
            lemma_header_round_trip(header, ext_bytes(x, payload));
        },
        None => {
            lemma_header_round_trip(header, payload);
        },
    }
}

fn magic_message(magic: u32) -> (r: String)
    ensures
        r@ == "invalid magic: 0x"@ + hex_text(magic as nat, 8),
{
    let mut out = String::from_str("invalid magic: 0x");
    push_hex(&mut out, magic as u64, 8);
    out
}

fn put_header(buf: &mut Vec<u8>, header: &FrameHeader)
    ensures
        final(buf)@ == old(buf)@ + header_bytes(*header, Seq::empty()),
{
    broadcast use lemma_be_bytes_len;

    reveal(header_bytes);
    put_u32(buf, header.magic);
    put_u8(buf, header.version);
    put_u8(buf, header.frame_type.to_u8());
    put_u16(buf, header.flags.bits());
    put_u16(buf, header.src_node);
    put_u16(buf, header.dst_node);
    put_u32(buf, header.reserved);
    put_u64(buf, header.stream_seq);
    put_u32(buf, header.payload_len);
    put_u32(buf, header.header_crc);
    assert(buf@ =~= old(buf)@ + header_bytes(*header, Seq::empty()));
}

fn put_ext(buf: &mut Vec<u8>, ext: &DataExtHeader)
    ensures
        final(buf)@ == old(buf)@ + ext_bytes(*ext, Seq::empty()),
{
    broadcast use lemma_be_bytes_len;

    reveal(ext_fixed_bytes);
    put_u8(buf, ext.verb.to_u8());
    put_u8(buf, ext.ext_flags.bits());
    put_u16(buf, 0);
    put_u32(buf, ext.mr_handle);
    put_u32(buf, ext.jetty_src);
    put_u32(buf, ext.jetty_dst);
    put_u64(buf, ext.opaque);
    put_u32(buf, ext.frag_id);
    put_u16(buf, ext.frag_index);
    put_u16(buf, ext.frag_total);
    put_slice(buf, &ext.ub_addr.to_bytes());
    if let Some(imm) = ext.imm {
        put_u64(buf, imm);
    }
    assert(buf@ =~= old(buf)@ + ext_bytes(*ext, Seq::empty()));
}

proof fn lemma_header_first(p: FrameHeader, rest: Seq<u8>)
    ensures
        header_bytes(p, rest) == header_bytes(p, Seq::empty()) + rest,
{
    broadcast use lemma_be_bytes_len;

    reveal(header_bytes);
    assert(header_bytes(p, rest) =~= header_bytes(p, Seq::empty()) + rest);
}

proof fn lemma_ext_first(p: DataExtHeader, rest: Seq<u8>)
    ensures
        ext_bytes(p, rest) == ext_bytes(p, Seq::empty()) + rest,
{
    broadcast use lemma_be_bytes_len;

    reveal(ext_fixed_bytes);
    assert(ext_bytes(p, rest) =~= ext_bytes(p, Seq::empty()) + rest);
}

proof fn lemma_frame_pieces(header: FrameHeader, ext: Option<DataExtHeader>, payload: Seq<u8>)
    ensures
        frame_bytes(header, ext, payload) == match ext {
            Some(x) => header_bytes(header, Seq::empty()) + ext_bytes(x, Seq::empty()) + payload,
            None => header_bytes(header, Seq::empty()) + payload,
        },
{
    match ext {
        Some(x) => {
            lemma_ext_first(x, payload);
            lemma_header_first(header, ext_bytes(x, payload));
            assert(frame_bytes(header, ext, payload) =~= header_bytes(header, Seq::empty())
                + ext_bytes(x, Seq::empty()) + payload);
        },
        None => {
            lemma_header_first(header, payload);
        },
    }
}

/// The bytes of a complete frame.
pub fn frame_to_vec(header: &FrameHeader, ext: Option<&DataExtHeader>, payload: &[u8]) -> (r: Vec<
    u8,
>)
    ensures
        r@ == frame_bytes(
            *header,
            match ext {
                Some(x) => Some(*x),
                None => None,
            },
            payload@,
        ),
{
    let mut buf: Vec<u8> = Vec::new();
    put_header(&mut buf, header);
    match ext {
        Some(x) => {
            put_ext(&mut buf, x);
            put_slice(&mut buf, payload);
            proof {
                lemma_frame_pieces(*header, Some(*x), payload@);
                assert(buf@ =~= header_bytes(*header, Seq::empty()) + ext_bytes(*x, Seq::empty())
                    + payload@);
            }
        },
        None => {
            put_slice(&mut buf, payload);
            proof {
                lemma_frame_pieces(*header, None, payload@);
                assert(buf@ =~= header_bytes(*header, Seq::empty()) + payload@);
            }
        },
    }
    buf
}

/// Encodes a complete frame: header, extension header where there is one, payload.
pub fn encode_frame(
    header: &FrameHeader,
    ext: Option<&DataExtHeader>,
    payload: &[u8],
) -> (r: BytesMut)
    ensures
        bytes_contents(r) == frame_bytes(
            *header,
            match ext {
                Some(x) => Some(*x),
                None => None,
            },
            payload@,
        ),
{
    bytes_from(frame_to_vec(header, ext, payload).as_slice())
}

fn read_header(cur: &mut Reader) -> (r: Result<FrameHeader, UbError>)
    requires
        old(cur).wf(),
        old(cur).rest().len() >= FRAME_HEADER_SIZE,
    ensures
        final(cur).wf(),
        match r {
            Ok(v) => take_header(old(cur).rest()) == parsed(v, final(cur).rest()),
            Err(e) => take_header(old(cur).rest()) matches Err(t) && e.is_internal(t),
        },
{
    broadcast use lemma_take_uint_at;

    reveal(take_header);
    let magic = match cur.u32() {
        Ok(v) => v,
        Err(e) => return Err(e),
    };
    if magic != MAGIC {
        return Err(UbError::Internal(magic_message(magic)));
    }
    let version = match cur.u8() {
        Ok(v) => v,
        Err(e) => return Err(e),
    };
    if version != VERSION {
        return Err(UbError::Internal(with_dec("version mismatch: ", version as u64)));
    }
    let frame_type_code = match cur.u8() {
        Ok(v) => v,
        Err(e) => return Err(e),
    };
    let frame_type = match FrameType::from_u8(frame_type_code) {
        Some(v) => v,
        None => return Err(
            UbError::Internal(with_dec("unknown frame type: ", frame_type_code as u64)),
        ),
    };
    let flags_bits = match cur.u16() {
        Ok(v) => v,
        Err(e) => return Err(e),
    };
    let flags = FrameFlags::from_bits_truncate(flags_bits);
    let src_node = match cur.u16() {
        Ok(v) => v,
        Err(e) => return Err(e),
    };
    let dst_node = match cur.u16() {
        Ok(v) => v,
        Err(e) => return Err(e),
    };
    let reserved = match cur.u32() {
        Ok(v) => v,
        Err(e) => return Err(e),
    };
    let stream_seq = match cur.u64() {
        Ok(v) => v,
        Err(e) => return Err(e),
    };
    let payload_len = match cur.u32() {
        Ok(v) => v,
        Err(e) => return Err(e),
    };
    let header_crc = match cur.u32() {
        Ok(v) => v,
        Err(e) => return Err(e),
    };
    Ok(
        FrameHeader {
            magic,
            version,
            frame_type,
            flags,
            src_node,
            dst_node,
            reserved,
            stream_seq,
            payload_len,
            header_crc,
        },
    )
}

fn read_ext(cur: &mut Reader) -> (r: Result<DataExtHeader, UbError>)
    requires
        old(cur).wf(),
        old(cur).rest().len() >= DATA_EXT_HEADER_SIZE,
    ensures
        final(cur).wf(),
        match r {
            Ok(v) => take_ext(old(cur).rest()) == parsed(v, final(cur).rest()),
            Err(e) => take_ext(old(cur).rest()) matches Err(t) && e.is_internal(t),
        },
{
    broadcast use lemma_take_uint_at;

    reveal(take_ext_fixed);
    let verb_code = match cur.u8() {
        Ok(v) => v,
        Err(e) => return Err(e),
    };
    let verb = match Verb::from_u8(verb_code) {
        Some(v) => v,
        None => return Err(UbError::Internal(with_dec("unknown verb: ", verb_code as u64))),
    };
    let ext_flags_bits = match cur.u8() {
        Ok(v) => v,
        Err(e) => return Err(e),
    };
    let ext_flags = ExtFlags::from_bits_truncate(ext_flags_bits);
    let _pad = match cur.u16() {
        Ok(v) => v,
        Err(e) => return Err(e),
    };
    let mr_handle = match cur.u32() {
        Ok(v) => v,
        Err(e) => return Err(e),
    };
    let jetty_src = match cur.u32() {
        Ok(v) => v,
        Err(e) => return Err(e),
    };
    let jetty_dst = match cur.u32() {
        Ok(v) => v,
        Err(e) => return Err(e),
    };
    let opaque = match cur.u64() {
        Ok(v) => v,
        Err(e) => return Err(e),
    };
    let frag_id = match cur.u32() {
        Ok(v) => v,
        Err(e) => return Err(e),
    };
    let frag_index = match cur.u16() {
        Ok(v) => v,
        Err(e) => return Err(e),
    };
    let frag_total = match cur.u16() {
        Ok(v) => v,
        Err(e) => return Err(e),
    };
    let ub_addr_value = match cur.u128() {
        Ok(v) => v,
        Err(e) => return Err(e),
    };
    let ub_addr = UbAddr(ub_addr_value);
    let imm = if ext_flags.contains(ExtFlags::has_imm()) {
        match cur.u64() {
            Ok(v) => Some(v),
            Err(e) => return Err(e),
        }
    } else {
        None
    };
    Ok(
        DataExtHeader {
            verb,
            ext_flags,
            mr_handle,
            jetty_src,
            jetty_dst,
            opaque,
            frag_id,
            frag_index,
            frag_total,
            ub_addr,
            imm,
        },
    )
}

/// Decodes a complete frame into header, extension header and payload.
pub fn decode_frame(buf: &[u8]) -> (r: Result<(FrameHeader, Option<DataExtHeader>, &[u8]), UbError>)
    ensures
        match r {
            Ok(f) => parse_frame(buf@) == Ok::<
                (FrameHeader, Option<DataExtHeader>, Seq<u8>),
                Seq<char>,
            >((f.0, f.1, f.2@)),
            Err(e) => parse_frame(buf@) matches Err(t) && e.is_internal(t),
        },
{
    if buf.len() < FRAME_HEADER_SIZE {
        return Err(UbError::internal("frame too short for header"));
    }
    let mut cur = Reader::new(buf);
    let header = match read_header(&mut cur) {
        Ok(h) => h,
        Err(e) => return Err(e),
    };
    if header.frame_type == FrameType::Data {
        if cur.left() < DATA_EXT_HEADER_SIZE {
            return Err(UbError::internal("DATA ext header too short"));
        }
        match read_ext(&mut cur) {
            Ok(x) => Ok((header, Some(x), cur.remaining())),
            Err(e) => Err(e),
        }
    } else {
        Ok((header, None, cur.remaining()))
    }
}

/// The bytes of an ACK payload.
pub open spec fn ack_bytes(p: AckView) -> Seq<u8> {
    be_bytes(p.ack_seq as nat, 8) + (be_bytes(p.credit_grant as nat, 4) + (be_bytes(
        p.reserved as nat,
        4,
    ) + match p.sack {
        Some(b) => b,
        None => Seq::empty(),
    }))
}

/// What an ACK payload holds. The frame header says whether a bitmap follows.
pub open spec fn parse_ack(s: Seq<u8>, has_sack: bool) -> Result<AckView, Seq<char>> {
    if s.len() < 16 {
        Err("ACK payload too short"@)
    } else if has_sack && s.len() < 48 {
        Err("ACK payload too short for SACK"@)
    } else {
        Ok(
            AckView {
                ack_seq: uint_at(s, 0, 8) as u64,
                credit_grant: uint_at(s, 8, 4) as u32,
                reserved: uint_at(s, 12, 4) as u32,
                sack: if has_sack {
                    Some(s.subrange(16, 48))
                } else {
                    None
                },
            },
        )
    }
}

/// Decoding an encoded ACK payload gives it back. Each number stands at its
/// own place, high-order byte first.
pub proof fn lemma_ack_round_trip(p: AckView)
    requires
        p.sack matches Some(b) ==> b.len() == 32,
    ensures
        parse_ack(ack_bytes(p), p.sack is Some) == Ok::<AckView, Seq<char>>(p),
        uint_at(ack_bytes(p), 0, 8) == p.ack_seq,
        uint_at(ack_bytes(p), 8, 4) == p.credit_grant,
        uint_at(ack_bytes(p), 12, 4) == p.reserved,
{
    broadcast use lemma_be_bytes_len;

    let tail = match p.sack {
        Some(b) => b,
        None => Seq::empty(),
    };
    let r2 = be_bytes(p.reserved as nat, 4) + tail;
    let r1 = be_bytes(p.credit_grant as nat, 4) + r2;
    let r0 = be_bytes(p.ack_seq as nat, 8) + r1;
    lemma_pow256_values();
    assert(r0.skip(0) =~= r0);
    lemma_uint_at(r0, 0, p.ack_seq as nat, 8, r1);
    lemma_uint_at(r0, 8, p.credit_grant as nat, 4, r2);
    lemma_uint_at(r0, 12, p.reserved as nat, 4, tail);
    assert(tail.len() == 32 ==> r0.subrange(16, 48) =~= r0.skip(16));
}

/// The bytes of an ACK payload, as a vector.
pub fn ack_to_vec(ack: &AckPayload) -> (r: Vec<u8>)
    ensures
        r@ == ack_bytes(ack@),
{
    broadcast use lemma_be_bytes_len;

    let mut buf: Vec<u8> = Vec::new();
    put_u64(&mut buf, ack.ack_seq);
    put_u32(&mut buf, ack.credit_grant);
    put_u32(&mut buf, ack.reserved);
    match &ack.sack_bitmap {
        Some(bitmap) => {
            put_slice(&mut buf, bitmap.as_slice());
        },
        None => {},
    }
    assert(buf@ =~= ack_bytes(ack@));
    buf
}

/// Encodes an ACK payload.
pub fn encode_ack_payload(ack: &AckPayload) -> (r: BytesMut)
    ensures
        bytes_contents(r) == ack_bytes(ack@),
{
    bytes_from(ack_to_vec(ack).as_slice())
}

/// Decodes an ACK payload.
pub fn decode_ack_payload(buf: &[u8], has_sack: bool) -> (r: Result<AckPayload, UbError>)
    ensures
        match r {
            Ok(p) => parse_ack(buf@, has_sack) == Ok::<AckView, Seq<char>>(p@),
            Err(e) => parse_ack(buf@, has_sack) matches Err(t) && e.is_internal(t),
        },
{
    broadcast use lemma_take_uint_at;

    if buf.len() < 16 {
        return Err(UbError::internal("ACK payload too short"));
    }
    let mut cur = Reader::new(buf);
    let ack_seq = match cur.u64() {
        Ok(v) => v,
        Err(e) => return Err(e),
    };
    let credit_grant = match cur.u32() {
        Ok(v) => v,
        Err(e) => return Err(e),
    };
    let reserved = match cur.u32() {
        Ok(v) => v,
        Err(e) => return Err(e),
    };
    if !has_sack {
        return Ok(AckPayload { ack_seq, credit_grant, reserved, sack_bitmap: None });
    }
    if buf.len() < 48 {
        return Err(UbError::internal("ACK payload too short for SACK"));
    }
    let bits = match cur.run(32) {
        Ok(v) => v,
        Err(e) => return Err(e),
    };
    let mut bitmap: [u8; 32] = [0;32];
    let mut i: usize = 0;
    while i < 32
        invariant
            i <= 32,
            bits@.len() == 32,
            forall|k: int| 0 <= k < i ==> bitmap@[k] == bits@[k],
        decreases 32 - i,
    {
        bitmap[i] = bits[i];
        i = i + 1;
    }
    assert(bitmap@ =~= buf@.subrange(16, 48));
    Ok(AckPayload { ack_seq, credit_grant, reserved, sack_bitmap: Some(bitmap) })
}

/// The bytes of a CREDIT payload.
pub open spec fn credit_bytes(p: CreditPayload) -> Seq<u8> {
    be_bytes(p.credits as nat, 4) + be_bytes(p.reserved as nat, 4)
}

/// What a CREDIT payload holds.
pub open spec fn parse_credit(s: Seq<u8>) -> Result<CreditPayload, Seq<char>> {
    if s.len() < 8 {
        Err("CREDIT payload too short"@)
    } else {
        Ok(
            CreditPayload {
                credits: uint_at(s, 0, 4) as u32,
                reserved: uint_at(s, 4, 4) as u32,
            },
        )
    }
}

/// Decoding an encoded CREDIT payload gives it back. Each number stands at its
/// own place, high-order byte first.
pub proof fn lemma_credit_round_trip(p: CreditPayload)
    ensures
        parse_credit(credit_bytes(p)) == Ok::<CreditPayload, Seq<char>>(p),
        uint_at(credit_bytes(p), 0, 4) == p.credits,
        uint_at(credit_bytes(p), 4, 4) == p.reserved,
{
    broadcast use lemma_be_bytes_len;

    let r1 = be_bytes(p.reserved as nat, 4) + Seq::<u8>::empty();
    let r0 = be_bytes(p.credits as nat, 4) + r1;
    assert(r0 =~= credit_bytes(p));
    lemma_pow256_values();
    assert(r0.skip(0) =~= r0);
    lemma_uint_at(r0, 0, p.credits as nat, 4, r1);
    lemma_uint_at(r0, 4, p.reserved as nat, 4, Seq::empty());
}

/// The bytes of a CREDIT payload, as a vector.
pub fn credit_to_vec(credit: &CreditPayload) -> (r: Vec<u8>)
    ensures
        r@ == credit_bytes(*credit),
{
    let mut buf: Vec<u8> = Vec::new();
    put_u32(&mut buf, credit.credits);
    put_u32(&mut buf, credit.reserved);
    assert(buf@ =~= credit_bytes(*credit));
    buf
}

/// Encodes a CREDIT payload.
pub fn encode_credit_payload(credit: &CreditPayload) -> (r: BytesMut)
    ensures
        bytes_contents(r) == credit_bytes(*credit),
{
    bytes_from(credit_to_vec(credit).as_slice())
}

/// Decodes a CREDIT payload.
pub fn decode_credit_payload(buf: &[u8]) -> (r: Result<CreditPayload, UbError>)
    ensures
        match r {
            Ok(p) => parse_credit(buf@) == Ok::<CreditPayload, Seq<char>>(p),
            Err(e) => parse_credit(buf@) matches Err(t) && e.is_internal(t),
        },
{
    broadcast use lemma_take_uint_at;

    if buf.len() < 8 {
        return Err(UbError::internal("CREDIT payload too short"));
    }
    let mut cur = Reader::new(buf);
    let credits = match cur.u32() {
        Ok(v) => v,
        Err(e) => return Err(e),
    };
    let reserved = match cur.u32() {
        Ok(v) => v,
        Err(e) => return Err(e),
    };
    Ok(CreditPayload { credits, reserved })
}

} // verus!
