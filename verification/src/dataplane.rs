//! The data plane: remote verbs as frames, and what arriving frames do.
use crate::addr::UbAddr;
use crate::be::{
    be_bytes, be_value, lemma_be_bytes_len, lemma_pow256_values, lemma_value_of_bytes,
};
use crate::codec::{decode_frame, frame_bytes, frame_to_vec, lemma_frame_round_trip, parse_frame};
use crate::device::lemma_word;
use crate::error::{UbError, UB_OK};
use crate::frame::{
    DataExtHeader, ExtFlags, FrameFlags, FrameHeader, FrameType, OutFrame, MAGIC, VERSION,
};
use crate::jetty::{JettyTable, JettyTableView, JettyView, RecvBuffer};
use crate::mr::{MrCacheEntry, MrCacheTable, MrEntry, MrTable, MrTableView};
use crate::table::Table;
use crate::text::{dec_text, with_dec};
use crate::types::{Cqe, JettyAddr, Verb};
use crate::wire::{put_u32, put_u64, Reader};
use vstd::prelude::*;
use vstd::slice::slice_to_vec;

verus! {

/// The largest payload of a frame: a packet of 1400 bytes without 80 bytes of headers.
pub const MAX_PAYLOAD_SIZE: usize = 1320;

/// The outcome of a remote operation.
#[derive(Debug)]
pub struct VerbResponse {
    pub status: u32,
    pub data: Vec<u8>,
}

/// A frame that a response is expected to, and the identifier of the response.
#[derive(Debug)]
pub struct Request {
    pub dst: u16,
    pub opaque: u64,
    pub frame: Vec<u8>,
}

/// What to do about an arrived frame.
#[derive(Debug)]
pub enum Incoming {
    /// Nothing more.
    Nothing,
    /// Send this frame back.
    Reply(Vec<u8>),
    /// Hand the response to whoever waits for it.
    Completed { opaque: u64, response: VerbResponse },
}

/// The header of a data frame.
pub open spec fn data_header(src: u16, dst: u16, payload_len: nat, flags: FrameFlags) -> FrameHeader {
    FrameHeader {
        magic: MAGIC,
        version: VERSION,
        frame_type: FrameType::Data,
        flags,
        src_node: src,
        dst_node: dst,
        reserved: 0,
        stream_seq: 0,
        payload_len: (payload_len % 0x1_0000_0000) as u32,
        header_crc: 0,
    }
}

/// The extension header of a frame without fragments.
pub open spec fn data_ext(
    verb: Verb,
    mr_handle: u32,
    ub_addr: UbAddr,
    opaque: u64,
    ext_flags: ExtFlags,
) -> DataExtHeader {
    DataExtHeader {
        verb,
        ext_flags,
        mr_handle,
        jetty_src: 0,
        jetty_dst: 0,
        opaque,
        frag_id: 0,
        frag_index: 0,
        frag_total: 1,
        ub_addr,
        imm: None,
    }
}

/// A data frame without jettys.
pub open spec fn data_frame(
    src: u16,
    dst: u16,
    ext: DataExtHeader,
    payload: Seq<u8>,
) -> Seq<u8> {
    frame_bytes(data_header(src, dst, payload.len(), FrameFlags::of_bits(0)), Some(ext), payload)
}

/// A data frame between jettys, with an immediate value where there is one.
pub open spec fn jetty_frame(
    src: u16,
    dst: u16,
    verb: Verb,
    mr_handle: u32,
    ub_addr: UbAddr,
    jetty_src: u32,
    jetty_dst: u32,
    imm: Option<u64>,
    opaque: u64,
    payload: Seq<u8>,
) -> Seq<u8> {
    frame_bytes(
        data_header(
            src,
            dst,
            payload.len(),
            FrameFlags::of_bits(
                if imm is Some {
                    0x10
                } else {
                    0
                },
            ),
        ),
        Some(
            DataExtHeader {
                jetty_src,
                jetty_dst,
                imm,
                ..data_ext(
                    verb,
                    mr_handle,
                    ub_addr,
                    opaque,
                    ExtFlags::of_bits(
                        if imm is Some {
                            0x01
                        } else {
                            0
                        },
                    ),
                )
            },
        ),
        payload,
    )
}

/// A plain extension header names no jetty, carries no immediate value and is the one and
/// only fragment.
pub proof fn lemma_data_ext(
    verb: Verb,
    mr_handle: u32,
    ub_addr: UbAddr,
    opaque: u64,
    ext_flags: ExtFlags,
)
    ensures
        ({
            let x = data_ext(verb, mr_handle, ub_addr, opaque, ext_flags);
            &&& x.verb == verb && x.mr_handle == mr_handle && x.ub_addr == ub_addr && x.opaque
                == opaque && x.ext_flags == ext_flags
            &&& x.jetty_src == 0 && x.jetty_dst == 0 && x.imm is None
            &&& x.frag_id == 0 && x.frag_index == 0 && x.frag_total == 1
        }),
{
}

/// The frame that refuses a request: the request's verb, the error flag, the status.
pub open spec fn refusal_frame(local: u16, dst: u16, req: DataExtHeader, status: u32) -> Seq<u8> {
    data_frame(
        local,
        dst,
        data_ext(req.verb, req.mr_handle, req.ub_addr, req.opaque, ExtFlags::of_bits(0x04)),
        be_bytes(status as nat, 4),
    )
}

proof fn lemma_flag_bits()
    ensures
        0u8 & 0x07 == 0,
        1u8 & 0x07 == 1,
        4u8 & 0x07 == 4,
        0u8 & 1 == 0,
        1u8 & 1 == 1,
        4u8 & 1 == 0,
        0u16 & 0x7F == 0,
        0x10u16 & 0x7F == 0x10,
{
    assert(0u8 & 0x07 == 0 && 1u8 & 0x07 == 1 && 4u8 & 0x07 == 4 && 0u8 & 1 == 0 && 1u8 & 1 == 1
        && 4u8 & 1 == 0 && 0u16 & 0x7F == 0 && 0x10u16 & 0x7F == 0x10) by (bit_vector);
}

/// What is put into a data frame comes out of it.
pub proof fn lemma_data_frame(src: u16, dst: u16, ext: DataExtHeader, payload: Seq<u8>)
    requires
        ext.imm is None,
        ext.ext_flags == ExtFlags::of_bits(0) || ext.ext_flags == ExtFlags::of_bits(0x04),
    ensures
        parse_frame(data_frame(src, dst, ext, payload)) == Ok::<
            (FrameHeader, Option<DataExtHeader>, Seq<u8>),
            Seq<char>,
        >((data_header(src, dst, payload.len(), FrameFlags::of_bits(0)), Some(ext), payload)),
{
    broadcast use {FrameFlags::lemma_truncated, ExtFlags::lemma_truncated};

    lemma_flag_bits();
    let h = data_header(src, dst, payload.len(), FrameFlags::of_bits(0));
    assert(FrameFlags::of_bits(0).spec_bits() == 0);
    assert(ext.ext_flags.spec_bits() == 0 || ext.ext_flags.spec_bits() == 4);
    lemma_frame_round_trip(h, Some(ext), payload);
}

/// What is put into a frame between jettys comes out of it.
pub proof fn lemma_jetty_frame(
    src: u16,
    dst: u16,
    verb: Verb,
    mr_handle: u32,
    ub_addr: UbAddr,
    jetty_src: u32,
    jetty_dst: u32,
    imm: Option<u64>,
    opaque: u64,
    payload: Seq<u8>,
)
    ensures
        ({
            let p = parse_frame(
                jetty_frame(
                    src,
                    dst,
                    verb,
                    mr_handle,
                    ub_addr,
                    jetty_src,
                    jetty_dst,
                    imm,
                    opaque,
                    payload,
                ),
            );
            &&& p is Ok
            &&& p->Ok_0.0.src_node == src
            &&& p->Ok_0.0.dst_node == dst
            &&& p->Ok_0.1 matches Some(x)
            &&& x.verb == verb
            &&& x.mr_handle == mr_handle
            &&& x.ub_addr == ub_addr
            &&& x.jetty_src == jetty_src
            &&& x.jetty_dst == jetty_dst
            &&& x.imm == imm
            &&& x.opaque == opaque
            &&& p->Ok_0.2 == payload
        }),
{
    broadcast use {FrameFlags::lemma_truncated, ExtFlags::lemma_truncated};

    lemma_flag_bits();
    let hb: u16 = if imm is Some {
        0x10
    } else {
        0
    };
    let xb: u8 = if imm is Some {
        0x01
    } else {
        0
    };
    let h = data_header(src, dst, payload.len(), FrameFlags::of_bits(hb));
    let x = DataExtHeader {
        jetty_src,
        jetty_dst,
        imm,
        ..data_ext(verb, mr_handle, ub_addr, opaque, ExtFlags::of_bits(xb))
    };
    assert(FrameFlags::of_bits(hb).spec_bits() == hb);
    assert(ExtFlags::of_bits(xb).spec_bits() == xb);
    lemma_frame_round_trip(h, Some(x), payload);
}

fn header_of(src: u16, dst: u16, payload: &[u8], flags: FrameFlags) -> (r: FrameHeader)
    ensures
        r == data_header(src, dst, payload@.len(), flags),
{
    FrameHeader {
        magic: MAGIC,
        version: VERSION,
        frame_type: FrameType::Data,
        flags,
        src_node: src,
        dst_node: dst,
        reserved: 0,
        stream_seq: 0,
        payload_len: (payload.len() as u64 % 0x1_0000_0000) as u32,
        header_crc: 0,
    }
}

/// Builds a data frame.
pub fn build_data_frame(
    src_node: u16,
    dst_node: u16,
    verb: Verb,
    mr_handle: u32,
    ub_addr: UbAddr,
    opaque: u64,
    payload: &[u8],
) -> (r: Vec<u8>)
    ensures
        r@ == data_frame(
            src_node,
            dst_node,
            data_ext(verb, mr_handle, ub_addr, opaque, ExtFlags::of_bits(0)),
            payload@,
        ),
{
    build_data_frame_with_flags(
        src_node,
        dst_node,
        verb,
        mr_handle,
        ub_addr,
        opaque,
        payload,
        ExtFlags::empty(),
    )
}

/// Builds a data frame with the given extension flags.
pub fn build_data_frame_with_flags(
    src_node: u16,
    dst_node: u16,
    verb: Verb,
    mr_handle: u32,
    ub_addr: UbAddr,
    opaque: u64,
    payload: &[u8],
    ext_flags: ExtFlags,
) -> (r: Vec<u8>)
    ensures
        r@ == data_frame(
            src_node,
            dst_node,
            data_ext(verb, mr_handle, ub_addr, opaque, ext_flags),
            payload@,
        ),
{
    let header = header_of(src_node, dst_node, payload, FrameFlags::empty());
    let ext = DataExtHeader {
        verb,
        ext_flags,
        mr_handle,
        jetty_src: 0,
        jetty_dst: 0,
        opaque,
        frag_id: 0,
        frag_index: 0,
        frag_total: 1,
        ub_addr,
        imm: None,
    };
    frame_to_vec(&header, Some(&ext), payload)
}

/// Builds a data frame with jettys and, where there is one, an immediate value.
pub fn build_data_frame_ex(
    src_node: u16,
    dst_node: u16,
    verb: Verb,
    mr_handle: u32,
    ub_addr: UbAddr,
    opaque: u64,
    jetty_src: u32,
    jetty_dst: u32,
    imm: Option<u64>,
    payload: &[u8],
) -> (r: Vec<u8>)
    ensures
        r@ == jetty_frame(
            src_node,
            dst_node,
            verb,
            mr_handle,
            ub_addr,
            jetty_src,
            jetty_dst,
            imm,
            opaque,
            payload@,
        ),
{
    let ext_flags = if imm.is_some() {
        ExtFlags::has_imm()
    } else {
        ExtFlags::empty()
    };
    let frame_flags = if imm.is_some() {
        FrameFlags::has_imm()
    } else {
        FrameFlags::empty()
    };
    let header = header_of(src_node, dst_node, payload, frame_flags);
    let ext = DataExtHeader {
        verb,
        ext_flags,
        mr_handle,
        jetty_src,
        jetty_dst,
        opaque,
        frag_id: 0,
        frag_index: 0,
        frag_total: 1,
        ub_addr,
        imm,
    };
    frame_to_vec(&header, Some(&ext), payload)
}

/// The error that a status code of a response stands for.
pub fn status_to_error(status: u32) -> (r: UbError)
    ensures
        1 <= status <= 8 ==> r.spec_status() == status && !(r is Internal),
        status == 0 || status > 8 ==> r.is_internal("unknown status: "@ + dec_text(status as nat)),
{
    match status {
        1 => UbError::AddrInvalid,
        2 => UbError::PermDenied,
        3 => UbError::Alignment,
        4 => UbError::LinkDown,
        5 => UbError::NoResources,
        6 => UbError::Timeout,
        7 => UbError::PayloadTooLarge,
        8 => UbError::Flushed,
        _ => UbError::Internal(with_dec("unknown status: ", status as u64)),
    }
}

/// The device offset that an operation on a region starts at: that of the address, or the
/// region's first where the address lies before it.
pub open spec fn target(e: MrEntry, addr: UbAddr) -> u64 {
    if addr.fields().offset >= e.base_offset {
        addr.fields().offset
    } else {
        e.base_offset
    }
}

fn target_of(e: &MrEntry, addr: UbAddr) -> (r: u64)
    requires
        e.base_ub_addr.fields().offset == e.base_offset,
    ensures
        r == target(*e, addr),
{
    let base: u64 = e.base_ub_addr.offset();
    let off: u64 = addr.offset();
    let in_mr: u64 = if off >= base {
        off - base
    } else {
        0
    };
    e.base_offset + in_mr
}

/// The table after a write frame: the bytes lie at the target where the region exists,
/// allows the verb, and its device is large enough.
pub open spec fn after_write(
    t: MrTableView,
    ext: DataExtHeader,
    payload: Seq<u8>,
    verb: Verb,
) -> MrTableView {
    if write_lands(t, ext, payload, verb) {
        let e = t.entries[ext.mr_handle];
        t.with_device(
            e.device,
            t.devices[e.device.0 as int].with(target(e, ext.ub_addr), payload),
        )
    } else {
        t
    }
}

/// Whether a write frame takes effect.
pub open spec fn write_lands(
    t: MrTableView,
    ext: DataExtHeader,
    payload: Seq<u8>,
    verb: Verb,
) -> bool {
    &&& t.entries.contains_key(ext.mr_handle)
    &&& t.entries[ext.mr_handle].allows(verb)
    &&& t.devices[t.entries[ext.mr_handle].device.0 as int].in_bounds(
        target(t.entries[ext.mr_handle], ext.ub_addr),
        payload.len(),
    )
}

fn apply_write(mr_table: &mut MrTable, ext: &DataExtHeader, payload: &[u8], verb: Verb) -> (r: bool)
    requires
        old(mr_table).wf(),
    ensures
        final(mr_table).wf(),
        final(mr_table)@ == after_write(old(mr_table)@, *ext, payload@, verb),
        r == write_lands(old(mr_table)@, *ext, payload@, verb),
{
    proof {
        mr_table.lemma_view();
    }
    let e = match mr_table.lookup(ext.mr_handle) {
        Some(e) => *e,
        None => return false,
    };
    assert(mr_table@.entry_ok(ext.mr_handle));
    if e.check_perms(verb).is_err() {
        return false;
    }
    let offset: u64 = target_of(&e, ext.ub_addr);
    mr_table.device_write(e.device, offset, payload).is_ok()
}

/// Performs a write frame.
pub fn handle_write(payload: &[u8], ext: &DataExtHeader, mr_table: &mut MrTable)
    requires
        old(mr_table).wf(),
    ensures
        final(mr_table).wf(),
        final(mr_table)@ == after_write(old(mr_table)@, *ext, payload@, Verb::Write),
{
    apply_write(mr_table, ext, payload, Verb::Write);
}

/// How many bytes a read request asks for.
pub open spec fn wanted_len(payload: Seq<u8>) -> nat {
    if payload.len() >= 4 {
        be_value(payload.take(4))
    } else {
        1024
    }
}

/// The frame that answers a read request.
pub open spec fn read_reply(
    t: MrTableView,
    ext: DataExtHeader,
    payload: Seq<u8>,
    local: u16,
    src: u16,
) -> Seq<u8> {
    if !t.entries.contains_key(ext.mr_handle) {
        refusal_frame(local, src, ext, 1)
    } else {
        let e = t.entries[ext.mr_handle];
        let dev = t.devices[e.device.0 as int];
        let off = target(e, ext.ub_addr);
        if !e.allows(Verb::ReadReq) {
            refusal_frame(local, src, ext, 2)
        } else if dev.in_bounds(off, wanted_len(payload)) {
            data_frame(
                local,
                src,
                data_ext(
                    Verb::ReadResp,
                    ext.mr_handle,
                    ext.ub_addr,
                    ext.opaque,
                    ExtFlags::of_bits(0),
                ),
                dev.at(off, wanted_len(payload)),
            )
        } else {
            refusal_frame(local, src, ext, 1)
        }
    }
}

/// An operation starts at the offset of its address, or at the region's first where the
/// address lies before the region.
pub proof fn lemma_target(e: MrEntry, addr: UbAddr)
    ensures
        addr.fields().offset >= e.base_offset ==> target(e, addr) == addr.fields().offset,
        addr.fields().offset < e.base_offset ==> target(e, addr) == e.base_offset,
{
}

/// A write takes effect where the region exists, allows writes and the bytes end on the
/// device, and only there. It changes the bytes from the address on, as many as were
/// written, and no other byte of any device; nothing else of the table changes.
pub proof fn lemma_write_effect(
    t: MrTableView,
    ext: DataExtHeader,
    payload: Seq<u8>,
    verb: Verb,
    d: int,
    i: int,
)
    requires
        t.wf(),
        verb is Write || verb is WriteImm,
        0 <= d < t.devices.len(),
        0 <= i < t.devices[d].bytes.len(),
        t.entries.contains_key(ext.mr_handle) ==> ext.ub_addr.fields().offset
            >= t.entries[ext.mr_handle].base_offset,
    ensures
        ({
            let e = t.entries[ext.mr_handle];
            let at = ext.ub_addr.fields().offset;
            let after = after_write(t, ext, payload, verb);
            let lands = t.entries.contains_key(ext.mr_handle) && e.perms.spec_bits() & 2 == 2 && at
                + payload.len() <= t.devices[e.device.0 as int].bytes.len();
            &&& write_lands(t, ext, payload, verb) <==> lands
            &&& !lands ==> after == t
            &&& after.entries == t.entries
            &&& after.devices.len() == t.devices.len()
            &&& after.devices[d].bytes.len() == t.devices[d].bytes.len()
            &&& after.devices[d].bytes[i] == (if lands && d == e.device.0 && at <= i < at
                + payload.len() {
                payload[i - at]
            } else {
                t.devices[d].bytes[i]
            })
        }),
{
    if t.entries.contains_key(ext.mr_handle) {
        assert(t.entry_ok(ext.mr_handle));
    }
}

/// A read request is refused with status 1 where the region does not exist or the bytes do
/// not end on the device, and with status 2 where the region allows no reads. Otherwise it
/// is answered with the bytes from the address on, as many as its first four bytes ask for,
/// or 1024 where it has fewer.
pub proof fn lemma_read_outcome(
    t: MrTableView,
    ext: DataExtHeader,
    payload: Seq<u8>,
    local: u16,
    src: u16,
)
    requires
        t.entries.contains_key(ext.mr_handle) ==> ext.ub_addr.fields().offset
            >= t.entries[ext.mr_handle].base_offset,
    ensures
        ({
            let e = t.entries[ext.mr_handle];
            let dev = t.devices[e.device.0 as int];
            let at = ext.ub_addr.fields().offset;
            let n: nat = if payload.len() >= 4 {
                be_value(payload.take(4))
            } else {
                1024
            };
            let reply = read_reply(t, ext, payload, local, src);
            &&& !t.entries.contains_key(ext.mr_handle) ==> reply == refusal_frame(
                local,
                src,
                ext,
                1,
            )
            &&& t.entries.contains_key(ext.mr_handle) && e.perms.spec_bits() & 1 != 1 ==> reply
                == refusal_frame(local, src, ext, 2)
            &&& t.entries.contains_key(ext.mr_handle) && e.perms.spec_bits() & 1 == 1 && at + n
                > dev.bytes.len() ==> reply == refusal_frame(local, src, ext, 1)
            &&& t.entries.contains_key(ext.mr_handle) && e.perms.spec_bits() & 1 == 1 && at + n
                <= dev.bytes.len() ==> reply == data_frame(
                local,
                src,
                data_ext(
                    Verb::ReadResp,
                    ext.mr_handle,
                    ext.ub_addr,
                    ext.opaque,
                    ExtFlags::of_bits(0),
                ),
                dev.bytes.subrange(at as int, at + n),
            )
        }),
{
}

/// Builds the frame that refuses a request.
pub fn build_refusal(local_node_id: u16, dst_node: u16, req_ext: &DataExtHeader, status: u32) -> (r:
    Vec<u8>)
    ensures
        r@ == refusal_frame(local_node_id, dst_node, *req_ext, status),
{
    let mut payload: Vec<u8> = Vec::new();
    put_u32(&mut payload, status);
    assert(payload@ =~= be_bytes(status as nat, 4));
    build_data_frame_with_flags(
        local_node_id,
        dst_node,
        req_ext.verb,
        req_ext.mr_handle,
        req_ext.ub_addr,
        req_ext.opaque,
        payload.as_slice(),
        ExtFlags::err_resp(),
    )
}

/// Answers a read request.
pub fn handle_read_req(
    payload: &[u8],
    ext: &DataExtHeader,
    mr_table: &MrTable,
    local_node_id: u16,
    header: &FrameHeader,
) -> (r: Vec<u8>)
    requires
        mr_table.wf(),
    ensures
        r@ == read_reply(mr_table@, *ext, payload@, local_node_id, header.src_node),
{
    proof {
        mr_table.lemma_view();
    }
    let e = match mr_table.lookup(ext.mr_handle) {
        Some(e) => *e,
        None => return build_refusal(local_node_id, header.src_node, ext, 1),
    };
    assert(mr_table@.entry_ok(ext.mr_handle));
    if e.check_perms(Verb::ReadReq).is_err() {
        return build_refusal(local_node_id, header.src_node, ext, 2);
    }
    let mut cur = Reader::new(payload);
    let len: usize = match cur.u32() {
        Ok(n) => n as usize,
        Err(_) => 1024,
    };
    assert(len == wanted_len(payload@));
    let offset: u64 = target_of(&e, ext.ub_addr);
    let mut buf: Vec<u8> = vec![0u8; len];
    match mr_table.device_read(e.device, offset, buf.as_mut_slice()) {
        Ok(_) => build_data_frame(
            local_node_id,
            header.src_node,
            Verb::ReadResp,
            ext.mr_handle,
            ext.ub_addr,
            ext.opaque,
            buf.as_slice(),
        ),
        Err(_) => build_refusal(local_node_id, header.src_node, ext, 1),
    }
}

/// The payload of the answer to an atomic request: the old word and eight zero bytes.
pub open spec fn atomic_payload(old_value: u64) -> Seq<u8> {
    be_bytes(old_value as nat, 8) + be_bytes(0, 4) + be_bytes(0, 4)
}

/// Whether an atomic request with `args` bytes of arguments can be performed, or the status
/// of its refusal.
pub open spec fn atomic_refusal(
    t: MrTableView,
    ext: DataExtHeader,
    payload: Seq<u8>,
    verb: Verb,
    args: nat,
) -> Option<u32> {
    if !t.entries.contains_key(ext.mr_handle) {
        Some(1)
    } else {
        let e = t.entries[ext.mr_handle];
        if !e.allows(verb) {
            Some(2)
        } else if (target(e, ext.ub_addr) - e.base_offset) % 8 != 0 {
            Some(3)
        } else if payload.len() < args || t.devices[e.device.0 as int].atomic_fault(
            target(e, ext.ub_addr),
        ) is Some {
            Some(9)
        } else {
            None
        }
    }
}

/// The frame that answers an atomic request.
pub open spec fn atomic_reply(
    t: MrTableView,
    ext: DataExtHeader,
    refusal: Option<u32>,
    verb: Verb,
    local: u16,
    src: u16,
) -> Seq<u8> {
    match refusal {
        Some(status) => refusal_frame(local, src, ext, status),
        None => {
            let e = t.entries[ext.mr_handle];
            data_frame(
                local,
                src,
                data_ext(verb, ext.mr_handle, ext.ub_addr, ext.opaque, ExtFlags::of_bits(0)),
                atomic_payload(
                    t.devices[e.device.0 as int].word(target(e, ext.ub_addr)),
                ),
            )
        },
    }
}

/// The table after a compare-and-swap request.
pub open spec fn after_cas(t: MrTableView, ext: DataExtHeader, payload: Seq<u8>) -> MrTableView {
    let e = t.entries[ext.mr_handle];
    let dev = t.devices[e.device.0 as int];
    let off = target(e, ext.ub_addr);
    let expect = be_value(payload.take(8));
    let new = be_value(payload.subrange(8, 16));
    if atomic_refusal(t, ext, payload, Verb::AtomicCas, 16) is None && dev.word(off) == expect {
        t.with_device(e.device, dev.with_word(off, new as u64))
    } else {
        t
    }
}

/// The table after a fetch-and-add request.
pub open spec fn after_faa(t: MrTableView, ext: DataExtHeader, payload: Seq<u8>) -> MrTableView {
    let e = t.entries[ext.mr_handle];
    let dev = t.devices[e.device.0 as int];
    let off = target(e, ext.ub_addr);
    let add = be_value(payload.take(8));
    if atomic_refusal(t, ext, payload, Verb::AtomicFaa, 8) is None {
        t.with_device(
            e.device,
            dev.with_word(off, ((dev.word(off) + add) % 0x1_0000_0000_0000_0000) as u64),
        )
    } else {
        t
    }
}

/// An atomic request at an address in or behind a region is refused with status 1 exactly
/// where the region does not exist, with status 2 where it allows no atomic operations, and
/// with status 3 where the distance of the address from the region's start is no multiple
/// of eight. Else it is performed exactly where its arguments are complete and the word
/// lies on the device, at a multiple of eight, and refused with status 9 otherwise.
pub proof fn lemma_atomic_status(
    t: MrTableView,
    ext: DataExtHeader,
    payload: Seq<u8>,
    verb: Verb,
    args: nat,
)
    requires
        verb is AtomicCas || verb is AtomicFaa,
        t.entries.contains_key(ext.mr_handle) ==> ext.ub_addr.fields().offset
            >= t.entries[ext.mr_handle].base_offset,
    ensures
        ({
            let e = t.entries[ext.mr_handle];
            let dev = t.devices[e.device.0 as int];
            let at = ext.ub_addr.fields().offset;
            let exists_here = t.entries.contains_key(ext.mr_handle);
            let allowed = e.perms.spec_bits() & 4 == 4;
            let even = (at - e.base_offset) % 8 == 0;
            let whole = payload.len() >= args && at % 8 == 0 && at + 8 <= dev.bytes.len();
            let r = atomic_refusal(t, ext, payload, verb, args);
            &&& r == Some(1u32) <==> !exists_here
            &&& r == Some(2u32) <==> exists_here && !allowed
            &&& r == Some(3u32) <==> exists_here && allowed && !even
            &&& r is None <==> exists_here && allowed && even && whole
            &&& r == Some(9u32) <==> exists_here && allowed && even && !whole
        }),
{
}

/// A refused atomic request changes nothing. One that is performed changes the eight bytes
/// of its word and no other byte of any device: a compare-and-swap only where the word is
/// the expected one. Nothing else of the table changes.
pub proof fn lemma_atomic_effect(
    t: MrTableView,
    ext: DataExtHeader,
    payload: Seq<u8>,
    d: int,
    i: int,
)
    requires
        t.wf(),
        0 <= d < t.devices.len(),
        0 <= i < t.devices[d].bytes.len(),
        t.entries.contains_key(ext.mr_handle) ==> ext.ub_addr.fields().offset
            >= t.entries[ext.mr_handle].base_offset,
    ensures
        ({
            let e = t.entries[ext.mr_handle];
            let at = ext.ub_addr.fields().offset;
            let cas = after_cas(t, ext, payload);
            let faa = after_faa(t, ext, payload);
            &&& atomic_refusal(t, ext, payload, Verb::AtomicCas, 16) is Some ==> cas == t
            &&& atomic_refusal(t, ext, payload, Verb::AtomicFaa, 8) is Some ==> faa == t
            &&& t.devices[e.device.0 as int].word(at) != be_value(payload.take(8)) ==> cas == t
            &&& cas.entries == t.entries && faa.entries == t.entries
            &&& d != e.device.0 || !(at <= i < at + 8) ==> cas.devices[d].bytes[i]
                == t.devices[d].bytes[i] && faa.devices[d].bytes[i] == t.devices[d].bytes[i]
            &&& cas.devices[d].bytes.len() == t.devices[d].bytes.len()
            &&& faa.devices[d].bytes.len() == t.devices[d].bytes.len()
        }),
{
    broadcast use lemma_be_bytes_len;

    if t.entries.contains_key(ext.mr_handle) {
        assert(t.entry_ok(ext.mr_handle));
        let e = t.entries[ext.mr_handle];
        let dev = t.devices[e.device.0 as int];
        let at = ext.ub_addr.fields().offset;
        let new = be_value(payload.subrange(8, 16)) as u64;
        let sum = ((dev.word(at) + be_value(payload.take(8))) % 0x1_0000_0000_0000_0000) as u64;
        lemma_word(new, dev.little);
        lemma_word(sum, dev.little);
    }
}

fn atomic_answer(
    old_value: u64,
    ext: &DataExtHeader,
    verb: Verb,
    local_node_id: u16,
    src_node: u16,
) -> (r: Vec<u8>)
    ensures
        r@ == data_frame(
            local_node_id,
            src_node,
            data_ext(verb, ext.mr_handle, ext.ub_addr, ext.opaque, ExtFlags::of_bits(0)),
            atomic_payload(old_value),
        ),
{
    let mut payload: Vec<u8> = Vec::new();
    put_u64(&mut payload, old_value);
    put_u32(&mut payload, 0);
    put_u32(&mut payload, 0);
    assert(payload@ =~= atomic_payload(old_value));
    build_data_frame(
        local_node_id,
        src_node,
        verb,
        ext.mr_handle,
        ext.ub_addr,
        ext.opaque,
        payload.as_slice(),
    )
}

/// Performs and answers a compare-and-swap request.
pub fn handle_atomic_cas(
    payload: &[u8],
    ext: &DataExtHeader,
    mr_table: &mut MrTable,
    local_node_id: u16,
    header: &FrameHeader,
) -> (r: Vec<u8>)
    requires
        old(mr_table).wf(),
    ensures
        final(mr_table).wf(),
        final(mr_table)@ == after_cas(old(mr_table)@, *ext, payload@),
        r@ == atomic_reply(
            old(mr_table)@,
            *ext,
            atomic_refusal(old(mr_table)@, *ext, payload@, Verb::AtomicCas, 16),
            Verb::AtomicCasResp,
            local_node_id,
            header.src_node,
        ),
{
    proof {
        mr_table.lemma_view();
    }
    let e = match mr_table.lookup(ext.mr_handle) {
        Some(e) => *e,
        None => return build_refusal(local_node_id, header.src_node, ext, 1),
    };
    assert(mr_table@.entry_ok(ext.mr_handle));
    if e.check_perms(Verb::AtomicCas).is_err() {
        return build_refusal(local_node_id, header.src_node, ext, 2);
    }
    let offset: u64 = target_of(&e, ext.ub_addr);
    if (offset - e.base_offset) % 8 != 0 {
        return build_refusal(local_node_id, header.src_node, ext, 3);
    }
    if payload.len() < 16 {
        return build_refusal(local_node_id, header.src_node, ext, 9);
    }
    let mut cur = Reader::new(payload);
    let expect: u64 = match cur.u64() {
        Ok(v) => v,
        Err(_) => 0,
    };
    let new: u64 = match cur.u64() {
        Ok(v) => v,
        Err(_) => 0,
    };
    assert(payload@.skip(8).take(8) =~= payload@.subrange(8, 16));
    match mr_table.device_cas(e.device, offset, expect, new) {
        Ok(v) => atomic_answer(v, ext, Verb::AtomicCasResp, local_node_id, header.src_node),
        Err(_) => build_refusal(local_node_id, header.src_node, ext, 9),
    }
}

/// Performs and answers a fetch-and-add request.
pub fn handle_atomic_faa(
    payload: &[u8],
    ext: &DataExtHeader,
    mr_table: &mut MrTable,
    local_node_id: u16,
    header: &FrameHeader,
) -> (r: Vec<u8>)
    requires
        old(mr_table).wf(),
    ensures
        final(mr_table).wf(),
        final(mr_table)@ == after_faa(old(mr_table)@, *ext, payload@),
        r@ == atomic_reply(
            old(mr_table)@,
            *ext,
            atomic_refusal(old(mr_table)@, *ext, payload@, Verb::AtomicFaa, 8),
            Verb::AtomicFaaResp,
            local_node_id,
            header.src_node,
        ),
{
    proof {
        mr_table.lemma_view();
    }
    let e = match mr_table.lookup(ext.mr_handle) {
        Some(e) => *e,
        None => return build_refusal(local_node_id, header.src_node, ext, 1),
    };
    assert(mr_table@.entry_ok(ext.mr_handle));
    if e.check_perms(Verb::AtomicFaa).is_err() {
        return build_refusal(local_node_id, header.src_node, ext, 2);
    }
    let offset: u64 = target_of(&e, ext.ub_addr);
    if (offset - e.base_offset) % 8 != 0 {
        return build_refusal(local_node_id, header.src_node, ext, 3);
    }
    if payload.len() < 8 {
        return build_refusal(local_node_id, header.src_node, ext, 9);
    }
    let mut cur = Reader::new(payload);
    let add: u64 = match cur.u64() {
        Ok(v) => v,
        Err(_) => 0,
    };
    match mr_table.device_faa(e.device, offset, add) {
        Ok(v) => atomic_answer(v, ext, Verb::AtomicFaaResp, local_node_id, header.src_node),
        Err(_) => build_refusal(local_node_id, header.src_node, ext, 9),
    }
}

/// The smaller of two lengths.
pub open spec fn shorter(a: nat, b: nat) -> nat {
    if a <= b {
        a
    } else {
        b
    }
}

/// A jetty after a message: its first receive buffer is used up, and a completion tells of
/// it where the completion queue has room.
pub open spec fn after_message(j: JettyView, ext: DataExtHeader, payload: Seq<u8>) -> JettyView {
    if j.jfr.len() == 0 {
        j
    } else {
        let b = j.jfr[0];
        let cqe = Cqe {
            wr_id: b.wr_id,
            status: UB_OK,
            imm: ext.imm,
            byte_len: (shorter(payload.len(), b.buf@.len()) % 0x1_0000_0000) as u32,
            jetty_id: ext.jetty_dst,
            verb: Verb::Send,
        };
        JettyView {
            jfr: j.jfr.skip(1),
            jfc: if j.jfc.len() < j.config.jfc_depth {
                j.jfc.push(cqe)
            } else {
                j.jfc
            },
            ..j
        }
    }
}

/// A message uses up the first receive buffer, and no other. Its completion, where there is
/// room for one, is the last of the queue: it names the buffer, the immediate value and how
/// many bytes were taken. Without buffer nothing changes.
pub proof fn lemma_message_taken(j: JettyView, ext: DataExtHeader, payload: Seq<u8>)
    requires
        payload.len() <= u32::MAX,
    ensures
        ({
            let after = after_message(j, ext, payload);
            &&& j.jfr.len() == 0 ==> after == j
            &&& j.jfr.len() > 0 ==> {
                &&& after.jfr.len() + 1 == j.jfr.len()
                &&& forall|i: int| 0 <= i < after.jfr.len() ==> #[trigger] after.jfr[i] == j.jfr[i
                    + 1]
                &&& after.jfs == j.jfs
                &&& j.jfc.len() >= j.config.jfc_depth ==> after.jfc == j.jfc
                &&& j.jfc.len() < j.config.jfc_depth ==> {
                    let c = after.jfc.last();
                    &&& after.jfc.len() == j.jfc.len() + 1
                    &&& after.jfc.drop_last() == j.jfc
                    &&& c.wr_id == j.jfr[0].wr_id
                    &&& c.status == 0
                    &&& c.imm == ext.imm
                    &&& c.jetty_id == ext.jetty_dst
                    &&& c.verb == Verb::Send
                    &&& payload.len() <= j.jfr[0].buf@.len() ==> c.byte_len == payload.len()
                    &&& j.jfr[0].buf@.len() < payload.len() ==> c.byte_len == j.jfr[0].buf@.len()
                }
            }
        }),
{
    let after = after_message(j, ext, payload);
    if j.jfr.len() > 0 && j.jfc.len() < j.config.jfc_depth {
        assert(after.jfc.drop_last() =~= j.jfc);
    }
}

/// Takes a message in: it fills the first receive buffer of its jetty, as far as it fits,
/// and completes it. Returns the filled buffer. Without jetty or buffer the message is lost.
pub fn handle_send(payload: &[u8], ext: &DataExtHeader, jetty_table: &mut JettyTable) -> (r: Option<
    RecvBuffer,
>)
    requires
        old(jetty_table).wf(),
    ensures
        final(jetty_table).wf(),
        final(jetty_table)@ == (JettyTableView {
            entries: final(jetty_table)@.entries,
            ..old(jetty_table)@
        }),
        if old(jetty_table)@.entries.contains_key(ext.jetty_dst) {
            let a = old(jetty_table)@.entries[ext.jetty_dst]@;
            let j = final(jetty_table)@.entries[ext.jetty_dst];
            &&& j@ == after_message(a, *ext, payload@)
            &&& final(jetty_table)@.entries == old(jetty_table)@.entries.insert(ext.jetty_dst, j)
            &&& match r {
                Some(b) => {
                    let n = shorter(payload@.len(), a.jfr[0].buf@.len()) as int;
                    &&& a.jfr.len() > 0
                    &&& b.wr_id == a.jfr[0].wr_id
                    &&& b.buf@ == payload@.take(n) + a.jfr[0].buf@.skip(n)
                },
                None => a.jfr.len() == 0,
            }
        } else {
            r is None && final(jetty_table)@ == old(jetty_table)@
        },
{
    let mut recv = match jetty_table.pop_recv(ext.jetty_dst) {
        Some(b) => b,
        None => {
            return None;
        },
    };
    let ghost room = recv.buf@;
    let n: usize = if payload.len() <= recv.buf.len() {
        payload.len()
    } else {
        recv.buf.len()
    };
    let mut i: usize = 0;
    while i < n
        invariant
            i <= n,
            n <= payload@.len(),
            n <= room.len(),
            recv.buf@.len() == room.len(),
            forall|k: int|
                0 <= k < room.len() ==> #[trigger] recv.buf@[k] == (if k < i {
                    payload@[k]
                } else {
                    room[k]
                }),
            recv.wr_id == old(jetty_table)@.entries[ext.jetty_dst]@.jfr[0].wr_id,
        decreases n - i,
    {
        recv.buf.set(i, payload[i]);
        i = i + 1;
    }
    assert(recv.buf@ =~= payload@.take(n as int) + room.skip(n as int));
    let cqe = Cqe {
        wr_id: recv.wr_id,
        status: UB_OK,
        imm: ext.imm,
        byte_len: (n as u64 % 0x1_0000_0000) as u32,
        jetty_id: ext.jetty_dst,
        verb: Verb::Send,
    };
    let _ = jetty_table.push_cqe(ext.jetty_dst, cqe);
    proof {
        assert(jetty_table@.entries =~= old(jetty_table)@.entries.insert(
            ext.jetty_dst,
            jetty_table@.entries[ext.jetty_dst],
        ));
    }
    Some(recv)
}

/// A jetty after a write with immediate value that took effect.
pub open spec fn after_notice(j: JettyView, ext: DataExtHeader, len: nat) -> JettyView {
    let cqe = Cqe {
        wr_id: 0,
        status: UB_OK,
        imm: ext.imm,
        byte_len: (len % 0x1_0000_0000) as u32,
        jetty_id: ext.jetty_dst,
        verb: Verb::WriteImm,
    };
    if j.jfc.len() < j.config.jfc_depth {
        JettyView { jfc: j.jfc.push(cqe), ..j }
    } else {
        j
    }
}

/// The completion of a write with immediate value, where there is room for one, is the last
/// of the queue and tells the value and the length; no receive buffer is used up.
pub proof fn lemma_notice_taken(j: JettyView, ext: DataExtHeader, len: nat)
    requires
        len <= u32::MAX,
    ensures
        ({
            let after = after_notice(j, ext, len);
            &&& after.jfr == j.jfr && after.jfs == j.jfs
            &&& j.jfc.len() >= j.config.jfc_depth ==> after == j
            &&& j.jfc.len() < j.config.jfc_depth ==> {
                let c = after.jfc.last();
                &&& after.jfc.len() == j.jfc.len() + 1
                &&& after.jfc.drop_last() == j.jfc
                &&& c.wr_id == 0
                &&& c.status == 0
                &&& c.imm == ext.imm
                &&& c.jetty_id == ext.jetty_dst
                &&& c.verb == Verb::WriteImm
                &&& c.byte_len == len
            }
        }),
{
    let after = after_notice(j, ext, len);
    if j.jfc.len() < j.config.jfc_depth {
        assert(after.jfc.drop_last() =~= j.jfc);
    }
}

/// Whether `after` is what a write with immediate value makes of the jettys.
pub open spec fn notified(
    t: MrTableView,
    ext: DataExtHeader,
    payload: Seq<u8>,
    before: JettyTableView,
    after: JettyTableView,
) -> bool {
    if write_lands(t, ext, payload, Verb::WriteImm) && before.entries.contains_key(ext.jetty_dst) {
        let j = after.entries[ext.jetty_dst];
        &&& j@ == after_notice(before.entries[ext.jetty_dst]@, ext, payload.len())
        &&& after == (JettyTableView {
            entries: before.entries.insert(ext.jetty_dst, j),
            ..before
        })
    } else {
        after == before
    }
}

/// Performs a write with immediate value: the jetty is told where the write took effect.
pub fn handle_write_imm(
    payload: &[u8],
    ext: &DataExtHeader,
    mr_table: &mut MrTable,
    jetty_table: &mut JettyTable,
)
    requires
        old(mr_table).wf(),
        old(jetty_table).wf(),
    ensures
        final(mr_table).wf(),
        final(jetty_table).wf(),
        final(mr_table)@ == after_write(old(mr_table)@, *ext, payload@, Verb::WriteImm),
        notified(old(mr_table)@, *ext, payload@, old(jetty_table)@, final(jetty_table)@),
{
    if !apply_write(mr_table, ext, payload, Verb::WriteImm) {
        return;
    }
    let cqe = Cqe {
        wr_id: 0,
        status: UB_OK,
        imm: ext.imm,
        byte_len: (payload.len() as u64 % 0x1_0000_0000) as u32,
        jetty_id: ext.jetty_dst,
        verb: Verb::WriteImm,
    };
    let _ = jetty_table.push_cqe(ext.jetty_dst, cqe);
}

/// What a response frame says: the status of a refusal, or the data.
pub open spec fn response_of(ext: DataExtHeader, payload: Seq<u8>) -> (u32, Seq<u8>) {
    if ext.ext_flags.spec_bits() & 0x04 == 0x04 {
        (
            if payload.len() >= 4 {
                be_value(payload.take(4)) as u32
            } else {
                0
            },
            Seq::empty(),
        )
    } else {
        (0, payload)
    }
}

/// What a `DataPlaneEngine` knows.
#[verifier::ext_equal]
pub struct EngineView {
    pub local: u16,
    /// Requests that wait for their responses.
    pub pending: Set<u64>,
    pub next_opaque: u64,
    /// Nodes that can be reached.
    pub peers: Set<u16>,
}

impl EngineView {
    /// The engine after a request was issued.
    pub open spec fn issued(self) -> EngineView {
        EngineView {
            pending: self.pending.insert(self.next_opaque),
            next_opaque: if self.next_opaque == u64::MAX {
                0
            } else {
                (self.next_opaque + 1) as u64
            },
            ..self
        }
    }
}

impl EngineView {
    /// Every request waits under an identifier that the next request does not have, and
    /// those that waited wait on.
    pub proof fn lemma_issued(self, opaque: u64)
        ensures
            self.issued().pending.contains(self.next_opaque),
            opaque != self.next_opaque ==> self.issued().pending.contains(opaque)
                == self.pending.contains(opaque),
            self.issued().next_opaque != self.next_opaque,
            self.next_opaque < u64::MAX ==> self.issued().next_opaque == self.next_opaque + 1,
            self.issued().peers == self.peers,
            self.issued().local == self.local,
    {
    }
}

/// Whether a region that the address lies in is known.
pub open spec fn is_known(cache: Map<(u16, u32), MrCacheEntry>, addr: UbAddr, e: MrCacheEntry) -> bool {
    &&& cache.contains_key((e.owner_node, e.remote_mr_handle))
    &&& cache[(e.owner_node, e.remote_mr_handle)] == e
    &&& e.covers(addr)
}

/// Whether no region that the address lies in is known.
pub open spec fn is_unknown(cache: Map<(u16, u32), MrCacheEntry>, addr: UbAddr) -> bool {
    forall|k: (u16, u32)| #[trigger] cache.contains_key(k) ==> !cache[k].covers(addr)
}

/// Whether `r` is the outcome of sending `frame` to `dst`: the frame, or an error where the
/// node cannot be reached.
pub open spec fn sent(g: EngineView, dst: u16, frame: Seq<u8>, r: Result<OutFrame, UbError>) -> bool {
    match r {
        Ok(f) => g.peers.contains(dst) && f.dst == dst && f.frame@ == frame,
        Err(e) => !g.peers.contains(dst) && e == UbError::LinkDown,
    }
}

/// Whether `r` and `after` are the outcome of a request: the frame under the next
/// identifier, or an error where the node cannot be reached.
pub open spec fn asked(
    g: EngineView,
    dst: u16,
    frame: Seq<u8>,
    r: Result<Request, UbError>,
    after: EngineView,
) -> bool {
    match r {
        Ok(q) => g.peers.contains(dst) && q.dst == dst && q.frame@ == frame && q.opaque
            == g.next_opaque && after == g.issued(),
        Err(e) => !g.peers.contains(dst) && e == UbError::LinkDown && after == g,
    }
}

/// Remote verbs of a node.
pub struct DataPlaneEngine {
    local_node_id: u16,
    pending: Table<()>,
    next_opaque: u64,
    peers: Table<()>,
}

impl View for DataPlaneEngine {
    type V = EngineView;

    closed spec fn view(&self) -> EngineView {
        EngineView {
            local: self.local_node_id,
            pending: Set::new(|k: u64| self.pending@.contains_key(k as u128)),
            next_opaque: self.next_opaque,
            peers: Set::new(|k: u16| self.peers@.contains_key(k as u128)),
        }
    }
}

impl DataPlaneEngine {
    pub closed spec fn wf(&self) -> bool {
        self.pending.wf() && self.peers.wf()
    }

    pub fn new(local_node_id: u16) -> (r: Self)
        ensures
            r.wf(),
            r@ == (EngineView {
                local: local_node_id,
                pending: Set::empty(),
                next_opaque: 1,
                peers: Set::empty(),
            }),
    {
        let r = DataPlaneEngine {
            local_node_id,
            pending: Table::new(),
            next_opaque: 1,
            peers: Table::new(),
        };
        proof {
            assert(r@.pending =~= Set::empty());
            assert(r@.peers =~= Set::empty());
        }
        r
    }

    /// Takes note that a node can be reached.
    pub fn connect_peer(&mut self, node_id: u16)
        requires
            old(self).wf(),
        ensures
            final(self).wf(),
            final(self)@ == (EngineView {
                peers: old(self)@.peers.insert(node_id),
                ..old(self)@
            }),
    {
        self.peers.insert(node_id as u128, ());
        assert(self@.peers =~= old(self)@.peers.insert(node_id));
        assert(self@.pending =~= old(self)@.pending);
    }

    /// Takes note that a node cannot be reached any more.
    pub fn disconnect_peer(&mut self, node_id: u16)
        requires
            old(self).wf(),
        ensures
            final(self).wf(),
            final(self)@ == (EngineView {
                peers: old(self)@.peers.remove(node_id),
                ..old(self)@
            }),
    {
        self.peers.remove(node_id as u128);
        assert(self@.peers =~= old(self)@.peers.remove(node_id));
        assert(self@.pending =~= old(self)@.pending);
    }

    fn issue(&mut self) -> (r: u64)
        requires
            old(self).wf(),
        ensures
            final(self).wf(),
            r == old(self)@.next_opaque,
            final(self)@ == old(self)@.issued(),
    {
        let opaque: u64 = self.next_opaque;
        self.next_opaque = if opaque == u64::MAX {
            0
        } else {
            opaque + 1
        };
        self.pending.insert(opaque as u128, ());
        assert(self@.pending =~= old(self)@.pending.insert(opaque));
        assert(self@.peers =~= old(self)@.peers);
        opaque
    }

    /// Remote write; no response is expected.
    pub fn ub_write_remote(&self, mr_cache: &MrCacheTable, addr: UbAddr, data: &[u8]) -> (r: Result<
        OutFrame,
        UbError,
    >)
        requires
            self.wf(),
            mr_cache.wf(),
        ensures
            if data@.len() > MAX_PAYLOAD_SIZE {
                r == Err::<OutFrame, UbError>(UbError::PayloadTooLarge)
            } else if is_unknown(mr_cache@, addr) {
                r == Err::<OutFrame, UbError>(UbError::AddrInvalid)
            } else {
                exists|e: MrCacheEntry| #[trigger]
                    is_known(mr_cache@, addr, e) && sent(
                        self@,
                        e.owner_node,
                        data_frame(
                            self@.local,
                            e.owner_node,
                            data_ext(
                                Verb::Write,
                                e.remote_mr_handle,
                                addr,
                                0,
                                ExtFlags::of_bits(0),
                            ),
                            data@,
                        ),
                        r,
                    )
            },
    {
        if data.len() > MAX_PAYLOAD_SIZE {
            return Err(UbError::PayloadTooLarge);
        }
        match mr_cache.lookup_by_addr(addr) {
            None => Err(UbError::AddrInvalid),
            Some(e) => {
                assert(is_known(mr_cache@, addr, e));
                if !self.peers.contains(e.owner_node as u128) {
                    return Err(UbError::LinkDown);
                }
                Ok(
                    OutFrame {
                        dst: e.owner_node,
                        frame: build_data_frame(
                            self.local_node_id,
                            e.owner_node,
                            Verb::Write,
                            e.remote_mr_handle,
                            addr,
                            0,
                            data,
                        ),
                    },
                )
            },
        }
    }

    fn request(
        &mut self,
        mr_cache: &MrCacheTable,
        addr: UbAddr,
        verb: Verb,
        payload: &[u8],
    ) -> (r: Result<Request, UbError>)
        requires
            old(self).wf(),
            mr_cache.wf(),
        ensures
            final(self).wf(),
            requested(old(self)@, mr_cache@, addr, verb, payload@, r, final(self)@),
    {
        match mr_cache.lookup_by_addr(addr) {
            None => Err(UbError::AddrInvalid),
            Some(e) => {
                assert(is_known(mr_cache@, addr, e));
                if !self.peers.contains(e.owner_node as u128) {
                    return Err(UbError::LinkDown);
                }
                let opaque: u64 = self.issue();
                Ok(
                    Request {
                        dst: e.owner_node,
                        opaque,
                        frame: build_data_frame(
                            self.local_node_id,
                            e.owner_node,
                            verb,
                            e.remote_mr_handle,
                            addr,
                            opaque,
                            payload,
                        ),
                    },
                )
            },
        }
    }

    /// Remote read request.
    pub fn ub_read_remote(&mut self, mr_cache: &MrCacheTable, addr: UbAddr, len: u32) -> (r: Result<
        Request,
        UbError,
    >)
        requires
            old(self).wf(),
            mr_cache.wf(),
        ensures
            final(self).wf(),
            requested(
                old(self)@,
                mr_cache@,
                addr,
                Verb::ReadReq,
                be_bytes(len as nat, 4),
                r,
                final(self)@,
            ),
    {
        let mut payload: Vec<u8> = Vec::new();
        put_u32(&mut payload, len);
        assert(payload@ =~= be_bytes(len as nat, 4));
        self.request(mr_cache, addr, Verb::ReadReq, payload.as_slice())
    }

    /// Remote compare-and-swap request.
    pub fn ub_atomic_cas_remote(
        &mut self,
        mr_cache: &MrCacheTable,
        addr: UbAddr,
        expect: u64,
        new: u64,
    ) -> (r: Result<Request, UbError>)
        requires
            old(self).wf(),
            mr_cache.wf(),
        ensures
            final(self).wf(),
            requested(
                old(self)@,
                mr_cache@,
                addr,
                Verb::AtomicCas,
                be_bytes(expect as nat, 8) + be_bytes(new as nat, 8),
                r,
                final(self)@,
            ),
    {
        let mut payload: Vec<u8> = Vec::new();
        put_u64(&mut payload, expect);
        put_u64(&mut payload, new);
        assert(payload@ =~= be_bytes(expect as nat, 8) + be_bytes(new as nat, 8));
        self.request(mr_cache, addr, Verb::AtomicCas, payload.as_slice())
    }

    /// Remote fetch-and-add request.
    pub fn ub_atomic_faa_remote(&mut self, mr_cache: &MrCacheTable, addr: UbAddr, add: u64) -> (r:
        Result<Request, UbError>)
        requires
            old(self).wf(),
            mr_cache.wf(),
        ensures
            final(self).wf(),
            requested(
                old(self)@,
                mr_cache@,
                addr,
                Verb::AtomicFaa,
                be_bytes(add as nat, 8),
                r,
                final(self)@,
            ),
    {
        let mut payload: Vec<u8> = Vec::new();
        put_u64(&mut payload, add);
        assert(payload@ =~= be_bytes(add as nat, 8));
        self.request(mr_cache, addr, Verb::AtomicFaa, payload.as_slice())
    }

    fn message(&self, jetty_src: u32, dst_jetty: JettyAddr, data: &[u8], imm: Option<u64>) -> (r:
        Result<OutFrame, UbError>)
        requires
            self.wf(),
        ensures
            if data@.len() > MAX_PAYLOAD_SIZE {
                r == Err::<OutFrame, UbError>(UbError::PayloadTooLarge)
            } else {
                sent(
                    self@,
                    dst_jetty.node_id,
                    message_frame(self@.local, jetty_src, dst_jetty, imm, data@),
                    r,
                )
            },
    {
        if data.len() > MAX_PAYLOAD_SIZE {
            return Err(UbError::PayloadTooLarge);
        }
        if !self.peers.contains(dst_jetty.node_id as u128) {
            return Err(UbError::LinkDown);
        }
        let nowhere = UbAddr::new(0, 0, 0, 0, 0);
        proof {
            UbAddr(0).lemma_fields(nowhere.fields());
            nowhere.lemma_fields(nowhere.fields());
        }
        Ok(
            OutFrame {
                dst: dst_jetty.node_id,
                frame: build_data_frame_ex(
                    self.local_node_id,
                    dst_jetty.node_id,
                    Verb::Send,
                    0,
                    nowhere,
                    0,
                    jetty_src,
                    dst_jetty.jetty_id,
                    imm,
                    data,
                ),
            },
        )
    }

    /// Message to a remote jetty.
    pub fn ub_send_remote(&self, jetty_src: u32, dst_jetty: JettyAddr, data: &[u8]) -> (r: Result<
        OutFrame,
        UbError,
    >)
        requires
            self.wf(),
        ensures
            if data@.len() > MAX_PAYLOAD_SIZE {
                r == Err::<OutFrame, UbError>(UbError::PayloadTooLarge)
            } else {
                sent(
                    self@,
                    dst_jetty.node_id,
                    message_frame(self@.local, jetty_src, dst_jetty, None, data@),
                    r,
                )
            },
    {
        self.message(jetty_src, dst_jetty, data, None)
    }

    /// Message with an immediate value to a remote jetty.
    pub fn ub_send_with_imm_remote(
        &self,
        jetty_src: u32,
        dst_jetty: JettyAddr,
        data: &[u8],
        imm: u64,
    ) -> (r: Result<OutFrame, UbError>)
        requires
            self.wf(),
        ensures
            if data@.len() > MAX_PAYLOAD_SIZE {
                r == Err::<OutFrame, UbError>(UbError::PayloadTooLarge)
            } else {
                sent(
                    self@,
                    dst_jetty.node_id,
                    message_frame(self@.local, jetty_src, dst_jetty, Some(imm), data@),
                    r,
                )
            },
    {
        self.message(jetty_src, dst_jetty, data, Some(imm))
    }

    /// Remote write that tells a jetty of the region's owner.
    pub fn ub_write_imm_remote(
        &self,
        mr_cache: &MrCacheTable,
        addr: UbAddr,
        data: &[u8],
        imm: u64,
        jetty_src: u32,
        dst_jetty: JettyAddr,
    ) -> (r: Result<OutFrame, UbError>)
        requires
            self.wf(),
            mr_cache.wf(),
        ensures
            if data@.len() > MAX_PAYLOAD_SIZE {
                r == Err::<OutFrame, UbError>(UbError::PayloadTooLarge)
            } else if is_unknown(mr_cache@, addr) {
                r == Err::<OutFrame, UbError>(UbError::AddrInvalid)
            } else {
                exists|e: MrCacheEntry| #[trigger]
                    is_known(mr_cache@, addr, e) && sent(
                        self@,
                        e.owner_node,
                        jetty_frame(
                            self@.local,
                            e.owner_node,
                            Verb::WriteImm,
                            e.remote_mr_handle,
                            addr,
                            jetty_src,
                            dst_jetty.jetty_id,
                            Some(imm),
                            0,
                            data@,
                        ),
                        r,
                    )
            },
    {
        if data.len() > MAX_PAYLOAD_SIZE {
            return Err(UbError::PayloadTooLarge);
        }
        match mr_cache.lookup_by_addr(addr) {
            None => Err(UbError::AddrInvalid),
            Some(e) => {
                assert(is_known(mr_cache@, addr, e));
                if !self.peers.contains(e.owner_node as u128) {
                    return Err(UbError::LinkDown);
                }
                Ok(
                    OutFrame {
                        dst: e.owner_node,
                        frame: build_data_frame_ex(
                            self.local_node_id,
                            e.owner_node,
                            Verb::WriteImm,
                            e.remote_mr_handle,
                            addr,
                            0,
                            jetty_src,
                            dst_jetty.jetty_id,
                            Some(imm),
                            data,
                        ),
                    },
                )
            },
        }
    }

    /// Settles the request that a response frame belongs to. Returns the response, where
    /// there is such a request.
    pub fn complete_pending_request(&mut self, ext: &DataExtHeader, payload: &[u8]) -> (r: Option<
        VerbResponse,
    >)
        requires
            old(self).wf(),
        ensures
            final(self).wf(),
            final(self)@ == (EngineView {
                pending: old(self)@.pending.remove(ext.opaque),
                ..old(self)@
            }),
            match r {
                Some(v) => old(self)@.pending.contains(ext.opaque) && (v.status, v.data@)
                    == response_of(*ext, payload@),
                None => !old(self)@.pending.contains(ext.opaque),
            },
    {
        let waiting = self.pending.remove(ext.opaque as u128);
        assert(self@.pending =~= old(self)@.pending.remove(ext.opaque));
        assert(self@.peers =~= old(self)@.peers);
        if waiting.is_none() {
            return None;
        }
        if ext.ext_flags.contains(ExtFlags::err_resp()) {
            let mut cur = Reader::new(payload);
            let status: u32 = match cur.u32() {
                Ok(v) => v,
                Err(_) => 0,
            };
            let data: Vec<u8> = Vec::new();
            assert(data@ =~= Seq::empty());
            return Some(VerbResponse { status, data });
        }
        Some(VerbResponse { status: 0, data: slice_to_vec(payload) })
    }

    /// Gives up waiting for a response.
    pub fn request_timed_out(&mut self, opaque: u64) -> (r: UbError)
        requires
            old(self).wf(),
        ensures
            final(self).wf(),
            r == UbError::Timeout,
            final(self)@ == (EngineView {
                pending: old(self)@.pending.remove(opaque),
                ..old(self)@
            }),
    {
        self.pending.remove(opaque as u128);
        assert(self@.pending =~= old(self)@.pending.remove(opaque));
        assert(self@.peers =~= old(self)@.peers);
        UbError::Timeout
    }

    /// Processes an arrived frame: performs the verb on the regions or jettys of this node,
    /// or settles a request. Bytes that are no data frame are ignored.
    pub fn handle_incoming_frame(
        &mut self,
        raw: &[u8],
        mr_table: &mut MrTable,
        jetty_table: &mut JettyTable,
    ) -> (r: Incoming)
        requires
            old(self).wf(),
            old(mr_table).wf(),
            old(jetty_table).wf(),
        ensures
            final(self).wf(),
            final(mr_table).wf(),
            final(jetty_table).wf(),
            match parse_frame(raw@) {
                Ok((h, Some(x), p)) => {
                    &&& x.verb is Write || x.verb is WriteImm ==> final(mr_table)@ == after_write(
                        old(mr_table)@,
                        x,
                        p,
                        x.verb,
                    )
                    &&& x.verb is AtomicCas ==> final(mr_table)@ == after_cas(old(mr_table)@, x, p)
                    &&& x.verb is AtomicFaa ==> final(mr_table)@ == after_faa(old(mr_table)@, x, p)
                    &&& x.verb is ReadReq || x.verb is Send || is_response(x.verb)
                        ==> final(mr_table)@ == old(mr_table)@
                    &&& x.verb is WriteImm ==> notified(
                        old(mr_table)@,
                        x,
                        p,
                        old(jetty_table)@,
                        final(jetty_table)@,
                    )
                    &&& x.verb is Send ==> messaged(x, p, old(jetty_table)@, final(jetty_table)@)
                    &&& !(x.verb is WriteImm || x.verb is Send)
                        ==> final(jetty_table)@ == old(jetty_table)@
                    &&& final(self)@ == (if is_response(x.verb) {
                        EngineView { pending: old(self)@.pending.remove(x.opaque), ..old(self)@ }
                    } else {
                        old(self)@
                    })
                    &&& match r {
                        Incoming::Nothing => x.verb is Write || x.verb is WriteImm || x.verb is Send
                            || (is_response(x.verb) && !old(self)@.pending.contains(x.opaque)),
                        Incoming::Reply(f) => {
                            ||| x.verb is ReadReq && f@ == read_reply(
                                old(mr_table)@,
                                x,
                                p,
                                old(self)@.local,
                                h.src_node,
                            )
                            ||| x.verb is AtomicCas && f@ == atomic_reply(
                                old(mr_table)@,
                                x,
                                atomic_refusal(old(mr_table)@, x, p, Verb::AtomicCas, 16),
                                Verb::AtomicCasResp,
                                old(self)@.local,
                                h.src_node,
                            )
                            ||| x.verb is AtomicFaa && f@ == atomic_reply(
                                old(mr_table)@,
                                x,
                                atomic_refusal(old(mr_table)@, x, p, Verb::AtomicFaa, 8),
                                Verb::AtomicFaaResp,
                                old(self)@.local,
                                h.src_node,
                            )
                        },
                        Incoming::Completed { opaque, response } => is_response(x.verb) && opaque
                            == x.opaque && old(self)@.pending.contains(opaque) && (
                            response.status,
                            response.data@,
                        ) == response_of(x, p),
                    }
                },
                _ => {
                    &&& r is Nothing
                    &&& final(self)@ == old(self)@
                    &&& final(mr_table)@ == old(mr_table)@
                    &&& final(jetty_table)@ == old(jetty_table)@
                },
            },
    {
        let (header, ext, payload) = match decode_frame(raw) {
            Ok(f) => f,
            Err(_) => return Incoming::Nothing,
        };
        let x = match ext {
            Some(x) => x,
            None => return Incoming::Nothing,
        };
        match x.verb {
            Verb::Write => {
                handle_write(payload, &x, mr_table);
                Incoming::Nothing
            },
            Verb::ReadReq => Incoming::Reply(
                handle_read_req(payload, &x, mr_table, self.local_node_id, &header),
            ),
            Verb::AtomicCas => Incoming::Reply(
                handle_atomic_cas(payload, &x, mr_table, self.local_node_id, &header),
            ),
            Verb::AtomicFaa => Incoming::Reply(
                handle_atomic_faa(payload, &x, mr_table, self.local_node_id, &header),
            ),
            Verb::Send => {
                let _ = handle_send(payload, &x, jetty_table);
                Incoming::Nothing
            },
            Verb::WriteImm => {
                handle_write_imm(payload, &x, mr_table, jetty_table);
                Incoming::Nothing
            },
            Verb::ReadResp | Verb::AtomicCasResp | Verb::AtomicFaaResp => {
                match self.complete_pending_request(&x, payload) {
                    Some(response) => Incoming::Completed { opaque: x.opaque, response },
                    None => {
                        assert(self@.pending =~= old(self)@.pending);
                        Incoming::Nothing
                    },
                }
            },
        }
    }
}

/// Whether a verb is that of a response.
pub open spec fn is_response(v: Verb) -> bool {
    v is ReadResp || v is AtomicCasResp || v is AtomicFaaResp
}

/// Whether `after` is what a message makes of the jettys.
pub open spec fn messaged(
    ext: DataExtHeader,
    payload: Seq<u8>,
    before: JettyTableView,
    after: JettyTableView,
) -> bool {
    if before.entries.contains_key(ext.jetty_dst) {
        let j = after.entries[ext.jetty_dst];
        &&& j@ == after_message(before.entries[ext.jetty_dst]@, ext, payload)
        &&& after == (JettyTableView {
            entries: before.entries.insert(ext.jetty_dst, j),
            ..before
        })
    } else {
        after == before
    }
}

/// The frame of a message to a jetty.
pub open spec fn message_frame(
    local: u16,
    jetty_src: u32,
    dst: JettyAddr,
    imm: Option<u64>,
    data: Seq<u8>,
) -> Seq<u8> {
    jetty_frame(
        local,
        dst.node_id,
        Verb::Send,
        0,
        UbAddr(0),
        jetty_src,
        dst.jetty_id,
        imm,
        0,
        data,
    )
}

/// Whether `r` and `after` are the outcome of a request on an address.
pub open spec fn requested(
    g: EngineView,
    cache: Map<(u16, u32), MrCacheEntry>,
    addr: UbAddr,
    verb: Verb,
    payload: Seq<u8>,
    r: Result<Request, UbError>,
    after: EngineView,
) -> bool {
    if is_unknown(cache, addr) {
        r == Err::<Request, UbError>(UbError::AddrInvalid) && after == g
    } else {
        exists|e: MrCacheEntry| #[trigger]
            is_known(cache, addr, e) && asked(
                g,
                e.owner_node,
                data_frame(
                    g.local,
                    e.owner_node,
                    data_ext(
                        verb,
                        e.remote_mr_handle,
                        addr,
                        g.next_opaque,
                        ExtFlags::of_bits(0),
                    ),
                    payload,
                ),
                r,
                after,
            )
    }
}

/// What a response to a read means for the reader.
pub fn finish_read(response: VerbResponse) -> (r: Result<Vec<u8>, UbError>)
    ensures
        match r {
            Ok(data) => response.status == 0 && data@ == response.data@,
            Err(e) => response.status != 0 && is_status_error(e, response.status),
        },
{
    if response.status != 0 {
        return Err(status_to_error(response.status));
    }
    Ok(response.data)
}

/// Whether an error is the one that a status stands for.
pub open spec fn is_status_error(e: UbError, status: u32) -> bool {
    &&& 1 <= status <= 8 ==> e.spec_status() == status && !(e is Internal)
    &&& status == 0 || status > 8 ==> e.is_internal("unknown status: "@ + dec_text(status as nat))
}

fn finish_atomic(response: VerbResponse, short: &str) -> (r: Result<u64, UbError>)
    ensures
        match r {
            Ok(v) => response.status == 0 && response.data@.len() >= 8 && v == be_value(
                response.data@.take(8),
            ),
            Err(e) => if response.status != 0 {
                is_status_error(e, response.status)
            } else {
                response.data@.len() < 8 && e.is_internal(short@)
            },
        },
{
    if response.status != 0 {
        return Err(status_to_error(response.status));
    }
    let mut cur = Reader::new(response.data.as_slice());
    match cur.u64() {
        Ok(v) => Ok(v),
        Err(_) => Err(UbError::internal(short)),
    }
}

/// What a response to a compare-and-swap means for the requester: the old word.
pub fn finish_cas(response: VerbResponse) -> (r: Result<u64, UbError>)
    ensures
        match r {
            Ok(v) => response.status == 0 && response.data@.len() >= 8 && v == be_value(
                response.data@.take(8),
            ),
            Err(e) => if response.status != 0 {
                is_status_error(e, response.status)
            } else {
                response.data@.len() < 8 && e.is_internal("atomic CAS response too short"@)
            },
        },
{
    finish_atomic(response, "atomic CAS response too short")
}

/// What a response to a fetch-and-add means for the requester: the old word.
pub fn finish_faa(response: VerbResponse) -> (r: Result<u64, UbError>)
    ensures
        match r {
            Ok(v) => response.status == 0 && response.data@.len() >= 8 && v == be_value(
                response.data@.take(8),
            ),
            Err(e) => if response.status != 0 {
                is_status_error(e, response.status)
            } else {
                response.data@.len() < 8 && e.is_internal("atomic FAA response too short"@)
            },
        },
{
    finish_atomic(response, "atomic FAA response too short")
}

/// A response that is marked as an error gives the status in its first four bytes, or none
/// where it has fewer, and no data; any other gives its payload.
pub proof fn lemma_response(ext: DataExtHeader, payload: Seq<u8>)
    ensures
        ext.ext_flags.spec_bits() & 4 != 4 ==> response_of(ext, payload) == (0u32, payload),
        ext.ext_flags.spec_bits() & 4 == 4 ==> response_of(ext, payload).1.len() == 0,
        ext.ext_flags.spec_bits() & 4 == 4 && payload.len() >= 4 ==> response_of(ext, payload).0
            == be_value(payload.take(4)) as u32,
        ext.ext_flags.spec_bits() & 4 == 4 && payload.len() < 4 ==> response_of(ext, payload).0
            == 0,
{
}

/// The answer to an atomic request has sixteen bytes: the old word and zeros.
pub proof fn lemma_atomic_payload(old_value: u64, i: int)
    ensures
        atomic_payload(old_value).len() == 16,
        be_value(atomic_payload(old_value).take(8)) == old_value,
        8 <= i < 16 ==> atomic_payload(old_value)[i] == 0,
{
    broadcast use lemma_be_bytes_len;

    lemma_pow256_values();
    lemma_value_of_bytes(old_value as nat, 8);
    assert(atomic_payload(old_value).take(8) =~= be_bytes(old_value as nat, 8));
    reveal_with_fuel(be_bytes, 5);
}

/// The error of a status is the one that has this status; a status that none has is told as
/// a number.
pub proof fn lemma_status_error(e: UbError, status: u32)
    requires
        is_status_error(e, status),
    ensures
        e is AddrInvalid <==> status == 1,
        e is PermDenied <==> status == 2,
        e is Alignment <==> status == 3,
        e is LinkDown <==> status == 4,
        e is NoResources <==> status == 5,
        e is Timeout <==> status == 6,
        e is PayloadTooLarge <==> status == 7,
        e is Flushed <==> status == 8,
        e is Internal <==> status == 0 || status > 8,
{
    e.lemma_statuses();
}

/// A frame goes out to the node that it is for exactly where the node can be reached.
pub proof fn lemma_sent(g: EngineView, dst: u16, frame: Seq<u8>, r: Result<OutFrame, UbError>)
    requires
        sent(g, dst, frame, r),
    ensures
        r is Ok <==> g.peers.contains(dst),
        r matches Ok(f) ==> f.dst == dst && f.frame@ == frame,
        r matches Err(e) ==> e is LinkDown,
{
}

/// A message tells its receiver both jettys, the immediate value and the data, and names no
/// region.
pub proof fn lemma_message_frame(
    local: u16,
    jetty_src: u32,
    dst: JettyAddr,
    imm: Option<u64>,
    data: Seq<u8>,
)
    ensures
        ({
            let p = parse_frame(message_frame(local, jetty_src, dst, imm, data));
            &&& p is Ok
            &&& p->Ok_0.0.src_node == local
            &&& p->Ok_0.0.dst_node == dst.node_id
            &&& p->Ok_0.1 matches Some(x)
            &&& x.verb == Verb::Send
            &&& x.mr_handle == 0
            &&& x.ub_addr == UbAddr(0)
            &&& x.jetty_src == jetty_src
            &&& x.jetty_dst == dst.jetty_id
            &&& x.imm == imm
            &&& x.opaque == 0
            &&& p->Ok_0.2 == data
        }),
{
    lemma_jetty_frame(
        local,
        dst.node_id,
        Verb::Send,
        0,
        UbAddr(0),
        jetty_src,
        dst.jetty_id,
        imm,
        0,
        data,
    );
}

/// A message or a write with immediate value reaches the jetty that it names and no other;
/// without that jetty, or where the write takes no effect, nothing changes.
pub proof fn lemma_one_jetty(
    t: MrTableView,
    ext: DataExtHeader,
    payload: Seq<u8>,
    before: JettyTableView,
    sent_to: JettyTableView,
    written_to: JettyTableView,
    other: u32,
)
    requires
        messaged(ext, payload, before, sent_to),
        notified(t, ext, payload, before, written_to),
        other != ext.jetty_dst,
    ensures
        !before.entries.contains_key(ext.jetty_dst) ==> sent_to == before && written_to == before,
        !write_lands(t, ext, payload, Verb::WriteImm) ==> written_to == before,
        before.entries.contains_key(ext.jetty_dst) ==> sent_to.entries.contains_key(ext.jetty_dst)
            && sent_to.entries[ext.jetty_dst]@ == after_message(
            before.entries[ext.jetty_dst]@,
            ext,
            payload,
        ),
        before.entries.contains_key(ext.jetty_dst) && write_lands(t, ext, payload, Verb::WriteImm)
            ==> written_to.entries.contains_key(ext.jetty_dst)
            && written_to.entries[ext.jetty_dst]@ == after_notice(
            before.entries[ext.jetty_dst]@,
            ext,
            payload.len(),
        ),
        sent_to.entries.contains_key(other) == before.entries.contains_key(other),
        sent_to.entries[other] == before.entries[other],
        written_to.entries.contains_key(other) == before.entries.contains_key(other),
        written_to.entries[other] == before.entries[other],
        sent_to.first == before.first,
        written_to.first == before.first,
{
}

/// A request on an address goes to the owner of a known region that the address lies in, for
/// that region and address, under a new identifier, and waits from then on. Where no such
/// region is known, or the owner cannot be reached, it fails and nothing changes.
pub proof fn lemma_request_outcome(
    g: EngineView,
    cache: Map<(u16, u32), MrCacheEntry>,
    addr: UbAddr,
    verb: Verb,
    payload: Seq<u8>,
    r: Result<Request, UbError>,
    after: EngineView,
    k: (u16, u32),
)
    requires
        requested(g, cache, addr, verb, payload, r, after),
    ensures
        r is Err ==> after == g,
        r matches Err(e) ==> e is AddrInvalid || e is LinkDown,
        r matches Err(e) ==> (e is AddrInvalid && cache.contains_key(k) ==> !{
            let b = cache[k].base_ub_addr.fields();
            &&& addr.fields().node_id == b.node_id
            &&& addr.fields().device_id == b.device_id
            &&& 0 <= addr.fields().offset - b.offset < cache[k].len
        }),
        r matches Ok(q) ==> {
            let p = parse_frame(q.frame@);
            &&& g.peers.contains(q.dst)
            &&& q.opaque == g.next_opaque
            &&& after.pending.contains(q.opaque)
            &&& p is Ok
            &&& p->Ok_0.0.src_node == g.local
            &&& p->Ok_0.0.dst_node == q.dst
            &&& p->Ok_0.1 matches Some(x)
            &&& x.verb == verb
            &&& x.ub_addr == addr
            &&& x.opaque == q.opaque
            &&& p->Ok_0.2 == payload
            &&& cache.contains_key((q.dst, x.mr_handle))
            &&& ({
                let c = cache[(q.dst, x.mr_handle)];
                let b = c.base_ub_addr.fields();
                &&& addr.fields().node_id == b.node_id
                &&& addr.fields().device_id == b.device_id
                &&& 0 <= addr.fields().offset - b.offset < c.len
            })
        },
{
    if !is_unknown(cache, addr) {
        let e = choose|e: MrCacheEntry| #[trigger]
            is_known(cache, addr, e) && asked(
                g,
                e.owner_node,
                data_frame(
                    g.local,
                    e.owner_node,
                    data_ext(
                        verb,
                        e.remote_mr_handle,
                        addr,
                        g.next_opaque,
                        ExtFlags::of_bits(0),
                    ),
                    payload,
                ),
                r,
                after,
            );
        lemma_data_frame(
            g.local,
            e.owner_node,
            data_ext(verb, e.remote_mr_handle, addr, g.next_opaque, ExtFlags::of_bits(0)),
            payload,
        );
    }
}

/// A refused request is answered by a frame that carries the request's identifier, is marked
/// as an error and gives the status. It carries the request's verb too, so that a node that
/// handles frames by their verb takes it for a request: the one who asked learns of a refusal
/// by waiting in vain.
pub proof fn lemma_refusal_frame(local: u16, dst: u16, req: DataExtHeader, status: u32)
    ensures
        ({
            let p = parse_frame(refusal_frame(local, dst, req, status));
            &&& p is Ok
            &&& p->Ok_0.0.src_node == local
            &&& p->Ok_0.0.dst_node == dst
            &&& p->Ok_0.1 matches Some(x)
            &&& x.verb == req.verb
            &&& x.opaque == req.opaque
            &&& response_of(x, p->Ok_0.2) == (status, Seq::<u8>::empty())
        }),
{
    broadcast use {ExtFlags::lemma_truncated, lemma_be_bytes_len};

    lemma_flag_bits();
    assert(4u8 & 4 == 4) by (bit_vector);
    let x = data_ext(req.verb, req.mr_handle, req.ub_addr, req.opaque, ExtFlags::of_bits(0x04));
    let p = be_bytes(status as nat, 4);
    lemma_data_frame(local, dst, x, p);
    lemma_pow256_values();
    lemma_value_of_bytes(status as nat, 4);
    assert(p.take(4) =~= p);
}

/// A read request that the region allows is answered with the bytes at the address, under
/// the request's identifier.
pub proof fn lemma_read_answered(t: MrTableView, req: DataExtHeader, len: u32, local: u16, src: u16)
    requires
        t.entries.contains_key(req.mr_handle),
        t.entries[req.mr_handle].allows(Verb::ReadReq),
        t.devices[t.entries[req.mr_handle].device.0 as int].in_bounds(
            target(t.entries[req.mr_handle], req.ub_addr),
            len as nat,
        ),
    ensures
        ({
            let e = t.entries[req.mr_handle];
            let p = parse_frame(read_reply(t, req, be_bytes(len as nat, 4), local, src));
            &&& p is Ok
            &&& p->Ok_0.0.src_node == local
            &&& p->Ok_0.0.dst_node == src
            &&& p->Ok_0.1 matches Some(x)
            &&& x.verb == Verb::ReadResp
            &&& x.opaque == req.opaque
            &&& response_of(x, p->Ok_0.2) == (
                0u32,
                t.devices[e.device.0 as int].at(target(e, req.ub_addr), len as nat),
            )
        }),
{
    broadcast use {ExtFlags::lemma_truncated, lemma_be_bytes_len};

    lemma_flag_bits();
    assert(0u8 & 4 == 0) by (bit_vector);
    let e = t.entries[req.mr_handle];
    let data = t.devices[e.device.0 as int].at(target(e, req.ub_addr), len as nat);
    let x = data_ext(
        Verb::ReadResp,
        req.mr_handle,
        req.ub_addr,
        req.opaque,
        ExtFlags::of_bits(0),
    );
    let ask = be_bytes(len as nat, 4);
    lemma_pow256_values();
    lemma_value_of_bytes(len as nat, 4);
    assert(ask.take(4) =~= ask);
    lemma_data_frame(local, src, x, data);
}

/// What a remote write puts into a region, a remote read of the same address gets back.
pub proof fn lemma_remote_read_after_write(
    t: MrTableView,
    w: DataExtHeader,
    data: Seq<u8>,
    req: DataExtHeader,
    local: u16,
    src: u16,
)
    requires
        t.wf(),
        write_lands(t, w, data, Verb::Write),
        t.entries[w.mr_handle].allows(Verb::ReadReq),
        req.mr_handle == w.mr_handle,
        req.ub_addr == w.ub_addr,
        data.len() <= u32::MAX,
    ensures
        ({
            let p = parse_frame(
                read_reply(
                    after_write(t, w, data, Verb::Write),
                    req,
                    be_bytes(data.len(), 4),
                    local,
                    src,
                ),
            );
            &&& p is Ok
            &&& p->Ok_0.1 matches Some(x)
            &&& x.verb == Verb::ReadResp
            &&& x.opaque == req.opaque
            &&& response_of(x, p->Ok_0.2) == (0u32, data)
        }),
{
    let e = t.entries[w.mr_handle];
    assert(t.entry_ok(w.mr_handle));
    let dev = t.devices[e.device.0 as int];
    let off = target(e, w.ub_addr);
    dev.lemma_read_after_write(off, data, off, data.len());
    lemma_read_answered(
        after_write(t, w, data, Verb::Write),
        req,
        data.len() as u32,
        local,
        src,
    );
}

/// The answer to an atomic request carries the word that was there before.
proof fn lemma_atomic_answer(
    t: MrTableView,
    req: DataExtHeader,
    verb: Verb,
    local: u16,
    src: u16,
)
    ensures
        ({
            let e = t.entries[req.mr_handle];
            let old_word = t.devices[e.device.0 as int].word(target(e, req.ub_addr));
            let p = parse_frame(atomic_reply(t, req, None, verb, local, src));
            &&& p is Ok
            &&& p->Ok_0.0.src_node == local
            &&& p->Ok_0.0.dst_node == src
            &&& p->Ok_0.1 matches Some(x)
            &&& x.verb == verb
            &&& x.opaque == req.opaque
            &&& response_of(x, p->Ok_0.2).0 == 0
            &&& response_of(x, p->Ok_0.2).1.len() >= 8
            &&& be_value(response_of(x, p->Ok_0.2).1.take(8)) == old_word
        }),
{
    broadcast use {ExtFlags::lemma_truncated, lemma_be_bytes_len};

    lemma_flag_bits();
    assert(0u8 & 4 == 0) by (bit_vector);
    let e = t.entries[req.mr_handle];
    let old_word = t.devices[e.device.0 as int].word(target(e, req.ub_addr));
    let x = data_ext(verb, req.mr_handle, req.ub_addr, req.opaque, ExtFlags::of_bits(0));
    let p = atomic_payload(old_word);
    lemma_data_frame(local, src, x, p);
    lemma_pow256_values();
    lemma_value_of_bytes(old_word as nat, 8);
    assert(p.take(8) =~= be_bytes(old_word as nat, 8));
}

/// A remote compare-and-swap that is not refused is answered with the old word, and stores
/// the new one exactly where the old word was the expected one.
pub proof fn lemma_remote_cas(
    t: MrTableView,
    req: DataExtHeader,
    expect: u64,
    new: u64,
    local: u16,
    src: u16,
)
    requires
        t.wf(),
        atomic_refusal(
            t,
            req,
            be_bytes(expect as nat, 8) + be_bytes(new as nat, 8),
            Verb::AtomicCas,
            16,
        ) is None,
    ensures
        ({
            let e = t.entries[req.mr_handle];
            let off = target(e, req.ub_addr);
            let old_word = t.devices[e.device.0 as int].word(off);
            let after = after_cas(t, req, be_bytes(expect as nat, 8) + be_bytes(new as nat, 8));
            let p = parse_frame(atomic_reply(t, req, None, Verb::AtomicCasResp, local, src));
            &&& after.devices[e.device.0 as int].word(off) == (if old_word == expect {
                new
            } else {
                old_word
            })
            &&& p is Ok
            &&& p->Ok_0.1 matches Some(x)
            &&& x.verb == Verb::AtomicCasResp
            &&& x.opaque == req.opaque
            &&& response_of(x, p->Ok_0.2).0 == 0
            &&& be_value(response_of(x, p->Ok_0.2).1.take(8)) == old_word
        }),
{
    broadcast use lemma_be_bytes_len;

    let e = t.entries[req.mr_handle];
    let dev = t.devices[e.device.0 as int];
    let off = target(e, req.ub_addr);
    let a = be_bytes(expect as nat, 8);
    let b = be_bytes(new as nat, 8);
    assert(t.entry_ok(req.mr_handle));
    lemma_pow256_values();
    lemma_value_of_bytes(expect as nat, 8);
    lemma_value_of_bytes(new as nat, 8);
    assert((a + b).take(8) =~= a);
    assert((a + b).subrange(8, 16) =~= b);
    dev.lemma_word_after_store(off, new);
    lemma_atomic_answer(t, req, Verb::AtomicCasResp, local, src);
}

/// A remote fetch-and-add that is not refused is answered with the old word and adds to it.
pub proof fn lemma_remote_faa(t: MrTableView, req: DataExtHeader, add: u64, local: u16, src: u16)
    requires
        t.wf(),
        atomic_refusal(t, req, be_bytes(add as nat, 8), Verb::AtomicFaa, 8) is None,
    ensures
        ({
            let e = t.entries[req.mr_handle];
            let off = target(e, req.ub_addr);
            let old_word = t.devices[e.device.0 as int].word(off);
            let after = after_faa(t, req, be_bytes(add as nat, 8));
            let p = parse_frame(atomic_reply(t, req, None, Verb::AtomicFaaResp, local, src));
            &&& after.devices[e.device.0 as int].word(off) == (old_word + add)
                % 0x1_0000_0000_0000_0000
            &&& p is Ok
            &&& p->Ok_0.1 matches Some(x)
            &&& x.verb == Verb::AtomicFaaResp
            &&& x.opaque == req.opaque
            &&& response_of(x, p->Ok_0.2).0 == 0
            &&& be_value(response_of(x, p->Ok_0.2).1.take(8)) == old_word
        }),
{
    broadcast use lemma_be_bytes_len;

    let e = t.entries[req.mr_handle];
    let dev = t.devices[e.device.0 as int];
    let off = target(e, req.ub_addr);
    let a = be_bytes(add as nat, 8);
    assert(t.entry_ok(req.mr_handle));
    lemma_pow256_values();
    lemma_value_of_bytes(add as nat, 8);
    assert(a.take(8) =~= a);
    dev.lemma_word_after_store(
        off,
        ((dev.word(off) + add) % 0x1_0000_0000_0000_0000) as u64,
    );
    lemma_atomic_answer(t, req, Verb::AtomicFaaResp, local, src);
}

} // verus!
