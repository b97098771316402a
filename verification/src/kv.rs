//! A key-value store in a memory region: slots of a key, a value and a version.
use crate::addr::{AddrFields, UbAddr};
use crate::device::{lemma_word, word_bytes, word_value, DeviceView};
use crate::error::UbError;
use crate::mr::{DeviceRef, MrTable, MrTableView};
use crate::requests::{can_register, register_region, registered};
use crate::text::{dec_text, push_dec};
use crate::types::{MrHandle, MrPerms};
use crate::verbs::region_of;
use crate::wire::Reader;
use vstd::prelude::*;
use vstd::slice::slice_subrange;
use vstd::string::*;
use vstd::utf8::{decode_utf8, encode_utf8, valid_utf8};

verus! {

/// The length of a slot: 32 bytes of key, 64 bytes of value, 8 bytes of version.
pub const KV_SLOT_SIZE: usize = 104;

pub const KV_KEY_LEN: usize = 32;

pub const KV_VALUE_LEN: usize = 64;

/// Where the version of a slot starts.
pub const KV_VERSION_OFFSET: usize = 96;

/// What a slot holds, as texts.
#[derive(Debug)]
pub struct KvEntry {
    pub key: String,
    pub value: String,
    pub version: u64,
}

/// Why a slot cannot be shown.
#[derive(Debug)]
pub enum KvError {
    /// Fewer bytes were read than a slot has.
    Short(usize),
    /// The slot holds another key.
    KeyMismatch(String),
}

impl KvError {
    /// The text shown for the error.
    pub fn message(&self) -> (r: String)
        ensures
            r@ == (match self {
                KvError::Short(n) => "read returned "@ + dec_text(*n as nat)
                    + " bytes, expected 104"@,
                KvError::KeyMismatch(_) => "key mismatch"@,
            }),
    {
        match self {
            KvError::Short(n) => {
                let mut out = String::from_str("read returned ");
                push_dec(&mut out, *n as u64);
                out.append(" bytes, expected 104");
                out
            },
            KvError::KeyMismatch(_) => String::from_str("key mismatch"),
        }
    }
}

/// The outcome of an update that expects a version.
#[derive(Debug, Clone, Copy, PartialEq, Eq, Structural)]
pub enum KvCas {
    Swapped { old_version: u64, new_version: u64 },
    Failed { current_version: u64 },
}

/// What `String::from_utf8_lossy` returns.
pub uninterp spec fn lossy_text(bytes: Seq<u8>) -> Seq<char>;

/// `String::from_utf8_lossy`: the text of the bytes, with a replacement character for what
/// is no text. Bytes that are a text throughout give just that text.
#[verifier::external_body]
fn to_text(bytes: &[u8]) -> (r: String)
    ensures
        r@ == lossy_text(bytes@),
        valid_utf8(bytes@) ==> r@ == decode_utf8(bytes@),
{
    String::from_utf8_lossy(bytes).into_owned()
}

/// The text that bytes show as.
pub open spec fn shown_text(bytes: Seq<u8>) -> Seq<char> {
    if valid_utf8(bytes) {
        decode_utf8(bytes)
    } else {
        lossy_text(bytes)
    }
}

/// The first `n` bytes, with zeros behind where there are fewer.
pub open spec fn padded(bytes: Seq<u8>, n: nat) -> Seq<u8> {
    Seq::new(
        n,
        |i: int|
            if i < bytes.len() {
                bytes[i]
            } else {
                0u8
            },
    )
}

/// Key and value as they are stored.
pub open spec fn record(key: Seq<char>, value: Seq<char>) -> Seq<u8> {
    padded(encode_utf8(key), 32) + padded(encode_utf8(value), 64)
}

/// A text without the NUL characters at its end.
pub open spec fn trimmed(s: Seq<char>) -> Seq<char>
    decreases s.len(),
{
    if s.len() > 0 && s.last() == '\0' {
        trimmed(s.drop_last())
    } else {
        s
    }
}

/// Where a slot starts.
pub open spec fn slot_start(base: int, slot: u32) -> int {
    base + slot * 104
}

/// The version after the given one.
pub open spec fn next_version(v: u64) -> u64 {
    if v == u64::MAX {
        0
    } else {
        (v + 1) as u64
    }
}

/// A device with a slot filled, at the given version.
pub open spec fn filled(
    d: DeviceView,
    start: u64,
    key: Seq<char>,
    value: Seq<char>,
    version: u64,
) -> DeviceView {
    d.with_word((start + 96) as u64, version).with(start, record(key, value))
}

/// The version in the bytes of a slot.
pub open spec fn version_in(data: Seq<u8>, little: bool) -> u64 {
    word_value(data.subrange(96, 104), little) as u64
}

/// What the bytes of a slot show to a reader that asks for a key. An unused slot shows
/// whatever it holds.
pub open spec fn shows(data: Seq<u8>, key: Seq<char>, little: bool, r: Result<KvEntry, KvError>) -> bool {
    if data.len() < 104 {
        r matches Err(KvError::Short(n)) && n == data.len()
    } else {
        let found = trimmed(shown_text(data.take(32)));
        if data.take(32) != padded(encode_utf8(key), 32) && version_in(data, little) > 0 {
            r matches Err(KvError::KeyMismatch(t)) && t@ == found
        } else {
            r matches Ok(e) && e.key@ == found && e.value@ == trimmed(
                shown_text(data.subrange(32, 96)),
            ) && e.version == version_in(data, little)
        }
    }
}

/// Slots follow one another without a gap: the first starts at the base, and each ends where
/// the next one starts. No two overlap.
pub proof fn lemma_slots_apart(base: int, a: u32, b: u32)
    ensures
        slot_start(base, 0) == base,
        b == a + 1 ==> slot_start(base, b) == slot_start(base, a) + 104,
        a < b ==> slot_start(base, a) + 104 <= slot_start(base, b),
{
}

/// Every version is followed by the next higher one, the highest by zero, and none by itself.
pub proof fn lemma_version_moves(v: u64)
    ensures
        v < u64::MAX ==> next_version(v) == v + 1,
        next_version(u64::MAX) == 0,
        next_version(v) != v,
{
}

/// A stored text has the bytes of the text as far as they fit, and zeros behind.
pub proof fn lemma_padded(bytes: Seq<u8>, n: nat, i: int)
    ensures
        padded(bytes, n).len() == n,
        0 <= i < n && i < bytes.len() ==> padded(bytes, n)[i] == bytes[i],
        bytes.len() <= i < n ==> padded(bytes, n)[i] == 0,
        bytes.len() == n ==> padded(bytes, n) == bytes,
{
    if bytes.len() == n {
        assert(padded(bytes, n) =~= bytes);
    }
}

/// A trimmed text is the front part of the text, does not end in a NUL character, and only
/// NUL characters were behind it.
pub proof fn lemma_trimmed(s: Seq<char>, i: int)
    ensures
        trimmed(s).len() <= s.len(),
        trimmed(s) == s.take(trimmed(s).len() as int),
        trimmed(s).len() > 0 ==> trimmed(s).last() != '\0',
        trimmed(s).len() <= i < s.len() ==> s[i] == '\0',
    decreases s.len(),
{
    if s.len() > 0 && s.last() == '\0' {
        lemma_trimmed(s.drop_last(), i);
        assert(s.drop_last().take(trimmed(s).len() as int) =~= s.take(trimmed(s).len() as int));
    } else {
        assert(s.take(s.len() as int) =~= s);
    }
}

/// A slot in use is shown under its own key only. An unused slot is shown whatever is asked
/// for, and too few bytes are not shown at all.
pub proof fn lemma_shown_under_key(
    data: Seq<u8>,
    key: Seq<char>,
    little: bool,
    r: Result<KvEntry, KvError>,
)
    requires
        shows(data, key, little, r),
    ensures
        r is Ok <==> data.len() >= 104 && (data.take(32) == padded(encode_utf8(key), 32)
            || word_value(data.subrange(96, 104), little) as u64 == 0),
        r matches Ok(e) ==> e.version == word_value(data.subrange(96, 104), little) as u64,
        r matches Err(KvError::Short(n)) ==> n == data.len() && n < 104,
        r matches Err(KvError::KeyMismatch(t)) ==> data.len() >= 104,
{
}

/// What was stored in a slot is what its bytes hold: key, value and version; the bytes
/// outside of the slot are as before.
pub proof fn lemma_stored(
    d: DeviceView,
    start: u64,
    key: Seq<char>,
    value: Seq<char>,
    version: u64,
    other: u64,
    len: nat,
)
    requires
        d.in_bounds(start, 104),
        start + 104 <= u64::MAX,
        d.in_bounds(other, len),
        other + len <= start || start + 104 <= other,
    ensures
        ({
            let after = filled(d, start, key, value, version);
            let data = after.at(start, 104);
            &&& after.in_bounds(start, 104)
            &&& data.take(32) == padded(encode_utf8(key), 32)
            &&& data.subrange(32, 96) == padded(encode_utf8(value), 64)
            &&& version_in(data, d.little) == version
            &&& after.at(other, len) == d.at(other, len)
        }),
{
    let v = (start + 96) as u64;
    let w = word_bytes(version, d.little);
    lemma_word(version, d.little);
    let one = d.with(v, w);
    let two = one.with(start, record(key, value));
    let data = two.at(start, 104);
    assert(one.bytes.len() == d.bytes.len());
    assert(two.bytes.len() == d.bytes.len());
    assert(data.take(32) =~= padded(encode_utf8(key), 32));
    assert(data.subrange(32, 96) =~= padded(encode_utf8(value), 64));
    assert(data.subrange(96, 104) =~= w);
    assert(two.at(other, len) =~= d.at(other, len));
}

/// Zeros behind a text are NUL characters behind it.
proof fn lemma_encode_nul(s: Seq<char>)
    ensures
        encode_utf8(s.push('\0')) == encode_utf8(s).push(0u8),
    decreases s.len(),
{
    let t = s.push('\0');
    reveal_with_fuel(encode_utf8, 2);
    if s.len() == 0 {
        assert(0u32 & 0x7F == 0) by (bit_vector);
        assert(t.drop_first() =~= Seq::empty());
        assert(encode_utf8(t) =~= seq![0u8]);
        assert(encode_utf8(s).push(0u8) =~= seq![0u8]);
    } else {
        lemma_encode_nul(s.drop_first());
        assert(t.drop_first() =~= s.drop_first().push('\0'));
        assert(encode_utf8(t) =~= encode_utf8(s).push(0u8));
    }
}

/// A text with NUL characters behind it.
pub open spec fn with_nuls(s: Seq<char>, k: nat) -> Seq<char>
    decreases k,
{
    if k == 0 {
        s
    } else {
        with_nuls(s, (k - 1) as nat).push('\0')
    }
}

proof fn lemma_with_nuls(s: Seq<char>, k: nat)
    ensures
        encode_utf8(with_nuls(s, k)) == padded(encode_utf8(s), encode_utf8(s).len() + k),
        (s.len() > 0 ==> s.last() != '\0') ==> trimmed(with_nuls(s, k)) == s,
    decreases k,
{
    let e = encode_utf8(s);
    if k == 0 {
        assert(e =~= padded(e, e.len()));
    } else {
        let less = with_nuls(s, (k - 1) as nat);
        lemma_with_nuls(s, (k - 1) as nat);
        lemma_encode_nul(less);
        assert(padded(e, e.len() + k) =~= padded(e, (e.len() + k - 1) as nat).push(0u8));
        assert(with_nuls(s, k).drop_last() =~= less);
    }
}

/// A text that fits, and does not end in a NUL character, is stored in a form that is a text
/// and shows as it was.
pub proof fn lemma_text_kept(s: Seq<char>, n: nat)
    requires
        encode_utf8(s).len() <= n,
        s.len() > 0 ==> s.last() != '\0',
    ensures
        valid_utf8(padded(encode_utf8(s), n)),
        trimmed(decode_utf8(padded(encode_utf8(s), n))) == s,
{
    let k = (n - encode_utf8(s).len()) as nat;
    lemma_with_nuls(s, k);
    vstd::utf8::encode_utf8_valid_utf8(with_nuls(s, k));
    vstd::utf8::encode_utf8_decode_utf8(with_nuls(s, k));
}

/// A reader is shown what was stored: key, value and version, where the texts fit and do not
/// end in a NUL character.
pub proof fn lemma_shown_as_stored(
    d: DeviceView,
    start: u64,
    key: Seq<char>,
    value: Seq<char>,
    version: u64,
    r: Result<KvEntry, KvError>,
)
    requires
        d.in_bounds(start, 104),
        start + 104 <= u64::MAX,
        encode_utf8(key).len() <= 32,
        encode_utf8(value).len() <= 64,
        key.len() > 0 ==> key.last() != '\0',
        value.len() > 0 ==> value.last() != '\0',
        shows(filled(d, start, key, value, version).at(start, 104), key, d.little, r),
    ensures
        r matches Ok(e) && e.key@ == key && e.value@ == value && e.version == version,
{
    lemma_stored(d, start, key, value, version, start, 0);
    lemma_text_kept(key, 32);
    lemma_text_kept(value, 64);
}

/// The bytes of a text, cut or filled up with zeros to a length.
pub fn pad_string(s: &str, len: usize) -> (r: Vec<u8>)
    ensures
        r@ == padded(encode_utf8(s@), len as nat),
{
    let bytes = s.as_bytes();
    let mut out: Vec<u8> = Vec::new();
    let n: usize = bytes.len();
    let mut i: usize = 0;
    while i < len
        invariant
            i <= len,
            n == bytes@.len(),
            bytes@ == encode_utf8(s@),
            out@ == padded(encode_utf8(s@), len as nat).take(i as int),
        decreases len - i,
    {
        if i < n {
            out.push(bytes[i]);
        } else {
            out.push(0);
        }
        assert(out@ =~= padded(encode_utf8(s@), len as nat).take(i + 1));
        i = i + 1;
    }
    assert(out@ =~= padded(encode_utf8(s@), len as nat));
    out
}

/// Key and value as they are stored.
pub fn kv_record(key: &str, value: &str) -> (r: Vec<u8>)
    ensures
        r@ == record(key@, value@),
{
    let mut out = pad_string(key, KV_KEY_LEN);
    let mut rest = pad_string(value, KV_VALUE_LEN);
    out.append(&mut rest);
    out
}

/// Where key and value, and where the version of a slot of a remote store lie. `None` where
/// that is beyond the last address.
pub fn kv_addrs(addr: UbAddr, slot: u32) -> (r: Option<(UbAddr, UbAddr)>)
    ensures
        match r {
            Some((data, version)) => {
                let f = addr.fields();
                &&& slot_start(f.offset as int, slot) + 96 <= u64::MAX
                &&& data.fields() == (AddrFields {
                    offset: slot_start(f.offset as int, slot) as u64,
                    ..f
                })
                &&& version.fields() == (AddrFields {
                    offset: (slot_start(f.offset as int, slot) + 96) as u64,
                    ..f
                })
            },
            None => slot_start(addr.fields().offset as int, slot) + 96 > u64::MAX,
        },
{
    let ahead: u64 = slot as u64 * 104 + 96;
    let offset: u64 = addr.offset();
    if offset > u64::MAX - ahead {
        return None;
    }
    let data = UbAddr::new(
        addr.pod_id(),
        addr.node_id(),
        addr.device_id(),
        offset + slot as u64 * 104,
        addr.reserved(),
    );
    let version = UbAddr::new(
        addr.pod_id(),
        addr.node_id(),
        addr.device_id(),
        offset + ahead,
        addr.reserved(),
    );
    Some((data, version))
}

/// The version that an update of a slot at the given version leads to.
pub fn kv_next_version(version: u64) -> (r: u64)
    ensures
        r == next_version(version),
{
    if version == u64::MAX {
        0
    } else {
        version + 1
    }
}

/// The outcome of an update that expected a version and found one.
pub open spec fn cas_outcome(expected: u64, found: u64) -> KvCas {
    if found == expected {
        KvCas::Swapped { old_version: found, new_version: next_version(expected) }
    } else {
        KvCas::Failed { current_version: found }
    }
}

/// An update swaps exactly where it found the version that it expected, and then moves on to
/// the next one; else it tells the version that it found.
pub proof fn lemma_swaps_if_expected(expected: u64, found: u64)
    ensures
        cas_outcome(expected, found) is Swapped <==> expected == found,
        cas_outcome(expected, found) matches KvCas::Swapped { old_version, new_version }
            ==> old_version == found && (found < u64::MAX ==> new_version == found + 1),
        cas_outcome(expected, found) matches KvCas::Failed { current_version } ==> current_version
            == found,
{
}

/// The outcome of an update that expected a version and found one.
pub fn kv_cas_outcome(expected: u64, found: u64) -> (r: KvCas)
    ensures
        r == cas_outcome(expected, found),
{
    if found == expected {
        KvCas::Swapped { old_version: found, new_version: kv_next_version(expected) }
    } else {
        KvCas::Failed { current_version: found }
    }
}

/// Sets a store of empty slots up, in a region on a new device.
pub fn kv_init(mr_table: &mut MrTable, slots: u32, npu: bool) -> (r: Result<(UbAddr, MrHandle), UbError>)
    requires
        old(mr_table).wf(),
        slots > 0 ==> can_register(old(mr_table)@, npu, (slots * 104) as u64),
    ensures
        final(mr_table).wf(),
        match r {
            Ok((addr, handle)) => slots > 0 && registered(
                old(mr_table)@,
                npu,
                (slots * 104) as u64,
                MrPerms::of_bits(0b111),
                addr,
                handle,
                final(mr_table)@,
            ),
            Err(e) => slots == 0 && e == UbError::AddrInvalid && final(mr_table)@ == old(mr_table)@,
        },
{
    let len: u64 = slots as u64 * 104;
    register_region(mr_table, npu, len, MrPerms::from_bits_truncate(0b111))
}

/// The device and the place of a slot in a local region.
pub open spec fn local_slot(t: MrTableView, addr: UbAddr, slot: u32) -> (DeviceRef, int) {
    let e = t.entries[region_of(t, addr)->0];
    (e.device, slot_start(addr.fields().offset - e.base_offset, slot))
}

/// A slot lies on the device of the region that the address is in, as many slots behind the
/// distance of the address from the region's start.
pub proof fn lemma_local_slot(t: MrTableView, addr: UbAddr, slot: u32, h: u32)
    requires
        region_of(t, addr) == Some(h),
    ensures
        local_slot(t, addr, slot).0 == t.entries[h].device,
        local_slot(t, addr, slot).1 == addr.fields().offset - t.entries[h].base_offset + 104 * slot,
{
}

fn find_slot(mr_table: &MrTable, addr: UbAddr, slot: u32) -> (r: Option<(DeviceRef, Option<u64>)>)
    requires
        mr_table.wf(),
    ensures
        match r {
            Some((d, start)) => {
                let (dev, at) = local_slot(mr_table@, addr, slot);
                &&& region_of(mr_table@, addr) is Some
                &&& d == dev
                &&& d.0 < mr_table@.devices.len()
                &&& 0 <= at
                &&& start == (if at + 104 <= u64::MAX {
                    Some(at as u64)
                } else {
                    None
                })
            },
            None => region_of(mr_table@, addr) is None,
        },
{
    proof {
        mr_table.lemma_view();
    }
    match mr_table.lookup_by_addr(addr) {
        Some((e, off)) => {
            proof {
                let h = e.handle;
                assert(mr_table@.entries[h].covers(addr));
                let g = region_of(mr_table@, addr)->0;
                assert(mr_table@.entries.contains_key(g) && mr_table@.entries[g].covers(addr));
                mr_table@.lemma_no_overlap(g, h, addr);
                assert(mr_table@.entry_ok(h));
            }
            let ahead: u64 = slot as u64 * 104;
            if off > u64::MAX - 104 - ahead {
                Some((e.device, None))
            } else {
                Some((e.device, Some(off + ahead)))
            }
        },
        None => {
            proof {
                assert forall|h: u32| mr_table@.entries.contains_key(h) implies !(
                #[trigger] mr_table@.entries[h]).covers(addr) by {
                    assert(mr_table@.entries.contains_key(h));
                }
            }
            None
        },
    }
}

/// Stores key and value in a slot of a local region, at the next version. Returns the
/// version; `None` where the region is not local.
pub fn kv_put_local(mr_table: &mut MrTable, addr: UbAddr, slot: u32, key: &str, value: &str) -> (r:
    Option<Result<u64, UbError>>)
    requires
        old(mr_table).wf(),
    ensures
        final(mr_table).wf(),
        if region_of(old(mr_table)@, addr) is None {
            r is None && final(mr_table)@ == old(mr_table)@
        } else {
            let (d, at) = local_slot(old(mr_table)@, addr, slot);
            let dev = old(mr_table)@.devices[d.0 as int];
            let fault = dev.atomic_fault((at + 96) as u64);
            if at + 104 > u64::MAX {
                r == Some(Err::<u64, UbError>(UbError::AddrInvalid)) && final(mr_table)@
                    == old(mr_table)@
            } else if fault is Some {
                r == Some(Err::<u64, UbError>(fault->0)) && final(mr_table)@ == old(mr_table)@
            } else {
                let version = next_version(dev.word((at + 96) as u64));
                r == Some(Ok::<u64, UbError>(version))
                    && final(mr_table)@ == old(mr_table)@.with_device(
                    d,
                    filled(dev, at as u64, key@, value@, version),
                )
            }
        },
{
    let (d, place) = match find_slot(mr_table, addr, slot) {
        Some(x) => x,
        None => return None,
    };
    let start: u64 = match place {
        Some(s) => s,
        None => return Some(Err(UbError::AddrInvalid)),
    };
    let ghost dev = mr_table@.devices[d.0 as int];
    let old_version: u64 = match mr_table.device_faa(d, start + 96, 1) {
        Ok(v) => v,
        Err(e) => return Some(Err(e)),
    };
    let new_version: u64 = kv_next_version(old_version);
    let data = kv_record(key, value);
    proof {
        dev.lemma_word_after_store((start + 96) as u64, new_version);
    }
    match mr_table.device_write(d, start, data.as_slice()) {
        Ok(_) => {
            assert(mr_table@.devices =~= old(mr_table)@.with_device(
                d,
                filled(dev, start, key@, value@, new_version),
            ).devices);
            Some(Ok(new_version))
        },
        Err(e) => Some(Err(e)),
    }
}

/// Reads a slot of a local region; `None` where the region is not local.
pub fn kv_get_local(mr_table: &MrTable, addr: UbAddr, slot: u32) -> (r: Option<Result<Vec<u8>, UbError>>)
    requires
        mr_table.wf(),
    ensures
        if region_of(mr_table@, addr) is None {
            r is None
        } else {
            let (d, at) = local_slot(mr_table@, addr, slot);
            let dev = mr_table@.devices[d.0 as int];
            match r {
                Some(Ok(data)) => at + 104 <= u64::MAX && dev.in_bounds(at as u64, 104) && data@
                    == dev.at(at as u64, 104),
                Some(Err(e)) => e == UbError::AddrInvalid && (at + 104 > u64::MAX
                    || !dev.in_bounds(at as u64, 104)),
                None => false,
            }
        },
{
    let (d, place) = match find_slot(mr_table, addr, slot) {
        Some(x) => x,
        None => return None,
    };
    let start: u64 = match place {
        Some(s) => s,
        None => return Some(Err(UbError::AddrInvalid)),
    };
    let mut buf: Vec<u8> = vec![0u8; KV_SLOT_SIZE];
    match mr_table.device_read(d, start, buf.as_mut_slice()) {
        Ok(_) => Some(Ok(buf)),
        Err(e) => Some(Err(e)),
    }
}

/// Stores key and value in a slot of a local region if it is at the expected version;
/// `None` where the region is not local.
pub fn kv_cas_local(
    mr_table: &mut MrTable,
    addr: UbAddr,
    slot: u32,
    key: &str,
    expect_version: u64,
    value: &str,
) -> (r: Option<Result<KvCas, UbError>>)
    requires
        old(mr_table).wf(),
    ensures
        final(mr_table).wf(),
        if region_of(old(mr_table)@, addr) is None {
            r is None && final(mr_table)@ == old(mr_table)@
        } else {
            let (d, at) = local_slot(old(mr_table)@, addr, slot);
            let dev = old(mr_table)@.devices[d.0 as int];
            let fault = dev.atomic_fault((at + 96) as u64);
            let version = dev.word((at + 96) as u64);
            if at + 104 > u64::MAX {
                r == Some(Err::<KvCas, UbError>(UbError::AddrInvalid)) && final(mr_table)@
                    == old(mr_table)@
            } else if fault is Some {
                r == Some(Err::<KvCas, UbError>(fault->0)) && final(mr_table)@ == old(mr_table)@
            } else {
                &&& r == Some(Ok::<KvCas, UbError>(cas_outcome(expect_version, version)))
                &&& final(mr_table)@ == (if version == expect_version {
                    old(mr_table)@.with_device(
                        d,
                        filled(dev, at as u64, key@, value@, next_version(version)),
                    )
                } else {
                    old(mr_table)@
                })
            }
        },
{
    let (d, place) = match find_slot(mr_table, addr, slot) {
        Some(x) => x,
        None => return None,
    };
    let start: u64 = match place {
        Some(s) => s,
        None => return Some(Err(UbError::AddrInvalid)),
    };
    let ghost dev = mr_table@.devices[d.0 as int];
    let new_version: u64 = kv_next_version(expect_version);
    let found: u64 = match mr_table.device_cas(d, start + 96, expect_version, new_version) {
        Ok(v) => v,
        Err(e) => return Some(Err(e)),
    };
    let outcome = kv_cas_outcome(expect_version, found);
    if found != expect_version {
        return Some(Ok(outcome));
    }
    let data = kv_record(key, value);
    proof {
        dev.lemma_word_after_store((start + 96) as u64, new_version);
    }
    let _ = mr_table.device_write(d, start, data.as_slice());
    proof {
        assert(mr_table@.devices =~= old(mr_table)@.with_device(
            d,
            filled(dev, start, key@, value@, new_version),
        ).devices);
    }
    Some(Ok(outcome))
}

fn trim_nuls(s: &str) -> (r: String)
    ensures
        r@ == trimmed(s@),
{
    let mut n: usize = s.unicode_len();
    proof {
        assert(s@.take(n as int) =~= s@);
    }
    while n > 0 && s.get_char(n - 1) == '\0'
        invariant
            n <= s@.len(),
            trimmed(s@.take(n as int)) == trimmed(s@),
        decreases n,
    {
        proof {
            assert(s@.take(n as int).drop_last() =~= s@.take(n - 1));
        }
        n = n - 1;
    }
    let kept = s.substring_char(0, n);
    assert(kept@ =~= s@.take(n as int));
    String::from_str(kept)
}

/// The word in eight bytes as the machine stores it.
fn native_word(bytes: &[u8], little: bool) -> (r: u64)
    requires
        bytes@.len() == 8,
    ensures
        r == word_value(bytes@, little),
{
    let ghost s = if little {
        bytes@.reverse()
    } else {
        bytes@
    };
    let mut ordered: Vec<u8> = Vec::new();
    let mut i: usize = 0;
    while i < 8
        invariant
            i <= 8,
            bytes@.len() == 8,
            s == (if little {
                bytes@.reverse()
            } else {
                bytes@
            }),
            ordered@ == s.take(i as int),
        decreases 8 - i,
    {
        ordered.push(
            if little {
                bytes[7 - i]
            } else {
                bytes[i]
            },
        );
        assert(ordered@ =~= s.take(i + 1));
        i = i + 1;
    }
    assert(ordered@ =~= s);
    assert(ordered@.take(8) =~= s);
    let mut cur = Reader::new(ordered.as_slice());
    match cur.u64() {
        Ok(v) => v,
        Err(_) => 0,
    }
}

/// What the bytes of a slot show to a reader that asks for a key.
pub fn kv_show(data: &[u8], key: &str, little: bool) -> (r: Result<KvEntry, KvError>)
    ensures
        shows(data@, key@, little, r),
{
    if data.len() < KV_SLOT_SIZE {
        return Err(KvError::Short(data.len()));
    }
    let key_bytes = slice_subrange(data, 0, 32);
    let value_bytes = slice_subrange(data, 32, 96);
    let version: u64 = native_word(slice_subrange(data, 96, 104), little);
    assert(key_bytes@ =~= data@.take(32));
    let found = trim_nuls(to_text(key_bytes).as_str());
    let want = pad_string(key, KV_KEY_LEN);
    let mut same = true;
    let mut i: usize = 0;
    while i < 32
        invariant
            i <= 32,
            key_bytes@.len() == 32,
            want@.len() == 32,
            same == (forall|j: int| 0 <= j < i ==> key_bytes@[j] == #[trigger] want@[j]),
        decreases 32 - i,
    {
        if key_bytes[i] != want[i] {
            same = false;
            assert(key_bytes@[i as int] != want@[i as int]);
        }
        i = i + 1;
    }
    assert(same == (key_bytes@ == want@)) by {
        if same {
            assert(key_bytes@ =~= want@);
        }
    }
    if !same && version > 0 {
        return Err(KvError::KeyMismatch(found));
    }
    let value = trim_nuls(to_text(value_bytes).as_str());
    Ok(KvEntry { key: found, value, version })
}

} // verus!
