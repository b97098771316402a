//! What the administrative requests to a node mean: permissions, addresses and devices as
//! they are written in requests.
use crate::addr::{parse_addr, AddrFields, UbAddr};
use crate::device::{AnyDevice, Device, DeviceView, MemoryDevice, NpuDevice};
use crate::error::UbError;
use crate::mr::{DeviceRef, MrTable, MrTableView};
use crate::text::join;
use crate::types::{DeviceKind, MrHandle, MrPerms};
use vstd::prelude::*;
use vstd::string::*;

verus! {

/// What `str::to_lowercase` returns.
pub uninterp spec fn lower_text(s: Seq<char>) -> Seq<char>;

/// `str::to_lowercase`: the text in lower case.
#[verifier::external_body]
fn to_lower(s: &str) -> (r: String)
    ensures
        r@ == lower_text(s@),
{
    s.to_lowercase()
}

/// The permissions that a text of lower-case letters grants: `r` to read, `w` to write, `a`
/// for atomic operations. Other letters mean nothing.
pub open spec fn perms_in(s: Seq<char>) -> MrPerms {
    MrPerms::of_bits(
        ((if s.contains('r') {
            1int
        } else {
            0
        }) + (if s.contains('w') {
            2int
        } else {
            0
        }) + (if s.contains('a') {
            4int
        } else {
            0
        })) as u8,
    )
}

/// Each of the letters `r`, `w` and `a` grants its own permission, wherever it stands, and
/// no other letter grants any.
pub proof fn lemma_letters_grant(s: Seq<char>)
    ensures
        perms_in(s).spec_bits() & 1 == 1 <==> s.contains('r'),
        perms_in(s).spec_bits() & 2 == 2 <==> s.contains('w'),
        perms_in(s).spec_bits() & 4 == 4 <==> s.contains('a'),
        perms_in(s).spec_bits() <= 7,
{
    broadcast use MrPerms::lemma_truncated;

    assert(forall|b: u8| b <= 7 ==> #[trigger] (b & 7) == b) by (bit_vector);
    assert(forall|b: u8| b <= 7 ==> ((#[trigger] (b & 1) == 1) <==> b % 2 == 1)) by (bit_vector);
    assert(forall|b: u8| b <= 7 ==> ((#[trigger] (b & 2) == 2) <==> b / 2 % 2 == 1)) by (bit_vector);
    assert(forall|b: u8| b <= 7 ==> ((#[trigger] (b & 4) == 4) <==> b / 4 == 1)) by (bit_vector);
}

/// The permissions that lower-case letters grant.
pub fn perms_of(s: &str) -> (r: MrPerms)
    ensures
        r == perms_in(s@),
{
    let n: usize = s.unicode_len();
    let mut read = false;
    let mut write = false;
    let mut atomic = false;
    let mut i: usize = 0;
    while i < n
        invariant
            i <= n,
            n == s@.len(),
            read == s@.take(i as int).contains('r'),
            write == s@.take(i as int).contains('w'),
            atomic == s@.take(i as int).contains('a'),
        decreases n - i,
    {
        let ghost had = s@.take(i as int);
        let c = s.get_char(i);
        if c == 'r' {
            read = true;
        } else if c == 'w' {
            write = true;
        } else if c == 'a' {
            atomic = true;
        }
        proof {
            let more = s@.take(i + 1);
            assert(more =~= had.push(c));
            assert forall|x: char| more.contains(x) <==> had.contains(x) || x == c by {
                if had.contains(x) {
                    let p = choose|p: int| 0 <= p < had.len() && had[p] == x;
                    assert(more[p] == x);
                }
                assert(more[i as int] == c);
            }
        }
        i = i + 1;
    }
    assert(s@.take(i as int) =~= s@);
    let bits: u8 = (if read {
        1u8
    } else {
        0u8
    }) + (if write {
        2u8
    } else {
        0u8
    }) + (if atomic {
        4u8
    } else {
        0u8
    });
    MrPerms::from_bits_truncate(bits)
}

/// The permissions that letters grant, in upper or lower case.
pub fn parse_perms(s: &str) -> (r: MrPerms)
    ensures
        r == perms_in(lower_text(s@)),
{
    perms_of(to_lower(s).as_str())
}

/// The address that a text stands for.
pub fn parse_ub_addr(s: &str) -> (r: Result<UbAddr, String>)
    ensures
        match r {
            Ok(a) => parse_addr(s@) == Ok::<AddrFields, Seq<char>>(a.fields()),
            Err(t) => parse_addr(s@) matches Err(e) && t@ == "invalid ub_addr: "@
                + ("internal error: "@ + e),
        },
{
    match UbAddr::from_text(s) {
        Ok(a) => Ok(a),
        Err(e) => Err(join("invalid ub_addr: ", e.message().as_str())),
    }
}

/// How many MiB hold so many bytes: at least one.
pub open spec fn mib_for(len: u64) -> u64 {
    if len == 0 {
        1
    } else {
        ((len - 1) / 0x10_0000 + 1) as u64
    }
}

/// How large the device for a region is.
pub open spec fn device_len(npu: bool, len: u64) -> nat {
    if npu {
        mib_for(len) as nat * 0x10_0000
    } else {
        len as nat
    }
}

/// So many MiB hold the bytes, one less would not, and there is at least one. A device of
/// memory has just the length that was asked for; a simulated NPU has whole MiB.
pub proof fn lemma_device_holds(len: u64)
    ensures
        mib_for(len) >= 1,
        mib_for(len) * 0x10_0000 >= len,
        mib_for(len) > 1 ==> (mib_for(len) - 1) * 0x10_0000 < len,
        device_len(false, len) == len,
        device_len(true, len) >= len,
        device_len(true, len) % 0x10_0000 == 0,
{
}

/// Whether a request names a simulated NPU. Any other name means memory.
pub fn names_npu(kind: &str) -> (r: bool)
    ensures
        r == (kind@ == "npu"@),
{
    let given = String::from_str(kind);
    let npu = String::from_str("npu");
    given == npu
}

/// A new device for a region: a simulated NPU of whole MiB, or memory of just the length.
pub fn device_for(npu: bool, len: u64) -> (r: AnyDevice)
    requires
        device_len(npu, len) <= usize::MAX,
    ensures
        r.wf(),
        is_new_device(r.dev(), npu, len),
{
    if npu {
        let mib: u64 = if len == 0 {
            1
        } else {
            (len - 1) / 0x10_0000 + 1
        };
        AnyDevice::Npu(NpuDevice::new(1, mib))
    } else {
        AnyDevice::Memory(MemoryDevice::new(len as usize))
    }
}

/// Whether a region of the given length can be registered on a new device without a number
/// running over.
pub open spec fn can_register(t: MrTableView, npu: bool, len: u64) -> bool {
    let id: u16 = if npu {
        1
    } else {
        0
    };
    &&& device_len(npu, len) <= usize::MAX
    &&& t.next_handle < u32::MAX
    &&& t.free_from(id) + 7 + len <= u64::MAX
}

/// Whether a region of the given length can be registered on a new device.
pub fn has_room(mr_table: &MrTable, npu: bool, len: u64) -> (r: bool)
    requires
        mr_table.wf(),
    ensures
        r == can_register(mr_table@, npu, len),
{
    let size: u128 = if !npu {
        len as u128
    } else if len == 0 {
        0x10_0000
    } else {
        ((len - 1) / 0x10_0000 + 1) as u128 * 0x10_0000
    };
    let id: u16 = if npu {
        1
    } else {
        0
    };
    size <= usize::MAX as u128 && mr_table.has_room(id, len)
}

/// Whether a device is new for a region: of the right kind and size, and zeroed.
pub open spec fn is_new_device(d: DeviceView, npu: bool, len: u64) -> bool {
    &&& d.kind == (if npu {
        DeviceKind::Npu
    } else {
        DeviceKind::Memory
    })
    &&& d.id == (if npu {
        1u16
    } else {
        0
    })
    &&& d.bytes == Seq::new(device_len(npu, len), |i: int| 0u8)
}

/// Whether `after` is the table with a region registered on a new device.
pub open spec fn registered(
    t: MrTableView,
    npu: bool,
    len: u64,
    perms: MrPerms,
    addr: UbAddr,
    handle: MrHandle,
    after: MrTableView,
) -> bool {
    let d = after.devices.last();
    let with = MrTableView { devices: t.devices.push(d), ..t };
    &&& is_new_device(d, npu, len)
    &&& with.registered(DeviceRef(t.devices.len() as usize), len, perms, addr, handle, after)
}

/// A registered region has the length and the permissions that were asked for and lies on a
/// device of its own: zeroed, of the right kind, and large enough. It starts at a multiple of
/// eight behind all that was taken under its device number before. The other regions and
/// devices stay.
pub proof fn lemma_registered(
    t: MrTableView,
    npu: bool,
    len: u64,
    perms: MrPerms,
    addr: UbAddr,
    handle: MrHandle,
    after: MrTableView,
    i: int,
    other: u32,
)
    requires
        registered(t, npu, len, perms, addr, handle, after),
        t.devices.len() <= usize::MAX,
        other != handle.0,
        0 <= i < len,
    ensures
        ({
            let e = after.entries[handle.0];
            let d = after.devices[t.devices.len() as int];
            let id: u16 = if npu {
                1
            } else {
                0
            };
            &&& after.entries.contains_key(handle.0)
            &&& e.len == len
            &&& e.perms == perms
            &&& e.base_ub_addr == addr
            &&& e.device.0 == t.devices.len()
            &&& after.devices.len() == t.devices.len() + 1
            &&& after.devices.drop_last() == t.devices
            &&& d.kind == (if npu {
                DeviceKind::Npu
            } else {
                DeviceKind::Memory
            })
            &&& d.id == id
            &&& len <= d.bytes.len()
            &&& d.bytes[i] == 0
            &&& e.base_offset % 8 == 0
            &&& t.taken.contains_key(id) ==> e.base_offset >= t.taken[id]
            &&& after.entries.contains_key(other) == t.entries.contains_key(other)
            &&& after.entries[other] == t.entries[other]
        }),
{
    lemma_device_holds(len);
    assert(after.devices.drop_last() =~= t.devices);
}

/// Registers a region on a new device.
pub fn register_region(mr_table: &mut MrTable, npu: bool, len: u64, perms: MrPerms) -> (r: Result<
    (UbAddr, MrHandle),
    UbError,
>)
    requires
        old(mr_table).wf(),
        len > 0 ==> can_register(old(mr_table)@, npu, len),
    ensures
        final(mr_table).wf(),
        match r {
            Ok((addr, handle)) => len > 0 && registered(
                old(mr_table)@,
                npu,
                len,
                perms,
                addr,
                handle,
                final(mr_table)@,
            ),
            Err(e) => len == 0 && e == UbError::AddrInvalid && final(mr_table)@ == old(mr_table)@,
        },
{
    if len == 0 {
        return Err(UbError::AddrInvalid);
    }
    let device = device_for(npu, len);
    let d = mr_table.add_device(device);
    mr_table.register(d, len, perms)
}

/// How many regions lie in memory and on simulated NPUs.
pub fn count_kinds(mr_table: &MrTable) -> (r: (u64, u64))
    requires
        mr_table.wf(),
    ensures
        r.0 == of_kind(mr_table@, DeviceKind::Memory).len(),
        r.1 == of_kind(mr_table@, DeviceKind::Npu).len(),
{
    let all = mr_table.list();
    let mut memory: u64 = 0;
    let mut npu: u64 = 0;
    let ghost mut ms: Set<u32> = Set::empty();
    let ghost mut ns: Set<u32> = Set::empty();
    let mut i: usize = 0;
    while i < all.len()
        invariant
            i <= all@.len(),
            mr_table.wf(),
            forall|j: int|
                0 <= j < all@.len() ==> mr_table@.entries.contains_key((#[trigger] all@[j]).handle)
                    && mr_table@.entries[all@[j].handle] == all@[j],
            forall|a: int, b: int|
                0 <= a < b < all@.len() ==> (#[trigger] all@[a]).handle != (
                #[trigger] all@[b]).handle,
            ms.finite() && ns.finite(),
            ms.len() == memory && ns.len() == npu,
            memory <= i && npu <= i,
            forall|h: u32| #[trigger]
                ms.contains(h) <==> of_kind(mr_table@, DeviceKind::Memory).contains(h) && exists|
                    j: int,
                | 0 <= j < i && (#[trigger] all@[j]).handle == h,
            forall|h: u32| #[trigger]
                ns.contains(h) <==> of_kind(mr_table@, DeviceKind::Npu).contains(h) && exists|
                    j: int,
                | 0 <= j < i && (#[trigger] all@[j]).handle == h,
        decreases all@.len() - i,
    {
        let ghost h = all@[i as int].handle;
        proof {
            mr_table.lemma_view();
            assert(mr_table@.entry_ok(h));
            assert forall|j: int| 0 <= j < i implies (#[trigger] all@[j]).handle != h by {}
        }
        match mr_table.device_kind(all[i].device) {
            DeviceKind::Memory => {
                memory = memory + 1;
                proof {
                    assert(!ms.contains(h));
                    ms = ms.insert(h);
                }
            },
            DeviceKind::Npu => {
                npu = npu + 1;
                proof {
                    assert(!ns.contains(h));
                    ns = ns.insert(h);
                }
            },
        }
        i = i + 1;
    }
    proof {
        let handles = Seq::new(all@.len(), |j: int| all@[j].handle);
        mr_table.lemma_view();
        assert(handles.no_duplicates());
        handles.unique_seq_to_set();
        assert(handles.to_set().subset_of(mr_table@.entries.dom()));
        vstd::set_lib::lemma_subset_equality(handles.to_set(), mr_table@.entries.dom());
        assert forall|h: u32| mr_table@.entries.contains_key(h) implies exists|j: int|
            0 <= j < all@.len() && (#[trigger] all@[j]).handle == h by {
            assert(handles.to_set().contains(h));
            let j = choose|j: int| 0 <= j < handles.len() && handles[j] == h;
            assert(all@[j].handle == h);
        }
        assert(ms =~= of_kind(mr_table@, DeviceKind::Memory));
        assert(ns =~= of_kind(mr_table@, DeviceKind::Npu));
    }
    (memory, npu)
}

/// A region counts under the kind of its device and under no other.
pub proof fn lemma_one_kind(t: MrTableView, h: u32)
    requires
        t.entries.contains_key(h),
    ensures
        of_kind(t, DeviceKind::Memory).contains(h) <==> t.devices[t.entries[h].device.0 as int].kind
            == DeviceKind::Memory,
        of_kind(t, DeviceKind::Npu).contains(h) <==> t.devices[t.entries[h].device.0 as int].kind
            == DeviceKind::Npu,
        of_kind(t, DeviceKind::Memory).contains(h) <==> !of_kind(t, DeviceKind::Npu).contains(h),
{
}

/// The regions on devices of a kind.
pub open spec fn of_kind(t: MrTableView, kind: DeviceKind) -> Set<u32> {
    t.entries.dom().filter(|h: u32| t.devices[t.entries[h].device.0 as int].kind == kind)
}

} // verus!
