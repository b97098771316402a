//! Verbs on the memory regions of this node.
use crate::addr::UbAddr;
use crate::error::UbError;
use crate::mr::{MrEntry, MrTable, MrTableView};
use crate::types::Verb;
use vstd::prelude::*;

verus! {

/// The handle of the region that an address lies in, where there is one.
pub open spec fn region_of(t: MrTableView, addr: UbAddr) -> Option<u32> {
    if exists|h: u32| t.entries.contains_key(h) && (#[trigger] t.entries[h]).covers(addr) {
        Some(
            choose|h: u32| t.entries.contains_key(h) && (#[trigger] t.entries[h]).covers(addr),
        )
    } else {
        None
    }
}

/// Why a verb on an address is refused before it reaches the device: no region, or no
/// permission.
pub open spec fn refusal(t: MrTableView, addr: UbAddr, verb: Verb) -> Option<UbError> {
    match region_of(t, addr) {
        None => Some(UbError::AddrInvalid),
        Some(h) => if t.entries[h].allows(verb) {
            None
        } else {
            Some(UbError::PermDenied)
        },
    }
}

/// An address lies in the region that names its node and device and holds its offset; there
/// is no other.
pub proof fn lemma_region_of(t: MrTableView, addr: UbAddr, h: u32)
    requires
        t.wf(),
        t.entries.contains_key(h),
    ensures
        region_of(t, addr) == Some(h) <==> {
            let b = t.entries[h].base_ub_addr.fields();
            &&& addr.fields().node_id == b.node_id
            &&& addr.fields().device_id == b.device_id
            &&& 0 <= addr.fields().offset - b.offset < t.entries[h].len
        },
        region_of(t, addr) matches Some(g) ==> t.entries.contains_key(g)
            && t.entries[g].base_ub_addr.fields().offset <= addr.fields().offset,
{
    if exists|g: u32| t.entries.contains_key(g) && (#[trigger] t.entries[g]).covers(addr) {
        let g = region_of(t, addr)->0;
        assert(t.entries.contains_key(g) && t.entries[g].covers(addr));
        if t.entries[h].covers(addr) {
            t.lemma_no_overlap(g, h, addr);
        }
    }
}

/// A verb is refused where the address lies in no region, and where the region lacks the
/// permission: the first bit for reads, the second for writes, the third for atomic
/// operations. Otherwise it is not refused.
pub proof fn lemma_refused(t: MrTableView, addr: UbAddr)
    ensures
        region_of(t, addr) is None ==> refusal(t, addr, Verb::ReadReq) == Some(UbError::AddrInvalid)
            && refusal(t, addr, Verb::Write) == Some(UbError::AddrInvalid) && refusal(
            t,
            addr,
            Verb::AtomicCas,
        ) == Some(UbError::AddrInvalid) && refusal(t, addr, Verb::AtomicFaa) == Some(
            UbError::AddrInvalid,
        ),
        region_of(t, addr) matches Some(h) ==> {
            let bits = t.entries[h].perms.spec_bits();
            &&& refusal(t, addr, Verb::ReadReq) == (if bits & 1 == 1 {
                None::<UbError>
            } else {
                Some(UbError::PermDenied)
            })
            &&& refusal(t, addr, Verb::Write) == (if bits & 2 == 2 {
                None::<UbError>
            } else {
                Some(UbError::PermDenied)
            })
            &&& refusal(t, addr, Verb::AtomicCas) == (if bits & 4 == 4 {
                None::<UbError>
            } else {
                Some(UbError::PermDenied)
            })
            &&& refusal(t, addr, Verb::AtomicFaa) == (if bits & 4 == 4 {
                None::<UbError>
            } else {
                Some(UbError::PermDenied)
            })
        },
{
}

fn locate(mr_table: &MrTable, addr: UbAddr, verb: Verb) -> (r: Result<MrEntry, UbError>)
    requires
        mr_table.wf(),
    ensures
        match r {
            Ok(e) => {
                &&& refusal(mr_table@, addr, verb) is None
                &&& region_of(mr_table@, addr) == Some(e.handle)
                &&& mr_table@.entries[e.handle] == e
                &&& mr_table@.entry_ok(e.handle)
                &&& e.covers(addr)
            },
            Err(e) => refusal(mr_table@, addr, verb) == Some(e),
        },
{
    proof {
        mr_table.lemma_view();
    }
    match mr_table.lookup_by_addr(addr) {
        Some((e, _off)) => {
            proof {
                let h = e.handle;
                assert(mr_table@.entries[h].covers(addr));
                let g = region_of(mr_table@, addr)->0;
                assert(mr_table@.entries.contains_key(g) && mr_table@.entries[g].covers(addr));
                mr_table@.lemma_no_overlap(g, h, addr);
                assert(mr_table@.entry_ok(h));
            }
            match e.check_perms(verb) {
                Ok(_) => Ok(*e),
                Err(x) => Err(x),
            }
        },
        None => {
            assert forall|h: u32| mr_table@.entries.contains_key(h) implies !(
            #[trigger] mr_table@.entries[h]).covers(addr) by {
                assert(mr_table@.entries.contains_key(h));
            }
            Err(UbError::AddrInvalid)
        },
    }
}

/// Reads from the region at an address: its device's bytes from the address's offset on.
pub fn ub_read_sync(mr_table: &MrTable, addr: UbAddr, buf: &mut [u8]) -> (r: Result<(), UbError>)
    requires
        mr_table.wf(),
    ensures
        final(buf)@.len() == old(buf)@.len(),
        match refusal(mr_table@, addr, Verb::ReadReq) {
            Some(e) => r == Err::<(), UbError>(e) && final(buf)@ == old(buf)@,
            None => {
                let h = region_of(mr_table@, addr)->0;
                let dev = mr_table@.devices[mr_table@.entries[h].device.0 as int];
                let off = addr.fields().offset;
                if dev.in_bounds(off, old(buf)@.len()) {
                    r is Ok && final(buf)@ == dev.at(off, old(buf)@.len())
                } else {
                    r == Err::<(), UbError>(UbError::AddrInvalid) && final(buf)@ == old(buf)@
                }
            },
        },
{
    match locate(mr_table, addr, Verb::ReadReq) {
        Ok(e) => mr_table.device_read(e.device, addr.offset(), buf),
        Err(e) => Err(e),
    }
}

/// Writes to the region at an address.
pub fn ub_write_sync(mr_table: &mut MrTable, addr: UbAddr, buf: &[u8]) -> (r: Result<(), UbError>)
    requires
        old(mr_table).wf(),
    ensures
        final(mr_table).wf(),
        match refusal(old(mr_table)@, addr, Verb::Write) {
            Some(e) => r == Err::<(), UbError>(e) && final(mr_table)@ == old(mr_table)@,
            None => {
                let h = region_of(old(mr_table)@, addr)->0;
                let d = old(mr_table)@.entries[h].device;
                let dev = old(mr_table)@.devices[d.0 as int];
                let off = addr.fields().offset;
                if dev.in_bounds(off, buf@.len()) {
                    r is Ok && final(mr_table)@ == old(mr_table)@.with_device(
                        d,
                        dev.with(off, buf@),
                    )
                } else {
                    r == Err::<(), UbError>(UbError::AddrInvalid) && final(mr_table)@ == old(mr_table)@
                }
            },
        },
{
    match locate(mr_table, addr, Verb::Write) {
        Ok(e) => mr_table.device_write(e.device, addr.offset(), buf),
        Err(e) => Err(e),
    }
}

/// Compare-and-swap on the word at an address. Returns the word that was there.
pub fn ub_atomic_cas_sync(mr_table: &mut MrTable, addr: UbAddr, expect: u64, new: u64) -> (r: Result<
    u64,
    UbError,
>)
    requires
        old(mr_table).wf(),
    ensures
        final(mr_table).wf(),
        if addr.fields().offset % 8 != 0 {
            r == Err::<u64, UbError>(UbError::Alignment) && final(mr_table)@ == old(mr_table)@
        } else {
            match refusal(old(mr_table)@, addr, Verb::AtomicCas) {
                Some(e) => r == Err::<u64, UbError>(e) && final(mr_table)@ == old(mr_table)@,
                None => {
                    let h = region_of(old(mr_table)@, addr)->0;
                    let d = old(mr_table)@.entries[h].device;
                    let dev = old(mr_table)@.devices[d.0 as int];
                    let off = addr.fields().offset;
                    if dev.in_bounds(off, 8) {
                        r == Ok::<u64, UbError>(dev.word(off)) && final(mr_table)@ == (if dev.word(
                            off,
                        ) == expect {
                            old(mr_table)@.with_device(d, dev.with_word(off, new))
                        } else {
                            old(mr_table)@
                        })
                    } else {
                        r == Err::<u64, UbError>(UbError::AddrInvalid) && final(mr_table)@ == old(mr_table)@
                    }
                },
            }
        },
{
    if addr.offset() % 8 != 0 {
        return Err(UbError::Alignment);
    }
    match locate(mr_table, addr, Verb::AtomicCas) {
        Ok(e) => mr_table.device_cas(e.device, addr.offset(), expect, new),
        Err(e) => Err(e),
    }
}

/// Fetch-and-add on the word at an address. Returns the word that was there.
pub fn ub_atomic_faa_sync(mr_table: &mut MrTable, addr: UbAddr, add: u64) -> (r: Result<
    u64,
    UbError,
>)
    requires
        old(mr_table).wf(),
    ensures
        final(mr_table).wf(),
        if addr.fields().offset % 8 != 0 {
            r == Err::<u64, UbError>(UbError::Alignment) && final(mr_table)@ == old(mr_table)@
        } else {
            match refusal(old(mr_table)@, addr, Verb::AtomicFaa) {
                Some(e) => r == Err::<u64, UbError>(e) && final(mr_table)@ == old(mr_table)@,
                None => {
                    let h = region_of(old(mr_table)@, addr)->0;
                    let d = old(mr_table)@.entries[h].device;
                    let dev = old(mr_table)@.devices[d.0 as int];
                    let off = addr.fields().offset;
                    if dev.in_bounds(off, 8) {
                        r == Ok::<u64, UbError>(dev.word(off)) && final(mr_table)@ == old(mr_table)@.with_device(
                            d,
                            dev.with_word(
                                off,
                                ((dev.word(off) + add) % 0x1_0000_0000_0000_0000) as u64,
                            ),
                        )
                    } else {
                        r == Err::<u64, UbError>(UbError::AddrInvalid) && final(mr_table)@ == old(mr_table)@
                    }
                },
            }
        },
{
    if addr.offset() % 8 != 0 {
        return Err(UbError::Alignment);
    }
    match locate(mr_table, addr, Verb::AtomicFaa) {
        Ok(e) => mr_table.device_faa(e.device, addr.offset(), add),
        Err(e) => Err(e),
    }
}

/// What a write stores is what a read of the same address gives back.
pub proof fn lemma_read_after_write(t: MrTableView, addr: UbAddr, data: Seq<u8>)
    requires
        t.wf(),
        refusal(t, addr, Verb::Write) is None,
        refusal(t, addr, Verb::ReadReq) is None,
        ({
            let h = region_of(t, addr)->0;
            t.devices[t.entries[h].device.0 as int].in_bounds(addr.fields().offset, data.len())
        }),
    ensures
        ({
            let h = region_of(t, addr)->0;
            let d = t.entries[h].device;
            let dev = t.devices[d.0 as int];
            let off = addr.fields().offset;
            let after = t.with_device(d, dev.with(off, data));
            &&& refusal(after, addr, Verb::ReadReq) is None
            &&& region_of(after, addr) == Some(h)
            &&& after.devices[d.0 as int].in_bounds(off, data.len())
            &&& after.devices[d.0 as int].at(off, data.len()) == data
        }),
{
    let h = region_of(t, addr)->0;
    let d = t.entries[h].device;
    let dev = t.devices[d.0 as int];
    let off = addr.fields().offset;
    let after = t.with_device(d, dev.with(off, data));
    assert(t.entries.contains_key(h) && t.entries[h].covers(addr));
    assert(t.entry_ok(h));
    assert(after.entries == t.entries);
    dev.lemma_read_after_write(off, data, off, data.len());
}

} // verus!
