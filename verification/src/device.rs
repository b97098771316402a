//! Devices: byte-addressed memory with 64-bit atomics.
use crate::be::{be_bytes, be_value, lemma_be_bytes_len, pow256};
use crate::error::UbError;
use crate::types::{DeviceKind, StorageTier};
use vstd::arithmetic::power2::pow2;
use vstd::bits::lemma_u64_low_bits_mask_is_mod;
use vstd::prelude::*;

verus! {

/// `u16::to_ne_bytes`: the first byte of the number one in memory. It is one on a machine
/// that stores the low-order byte first and zero on the others.
#[verifier::external_body]
fn first_byte_of_one() -> (r: u8)
    ensures
        r == 0 || r == 1,
{
    1u16.to_ne_bytes()[0]
}

/// Whether the machine stores the low-order byte of a word first.
pub fn stores_low_byte_first() -> (r: bool) {
    first_byte_of_one() == 1
}

/// A word as the machine stores it, low-order byte first or last.
pub open spec fn word_bytes(v: u64, little: bool) -> Seq<u8> {
    if little {
        be_bytes(v as nat, 8).reverse()
    } else {
        be_bytes(v as nat, 8)
    }
}

/// The word that eight bytes hold.
pub open spec fn word_value(s: Seq<u8>, little: bool) -> nat {
    be_value(
        if little {
            s.reverse()
        } else {
            s
        },
    )
}

/// A stored word is read back.
pub proof fn lemma_word(v: u64, little: bool)
    ensures
        word_bytes(v, little).len() == 8,
        word_value(word_bytes(v, little), little) == v,
{
    lemma_be_bytes_len(v as nat, 8);
    crate::be::lemma_pow256_values();
    crate::be::lemma_value_of_bytes(v as nat, 8);
    let b = be_bytes(v as nat, 8);
    assert(b.reverse().reverse() =~= b);
}

/// What a device holds, and how it stores words.
#[verifier::ext_equal]
pub struct DeviceView {
    pub kind: DeviceKind,
    pub id: u16,
    pub bytes: Seq<u8>,
    pub little: bool,
}

impl DeviceView {
    pub open spec fn in_bounds(self, offset: u64, len: nat) -> bool {
        offset + len <= self.bytes.len()
    }

    /// The bytes from `offset` on.
    pub open spec fn at(self, offset: u64, len: nat) -> Seq<u8> {
        self.bytes.subrange(offset as int, offset + len)
    }

    /// The device with `data` at `offset`.
    pub open spec fn with(self, offset: u64, data: Seq<u8>) -> DeviceView {
        DeviceView {
            bytes: self.bytes.take(offset as int) + data + self.bytes.skip(offset + data.len()),
            ..self
        }
    }

    /// The word at `offset`.
    pub open spec fn word(self, offset: u64) -> u64 {
        word_value(self.at(offset, 8), self.little) as u64
    }

    /// The device with the word `v` at `offset`.
    pub open spec fn with_word(self, offset: u64, v: u64) -> DeviceView {
        self.with(offset, word_bytes(v, self.little))
    }

    /// Whether a word can be accessed atomically, or why it cannot.
    pub open spec fn atomic_fault(self, offset: u64) -> Option<UbError> {
        if offset % 8 != 0 {
            Some(UbError::Alignment)
        } else if !self.in_bounds(offset, 8) {
            Some(UbError::AddrInvalid)
        } else {
            None
        }
    }

    /// A range lies on the device where it ends by the last byte. A word can be accessed
    /// atomically exactly where its offset is a multiple of eight and it lies on the device.
    pub proof fn lemma_faults(self, offset: u64, len: nat)
        ensures
            self.in_bounds(offset, len) <==> offset + len <= self.bytes.len(),
            self.atomic_fault(offset) is None <==> offset % 8 == 0 && offset + 8
                <= self.bytes.len(),
            self.atomic_fault(offset) == Some(UbError::Alignment) <==> offset % 8 != 0,
            self.atomic_fault(offset) == Some(UbError::AddrInvalid) <==> offset % 8 == 0 && offset
                + 8 > self.bytes.len(),
    {
    }

    /// A write changes the bytes it covers and no other, and a read gets the bytes from its
    /// offset on.
    pub proof fn lemma_byte_after_write(self, offset: u64, data: Seq<u8>, i: int)
        requires
            offset + data.len() <= self.bytes.len(),
            0 <= i < self.bytes.len(),
        ensures
            self.with(offset, data).bytes.len() == self.bytes.len(),
            self.with(offset, data).bytes[i] == (if offset <= i < offset + data.len() {
                data[i - offset]
            } else {
                self.bytes[i]
            }),
            self.with(offset, data).kind == self.kind,
            self.with(offset, data).id == self.id,
            i < data.len() ==> self.at(offset, data.len())[i] == self.bytes[offset + i],
            self.at(offset, data.len()).len() == data.len(),
    {
    }

    /// What was written is read back, and the bytes elsewhere are as before.
    pub proof fn lemma_read_after_write(self, offset: u64, data: Seq<u8>, other: u64, len: nat)
        requires
            self.in_bounds(offset, data.len()),
            self.in_bounds(other, len),
        ensures
            self.with(offset, data).bytes.len() == self.bytes.len(),
            self.with(offset, data).at(offset, data.len()) == data,
            other + len <= offset || offset + data.len() <= other ==> self.with(offset, data).at(
                other,
                len,
            ) == self.at(other, len),
    {
        let w = self.with(offset, data);
        assert(w.at(offset, data.len()) =~= data);
        if other + len <= offset || offset + data.len() <= other {
            assert(w.at(other, len) =~= self.at(other, len));
        }
    }

    /// A word that was stored is the word that is loaded.
    pub proof fn lemma_word_after_store(self, offset: u64, v: u64)
        requires
            self.in_bounds(offset, 8),
        ensures
            self.with_word(offset, v).word(offset) == v,
            self.with_word(offset, v).bytes.len() == self.bytes.len(),
    {
        lemma_word(v, self.little);
        self.lemma_read_after_write(offset, word_bytes(v, self.little), offset, 8);
    }
}

/// A device that bytes are read from and written to.
pub trait Device: Sized {
    spec fn dev(&self) -> DeviceView;

    spec fn wf(&self) -> bool;

    fn kind(&self) -> (r: DeviceKind)
        ensures
            r == self.dev().kind,
    ;

    fn device_id(&self) -> (r: u16)
        ensures
            r == self.dev().id,
    ;

    fn capacity(&self) -> (r: u64)
        requires
            self.wf(),
        ensures
            r == self.dev().bytes.len(),
    ;

    /// Storage tier, for placement.
    fn tier(&self) -> (r: StorageTier)
        default_ensures
            r == StorageTier::Warm,
    {
        StorageTier::Warm
    }

    /// Peak read bandwidth in MiB/s.
    fn peak_read_bw_mbps(&self) -> (r: u32)
        default_ensures
            r == 10_000,
    {
        10_000
    }

    /// Peak write bandwidth in MiB/s.
    fn peak_write_bw_mbps(&self) -> (r: u32)
        default_ensures
            r == 10_000,
    {
        10_000
    }

    /// Median read latency in nanoseconds.
    fn read_latency_ns_p50(&self) -> (r: u32)
        default_ensures
            r == 200,
    {
        200
    }

    /// Median write latency in nanoseconds.
    fn write_latency_ns_p50(&self) -> (r: u32)
        default_ensures
            r == 200,
    {
        200
    }

    /// Fills `buf` from the bytes at `offset`.
    fn read(&self, offset: u64, buf: &mut [u8]) -> (r: Result<(), UbError>)
        requires
            self.wf(),
        ensures
            final(buf)@.len() == old(buf)@.len(),
            match r {
                Ok(_) => self.dev().in_bounds(offset, old(buf)@.len()) && final(buf)@
                    == self.dev().at(offset, old(buf)@.len()),
                Err(e) => !self.dev().in_bounds(offset, old(buf)@.len()) && final(buf)@
                    == old(buf)@ && e == UbError::AddrInvalid,
            },
    ;

    /// Writes `buf` at `offset`.
    fn write(&mut self, offset: u64, buf: &[u8]) -> (r: Result<(), UbError>)
        requires
            old(self).wf(),
        ensures
            final(self).wf(),
            match r {
                Ok(_) => old(self).dev().in_bounds(offset, buf@.len()) && final(self).dev() == old(
                    self,
                ).dev().with(offset, buf@),
                Err(e) => !old(self).dev().in_bounds(offset, buf@.len()) && final(self).dev()
                    == old(self).dev() && e == UbError::AddrInvalid,
            },
    ;

    /// Replaces the word at `offset` by `new` where it is `expect`. Returns the word that
    /// was there.
    fn atomic_cas(&mut self, offset: u64, expect: u64, new: u64) -> (r: Result<u64, UbError>)
        requires
            old(self).wf(),
        ensures
            final(self).wf(),
            match r {
                Ok(v) => {
                    &&& old(self).dev().atomic_fault(offset) is None
                    &&& v == old(self).dev().word(offset)
                    &&& final(self).dev() == (if v == expect {
                        old(self).dev().with_word(offset, new)
                    } else {
                        old(self).dev()
                    })
                },
                Err(e) => old(self).dev().atomic_fault(offset) == Some(e) && final(self).dev()
                    == old(self).dev(),
            },
    ;

    /// Adds to the word at `offset`, modulo 2^64. Returns the word that was there.
    fn atomic_faa(&mut self, offset: u64, add: u64) -> (r: Result<u64, UbError>)
        requires
            old(self).wf(),
        ensures
            final(self).wf(),
            match r {
                Ok(v) => {
                    &&& old(self).dev().atomic_fault(offset) is None
                    &&& v == old(self).dev().word(offset)
                    &&& final(self).dev() == old(self).dev().with_word(
                        offset,
                        ((v + add) % 0x1_0000_0000_0000_0000) as u64,
                    )
                },
                Err(e) => old(self).dev().atomic_fault(offset) == Some(e) && final(self).dev()
                    == old(self).dev(),
            },
    ;
}

/// Bytes in memory.
struct Store {
    data: Vec<u8>,
    little: bool,
}

impl Store {
    spec fn as_device(&self, kind: DeviceKind, id: u16) -> DeviceView {
        DeviceView { kind, id, bytes: self.data@, little: self.little }
    }

    fn new(size: usize) -> (r: Self)
        ensures
            r.data@ == Seq::new(size as nat, |i: int| 0u8),
    {
        let data: Vec<u8> = vec![0u8; size];
        let r = Store { data, little: stores_low_byte_first() };
        assert(r.data@ =~= Seq::new(size as nat, |i: int| 0u8));
        r
    }

    fn fits(&self, offset: u64, len: usize) -> (r: bool)
        ensures
            r == (offset + len <= self.data@.len()),
            self.data@.len() <= usize::MAX,
    {
        let cap: u64 = self.data.len() as u64;
        offset <= cap && len as u64 <= cap - offset
    }

    fn read(&self, offset: u64, buf: &mut [u8]) -> (r: Result<(), UbError>)
        ensures
            final(buf)@.len() == old(buf)@.len(),
            match r {
                Ok(_) => offset + old(buf)@.len() <= self.data@.len() && final(buf)@
                    == self.data@.subrange(offset as int, offset + old(buf)@.len()),
                Err(e) => offset + old(buf)@.len() > self.data@.len() && final(buf)@ == old(buf)@
                    && e == UbError::AddrInvalid,
            },
    {
        if !self.fits(offset, buf.len()) {
            return Err(UbError::AddrInvalid);
        }
        let n: usize = buf.len();
        let start: usize = offset as usize;
        let mut i: usize = 0;
        while i < n
            invariant
                i <= n,
                n == buf@.len(),
                start + n <= self.data@.len() <= usize::MAX,
                forall|k: int| 0 <= k < i ==> buf@[k] == self.data@[start + k],
            decreases n - i,
        {
            buf[i] = self.data[start + i];
            i = i + 1;
        }
        assert(buf@ =~= self.data@.subrange(offset as int, offset + n));
        Ok(())
    }

    fn put(&mut self, start: usize, buf: &[u8])
        requires
            start + buf@.len() <= old(self).data@.len(),
        ensures
            final(self).little == old(self).little,
            final(self).data@ == old(self).data@.take(start as int) + buf@ + old(self).data@.skip(
                start + buf@.len(),
            ),
    {
        let n: usize = buf.len();
        let cap: usize = self.data.len();
        let mut i: usize = 0;
        let ghost before = self.data@;
        while i < n
            invariant
                i <= n,
                n == buf@.len(),
                self.little == old(self).little,
                before == old(self).data@,
                self.data@.len() == before.len(),
                cap == before.len(),
                start + n <= cap,
                forall|k: int|
                    0 <= k < before.len() ==> #[trigger] self.data@[k] == (if start <= k < start
                        + i {
                        buf@[k - start]
                    } else {
                        before[k]
                    }),
            decreases n - i,
        {
            self.data.set(start + i, buf[i]);
            i = i + 1;
        }
        assert(self.data@ =~= before.take(start as int) + buf@ + before.skip(start + n));
    }

    fn write(&mut self, offset: u64, buf: &[u8]) -> (r: Result<(), UbError>)
        ensures
            final(self).little == old(self).little,
            match r {
                Ok(_) => offset + buf@.len() <= old(self).data@.len() && final(self).data@ == old(
                    self,
                ).data@.take(offset as int) + buf@ + old(self).data@.skip(offset + buf@.len()),
                Err(e) => offset + buf@.len() > old(self).data@.len() && *final(self) == *old(self)
                    && e == UbError::AddrInvalid,
            },
    {
        if !self.fits(offset, buf.len()) {
            return Err(UbError::AddrInvalid);
        }
        self.put(offset as usize, buf);
        Ok(())
    }

    fn check_atomic(&self, offset: u64) -> (r: Result<(), UbError>)
        ensures
            match r {
                Ok(_) => offset % 8 == 0 && offset + 8 <= self.data@.len() <= usize::MAX,
                Err(e) => e == (if offset % 8 != 0 {
                    UbError::Alignment
                } else {
                    UbError::AddrInvalid
                }) && (offset % 8 != 0 || offset + 8 > self.data@.len()),
            },
    {
        if offset % 8 != 0 {
            return Err(UbError::Alignment);
        }
        if !self.fits(offset, 8) {
            return Err(UbError::AddrInvalid);
        }
        Ok(())
    }

    fn load(&self, start: usize) -> (r: u64)
        requires
            start + 8 <= self.data@.len(),
        ensures
            r == word_value(self.data@.subrange(start as int, start + 8), self.little),
    {
        let ghost s = self.data@.subrange(start as int, start + 8);
        let ghost t = if self.little {
            s.reverse()
        } else {
            s
        };
        let cap: usize = self.data.len();
        let mut v: u64 = 0;
        let mut i: usize = 0;
        while i < 8
            invariant
                i <= 8,
                cap == self.data@.len(),
                start + 8 <= cap,
                s == self.data@.subrange(start as int, start + 8),
                t == (if self.little {
                    s.reverse()
                } else {
                    s
                }),
                v == be_value(t.take(i as int)),
            decreases 8 - i,
        {
            let pos: usize = if self.little {
                start + 7 - i
            } else {
                start + i
            };
            proof {
                assert(t.take(i + 1).drop_last() =~= t.take(i as int));
                assert(t.take(i + 1).last() == self.data@[pos as int]);
                crate::be::lemma_value_bound(t.take(i + 1));
                reveal_with_fuel(pow256, 9);
                assert(pow256((i + 1) as nat) <= 0x1_0000_0000_0000_0000);
            }
            v = v * 256 + self.data[pos] as u64;
            i = i + 1;
        }
        assert(t.take(8) =~= t);
        v
    }

    fn store(&mut self, start: usize, v: u64)
        requires
            start + 8 <= old(self).data@.len(),
        ensures
            final(self).little == old(self).little,
            final(self).data@ == old(self).data@.take(start as int) + word_bytes(
                v,
                old(self).little,
            ) + old(self).data@.skip(start + 8),
    {
        let mut digits: Vec<u8> = Vec::new();
        crate::wire::put_u64(&mut digits, v);
        proof {
            lemma_be_bytes_len(v as nat, 8);
            assert(digits@ =~= be_bytes(v as nat, 8));
        }
        if self.little {
            let mut rev: Vec<u8> = Vec::new();
            let mut i: usize = 0;
            while i < 8
                invariant
                    i <= 8,
                    digits@.len() == 8,
                    rev@.len() == i,
                    forall|k: int| 0 <= k < i ==> rev@[k] == digits@[7 - k],
                decreases 8 - i,
            {
                rev.push(digits[7 - i]);
                i = i + 1;
            }
            assert(rev@ =~= digits@.reverse());
            self.put(start, rev.as_slice());
        } else {
            self.put(start, digits.as_slice());
        }
    }

    fn cas(&mut self, offset: u64, expect: u64, new: u64) -> (r: Result<u64, UbError>)
        ensures
            final(self).little == old(self).little,
            forall|kind: DeviceKind, id: u16|
                #![trigger old(self).as_device(kind, id)]
                {
                    let a = old(self).as_device(kind, id);
                    let b = final(self).as_device(kind, id);
                    match r {
                        Ok(v) => a.atomic_fault(offset) is None && v == a.word(offset) && b == (
                        if v == expect {
                            a.with_word(offset, new)
                        } else {
                            a
                        }),
                        Err(e) => a.atomic_fault(offset) == Some(e) && b == a,
                    }
                },
    {
        match self.check_atomic(offset) {
            Ok(_) => {},
            Err(e) => return Err(e),
        }
        let start: usize = offset as usize;
        let v: u64 = self.load(start);
        if v == expect {
            self.store(start, new);
            proof {
                lemma_word(new, old(self).little);
            }
        }
        Ok(v)
    }

    fn faa(&mut self, offset: u64, add: u64) -> (r: Result<u64, UbError>)
        ensures
            final(self).little == old(self).little,
            forall|kind: DeviceKind, id: u16|
                #![trigger old(self).as_device(kind, id)]
                {
                    let a = old(self).as_device(kind, id);
                    let b = final(self).as_device(kind, id);
                    match r {
                        Ok(v) => a.atomic_fault(offset) is None && v == a.word(offset) && b
                            == a.with_word(
                            offset,
                            ((v + add) % 0x1_0000_0000_0000_0000) as u64,
                        ),
                        Err(e) => a.atomic_fault(offset) == Some(e) && b == a,
                    }
                },
    {
        match self.check_atomic(offset) {
            Ok(_) => {},
            Err(e) => return Err(e),
        }
        let start: usize = offset as usize;
        let v: u64 = self.load(start);
        let sum: u64 = ((v as u128 + add as u128) % 0x1_0000_0000_0000_0000) as u64;
        self.store(start, sum);
        proof {
            lemma_word(sum, old(self).little);
        }
        Ok(v)
    }
}

/// CPU memory. Its identifier is zero.
pub struct MemoryDevice {
    store: Store,
}

impl MemoryDevice {
    pub fn new(size: usize) -> (r: Self)
        ensures
            r.wf(),
            r.dev().kind == DeviceKind::Memory,
            r.dev().id == 0,
            r.dev().bytes == Seq::new(size as nat, |i: int| 0u8),
    {
        MemoryDevice { store: Store::new(size) }
    }
}

impl Device for MemoryDevice {
    closed spec fn dev(&self) -> DeviceView {
        self.store.as_device(DeviceKind::Memory, 0)
    }

    closed spec fn wf(&self) -> bool {
        true
    }

    fn kind(&self) -> (r: DeviceKind) {
        DeviceKind::Memory
    }

    fn device_id(&self) -> (r: u16) {
        0
    }

    fn capacity(&self) -> (r: u64) {
        self.store.data.len() as u64
    }

    fn read(&self, offset: u64, buf: &mut [u8]) -> (r: Result<(), UbError>) {
        self.store.read(offset, buf)
    }

    fn write(&mut self, offset: u64, buf: &[u8]) -> (r: Result<(), UbError>) {
        self.store.write(offset, buf)
    }

    fn atomic_cas(&mut self, offset: u64, expect: u64, new: u64) -> (r: Result<u64, UbError>) {
        self.store.cas(offset, expect, new)
    }

    fn atomic_faa(&mut self, offset: u64, add: u64) -> (r: Result<u64, UbError>) {
        self.store.faa(offset, add)
    }
}

/// Where an allocation starts behind `cursor`: the low bits are cleared after adding all of
/// them, which gives the next multiple where `align` is a power of two.
pub open spec fn align_up(cursor: u64, align: u64) -> u64 {
    ((cursor + align - 1) as u64) & !((align - 1) as u64)
}

/// An allocation starts behind the cursor, by less than its alignment, and at a multiple of
/// its alignment where that is a power of two.
pub proof fn lemma_align_up(cursor: u64, align: u64)
    requires
        align > 0,
        cursor + align - 1 <= u64::MAX,
    ensures
        cursor <= align_up(cursor, align) < cursor + align,
        (exists|n: nat| n < 64 && align == #[trigger] pow2(n)) ==> align_up(cursor, align) % align
            == 0,
{
    let top = (cursor + align - 1) as u64;
    let low = (align - 1) as u64;
    assert(top & !low <= top) by (bit_vector);
    assert(top - (top & !low) <= low) by (bit_vector);
    assert((top & !low) & low == 0) by (bit_vector);
    if exists|n: nat| n < 64 && align == #[trigger] pow2(n) {
        let n = choose|n: nat| n < 64 && align == #[trigger] pow2(n);
        lemma_u64_low_bits_mask_is_mod(top & !low, n);
    }
}

/// Simulated NPU memory, given out from the front.
pub struct NpuDevice {
    device_id: u16,
    store: Store,
    alloc_cursor: u64,
}

impl NpuDevice {
    /// How much has been given out.
    pub closed spec fn cursor(&self) -> u64 {
        self.alloc_cursor
    }

    pub fn new(device_id: u16, mem_size_mib: u64) -> (r: Self)
        requires
            mem_size_mib * 0x10_0000 <= usize::MAX,
        ensures
            r.wf(),
            r.cursor() == 0,
            r.dev().kind == DeviceKind::Npu,
            r.dev().id == device_id,
            r.dev().bytes == Seq::new((mem_size_mib * 0x10_0000) as nat, |i: int| 0u8),
    {
        let size: usize = mem_size_mib as usize * 0x10_0000;
        NpuDevice { device_id, store: Store::new(size), alloc_cursor: 0 }
    }

    /// Gives out `len` bytes behind what was given out before, aligned to `align`. Returns
    /// offset and length.
    pub fn allocate(&mut self, len: u64, align: u64) -> (r: Result<(u64, u64), UbError>)
        requires
            old(self).wf(),
            align > 0,
            old(self).cursor() + align - 1 <= u64::MAX,
            align_up(old(self).cursor(), align) + len <= u64::MAX,
        ensures
            final(self).wf(),
            final(self).dev() == old(self).dev(),
            match r {
                Ok(p) => {
                    &&& p.0 == align_up(old(self).cursor(), align)
                    &&& p.1 == len
                    &&& p.0 + len <= old(self).dev().bytes.len()
                    &&& final(self).cursor() == p.0 + len
                },
                Err(e) => align_up(old(self).cursor(), align) + len > old(self).dev().bytes.len()
                    && final(self).cursor() == old(self).cursor() && e == UbError::NoResources,
            },
    {
        let aligned: u64 = (self.alloc_cursor + (align - 1)) & !(align - 1);
        let end: u64 = aligned + len;
        if end > self.store.data.len() as u64 {
            return Err(UbError::NoResources);
        }
        self.alloc_cursor = end;
        Ok((aligned, len))
    }

    /// What is given out does not overlap: after an allocation the next one starts behind
    /// its end.
    pub proof fn lemma_alloc_apart(cursor: u64, len: u64, align: u64, next_align: u64)
        requires
            align > 0,
            cursor + align - 1 <= u64::MAX,
            align_up(cursor, align) + len <= u64::MAX,
            next_align > 0,
            align_up(cursor, align) + len + next_align - 1 <= u64::MAX,
        ensures
            cursor <= align_up(cursor, align),
            align_up(cursor, align) + len <= align_up(
                (align_up(cursor, align) + len) as u64,
                next_align,
            ),
    {
        lemma_align_up(cursor, align);
        lemma_align_up((align_up(cursor, align) + len) as u64, next_align);
    }
}

impl Device for NpuDevice {
    closed spec fn dev(&self) -> DeviceView {
        self.store.as_device(DeviceKind::Npu, self.device_id)
    }

    closed spec fn wf(&self) -> bool {
        true
    }

    fn kind(&self) -> (r: DeviceKind) {
        DeviceKind::Npu
    }

    fn device_id(&self) -> (r: u16) {
        self.device_id
    }

    fn capacity(&self) -> (r: u64) {
        self.store.data.len() as u64
    }

    fn tier(&self) -> (r: StorageTier)
        ensures
            r == StorageTier::Hot,
    {
        StorageTier::Hot
    }

    fn peak_read_bw_mbps(&self) -> (r: u32)
        ensures
            r == 50_000,
    {
        50_000
    }

    fn peak_write_bw_mbps(&self) -> (r: u32)
        ensures
            r == 50_000,
    {
        50_000
    }

    fn read_latency_ns_p50(&self) -> (r: u32)
        ensures
            r == 50,
    {
        50
    }

    fn write_latency_ns_p50(&self) -> (r: u32)
        ensures
            r == 50,
    {
        50
    }

    fn read(&self, offset: u64, buf: &mut [u8]) -> (r: Result<(), UbError>) {
        self.store.read(offset, buf)
    }

    fn write(&mut self, offset: u64, buf: &[u8]) -> (r: Result<(), UbError>) {
        self.store.write(offset, buf)
    }

    fn atomic_cas(&mut self, offset: u64, expect: u64, new: u64) -> (r: Result<u64, UbError>) {
        self.store.cas(offset, expect, new)
    }

    fn atomic_faa(&mut self, offset: u64, add: u64) -> (r: Result<u64, UbError>) {
        self.store.faa(offset, add)
    }
}

/// Source of NPU device identifiers, which start at one.
pub struct NpuIds {
    next: u16,
}

impl NpuIds {
    /// The identifier of the next device.
    pub closed spec fn next(&self) -> u16 {
        self.next
    }

    pub fn new() -> (r: Self)
        ensures
            r.next() == 1,
    {
        NpuIds { next: 1 }
    }
}

/// Opens a simulated NPU with the given memory size under the next identifier.
pub fn ub_npu_open(ids: &mut NpuIds, mem_size_mib: u64) -> (r: NpuDevice)
    requires
        mem_size_mib * 0x10_0000 <= usize::MAX,
    ensures
        final(ids).next() == (if old(ids).next() == u16::MAX {
            0
        } else {
            old(ids).next() + 1
        }),
        r.wf(),
        r.cursor() == 0,
        r.dev().kind == DeviceKind::Npu,
        r.dev().id == old(ids).next(),
        r.dev().bytes == Seq::new((mem_size_mib * 0x10_0000) as nat, |i: int| 0u8),
{
    let id: u16 = ids.next;
    ids.next = if id == u16::MAX {
        0
    } else {
        id + 1
    };
    NpuDevice::new(id, mem_size_mib)
}

/// Allocates from an NPU.
pub fn ub_npu_alloc(npu: &mut NpuDevice, len: u64, align: u64) -> (r: Result<(u64, u64), UbError>)
    requires
        old(npu).wf(),
        align > 0,
        old(npu).cursor() + align - 1 <= u64::MAX,
        align_up(old(npu).cursor(), align) + len <= u64::MAX,
    ensures
        final(npu).wf(),
        final(npu).dev() == old(npu).dev(),
        match r {
            Ok(p) => {
                &&& p.0 == align_up(old(npu).cursor(), align)
                &&& p.1 == len
                &&& p.0 + len <= old(npu).dev().bytes.len()
                &&& final(npu).cursor() == p.0 + len
            },
            Err(e) => align_up(old(npu).cursor(), align) + len > old(npu).dev().bytes.len()
                && final(npu).cursor() == old(npu).cursor() && e == UbError::NoResources,
        },
{
    npu.allocate(len, align)
}

/// A device of either kind.
pub enum AnyDevice {
    Memory(MemoryDevice),
    Npu(NpuDevice),
}

impl Device for AnyDevice {
    open spec fn dev(&self) -> DeviceView {
        match self {
            AnyDevice::Memory(d) => d.dev(),
            AnyDevice::Npu(d) => d.dev(),
        }
    }

    open spec fn wf(&self) -> bool {
        match self {
            AnyDevice::Memory(d) => d.wf(),
            AnyDevice::Npu(d) => d.wf(),
        }
    }

    fn kind(&self) -> (r: DeviceKind) {
        match self {
            AnyDevice::Memory(d) => d.kind(),
            AnyDevice::Npu(d) => d.kind(),
        }
    }

    fn device_id(&self) -> (r: u16) {
        match self {
            AnyDevice::Memory(d) => d.device_id(),
            AnyDevice::Npu(d) => d.device_id(),
        }
    }

    fn capacity(&self) -> (r: u64) {
        match self {
            AnyDevice::Memory(d) => d.capacity(),
            AnyDevice::Npu(d) => d.capacity(),
        }
    }

    fn tier(&self) -> (r: StorageTier)
        ensures
            r == (match self {
                AnyDevice::Memory(_) => StorageTier::Warm,
                AnyDevice::Npu(_) => StorageTier::Hot,
            }),
    {
        match self {
            AnyDevice::Memory(d) => d.tier(),
            AnyDevice::Npu(d) => d.tier(),
        }
    }

    fn peak_read_bw_mbps(&self) -> (r: u32)
        ensures
            r == (match self {
                AnyDevice::Memory(_) => 10_000,
                AnyDevice::Npu(_) => 50_000u32,
            }),
    {
        match self {
            AnyDevice::Memory(d) => d.peak_read_bw_mbps(),
            AnyDevice::Npu(d) => d.peak_read_bw_mbps(),
        }
    }

    fn peak_write_bw_mbps(&self) -> (r: u32)
        ensures
            r == (match self {
                AnyDevice::Memory(_) => 10_000,
                AnyDevice::Npu(_) => 50_000u32,
            }),
    {
        match self {
            AnyDevice::Memory(d) => d.peak_write_bw_mbps(),
            AnyDevice::Npu(d) => d.peak_write_bw_mbps(),
        }
    }

    fn read_latency_ns_p50(&self) -> (r: u32)
        ensures
            r == (match self {
                AnyDevice::Memory(_) => 200,
                AnyDevice::Npu(_) => 50u32,
            }),
    {
        match self {
            AnyDevice::Memory(d) => d.read_latency_ns_p50(),
            AnyDevice::Npu(d) => d.read_latency_ns_p50(),
        }
    }

    fn write_latency_ns_p50(&self) -> (r: u32)
        ensures
            r == (match self {
                AnyDevice::Memory(_) => 200,
                AnyDevice::Npu(_) => 50u32,
            }),
    {
        match self {
            AnyDevice::Memory(d) => d.write_latency_ns_p50(),
            AnyDevice::Npu(d) => d.write_latency_ns_p50(),
        }
    }

    fn read(&self, offset: u64, buf: &mut [u8]) -> (r: Result<(), UbError>) {
        match self {
            AnyDevice::Memory(d) => d.read(offset, buf),
            AnyDevice::Npu(d) => d.read(offset, buf),
        }
    }

    fn write(&mut self, offset: u64, buf: &[u8]) -> (r: Result<(), UbError>) {
        match self {
            AnyDevice::Memory(d) => d.write(offset, buf),
            AnyDevice::Npu(d) => d.write(offset, buf),
        }
    }

    fn atomic_cas(&mut self, offset: u64, expect: u64, new: u64) -> (r: Result<u64, UbError>) {
        match self {
            AnyDevice::Memory(d) => d.atomic_cas(offset, expect, new),
            AnyDevice::Npu(d) => d.atomic_cas(offset, expect, new),
        }
    }

    fn atomic_faa(&mut self, offset: u64, add: u64) -> (r: Result<u64, UbError>) {
        match self {
            AnyDevice::Memory(d) => d.atomic_faa(offset, add),
            AnyDevice::Npu(d) => d.atomic_faa(offset, add),
        }
    }
}

} // verus!
