//! Byte buffers: appending big-endian fields and reading them back in order.
use crate::be::{
    be_bytes, be_value, lemma_be_bytes_len, lemma_pow256_values, lemma_value_of_bytes, pow256,
};
use crate::error::UbError;
use crate::text::join;
use byteorder::{BigEndian, ByteOrder};
use bytes::BytesMut;
use vstd::prelude::*;
use vstd::slice::{slice_subrange, slice_to_vec};
use vstd::string::*;
use vstd::utf8::{decode_utf8, encode_utf8, valid_utf8};

verus! {

/// The contents of several byte vectors.
pub open spec fn byte_views(v: Seq<Vec<u8>>) -> Seq<Seq<u8>> {
    v.map_values(|m: Vec<u8>| m@)
}

/// `bytes::BytesMut`, a growable byte buffer. Opaque: what it holds is `bytes_contents`.
#[verifier::external_type_specification]
#[verifier::external_body]
pub struct ExBytesMut(BytesMut);

/// The bytes that a buffer holds.
pub uninterp spec fn bytes_contents(b: BytesMut) -> Seq<u8>;

/// `BytesMut::from`: a buffer that holds a copy of the bytes.
#[verifier::external_body]
pub(crate) fn bytes_from(src: &[u8]) -> (r: BytesMut)
    ensures
        bytes_contents(r) == src@,
{
    BytesMut::from(src)
}

/// `bytes::BufMut::put_u16` on a vector: appends two bytes, most significant first.
#[verifier::external_body]
pub(crate) fn put_u16(buf: &mut Vec<u8>, v: u16)
    ensures
        final(buf)@ == old(buf)@ + be_bytes(v as nat, 2),
{
    bytes::BufMut::put_u16(buf, v)
}

/// `bytes::BufMut::put_u32` on a vector: appends four bytes, most significant first.
#[verifier::external_body]
pub(crate) fn put_u32(buf: &mut Vec<u8>, v: u32)
    ensures
        final(buf)@ == old(buf)@ + be_bytes(v as nat, 4),
{
    bytes::BufMut::put_u32(buf, v)
}

/// `bytes::BufMut::put_u64` on a vector: appends eight bytes, most significant first.
#[verifier::external_body]
pub(crate) fn put_u64(buf: &mut Vec<u8>, v: u64)
    ensures
        final(buf)@ == old(buf)@ + be_bytes(v as nat, 8),
{
    bytes::BufMut::put_u64(buf, v)
}

/// `bytes::BufMut::put_u128` on a vector: appends sixteen bytes, most significant first.
#[verifier::external_body]
pub(crate) fn put_u128(buf: &mut Vec<u8>, v: u128)
    ensures
        final(buf)@ == old(buf)@ + be_bytes(v as nat, 16),
{
    bytes::BufMut::put_u128(buf, v)
}

/// `bytes::BufMut::put_slice` on a vector: appends the bytes.
#[verifier::external_body]
pub(crate) fn put_slice(buf: &mut Vec<u8>, src: &[u8])
    ensures
        final(buf)@ == old(buf)@ + src@,
{
    bytes::BufMut::put_slice(buf, src)
}

/// `byteorder::BigEndian::read_u16`: the number in the first two bytes. It panics on
/// a shorter slice.
#[verifier::external_body]
fn read_u16(buf: &[u8]) -> (r: u16)
    requires
        buf@.len() >= 2,
    ensures
        r == be_value(buf@.take(2)),
{
    BigEndian::read_u16(buf)
}

/// `byteorder::BigEndian::read_u32`: the number in the first four bytes. It panics on
/// a shorter slice.
#[verifier::external_body]
fn read_u32(buf: &[u8]) -> (r: u32)
    requires
        buf@.len() >= 4,
    ensures
        r == be_value(buf@.take(4)),
{
    BigEndian::read_u32(buf)
}

/// `byteorder::BigEndian::read_u64`: the number in the first eight bytes. It panics on
/// a shorter slice.
#[verifier::external_body]
fn read_u64(buf: &[u8]) -> (r: u64)
    requires
        buf@.len() >= 8,
    ensures
        r == be_value(buf@.take(8)),
{
    BigEndian::read_u64(buf)
}

/// `byteorder::BigEndian::read_u128`: the number in the first sixteen bytes. It panics on
/// a shorter slice.
#[verifier::external_body]
fn read_u128(buf: &[u8]) -> (r: u128)
    requires
        buf@.len() >= 16,
    ensures
        r == be_value(buf@.take(16)),
{
    BigEndian::read_u128(buf)
}

/// The text of the error that `String::from_utf8` returns for bytes that are not UTF-8.
pub uninterp spec fn utf8_fault(bytes: Seq<u8>) -> Seq<char>;

/// `String::from_utf8`: the characters that the bytes encode, or, where the bytes are
/// not UTF-8, the text of the error.
#[verifier::external_body]
fn utf8_string(bytes: Vec<u8>) -> (r: Result<String, String>)
    ensures
        match r {
            Ok(s) => valid_utf8(bytes@) && s@ == decode_utf8(bytes@),
            Err(t) => !valid_utf8(bytes@) && t@ == utf8_fault(bytes@),
        },
{
    match String::from_utf8(bytes) {
        Ok(s) => Ok(s),
        Err(e) => Err(e.to_string()),
    }
}

pub(crate) fn put_u8(buf: &mut Vec<u8>, v: u8)
    ensures
        final(buf)@ == old(buf)@ + be_bytes(v as nat, 1),
{
    buf.push(v);
    proof {
        reveal_with_fuel(be_bytes, 2);
        assert(buf@ =~= old(buf)@ + be_bytes(v as nat, 1));
    }
}

/// Appends the low 32 bits of a length.
pub(crate) fn put_len(buf: &mut Vec<u8>, n: usize)
    ensures
        final(buf)@ == old(buf)@ + be_bytes(n as nat, 4),
{
    let low: u32 = (n as u64 % 0x1_0000_0000) as u32;
    put_u32(buf, low);
    proof {
        crate::be::lemma_low_bytes(n as nat, 4);
        lemma_pow256_values();
    }
}

/// What reading from the front of a byte string gives: a value and the bytes that are
/// left, or the message that says why there is no value.
pub type Parsed<T> = Result<(T, Seq<u8>), Seq<char>>;

/// A value and the bytes that are left.
pub open spec fn parsed<T>(value: T, left: Seq<u8>) -> Parsed<T> {
    Ok((value, left))
}

/// The message for input that ends too early.
pub open spec fn short_input() -> Seq<char> {
    "failed to fill whole buffer"@
}

/// An unsigned number of `n` bytes.
pub open spec fn take_uint(s: Seq<u8>, n: nat) -> Parsed<nat> {
    if s.len() < n {
        Err(short_input())
    } else {
        Ok((be_value(s.take(n as int)), s.skip(n as int)))
    }
}

/// The unsigned number in the `n` bytes of `s` from `at` on.
pub open spec fn uint_at(s: Seq<u8>, at: int, n: nat) -> nat {
    be_value(s.subrange(at, at + n))
}

/// A run of `n` bytes.
pub open spec fn take_run(s: Seq<u8>, n: nat) -> Parsed<Seq<u8>> {
    if s.len() < n {
        Err(short_input())
    } else {
        Ok((s.take(n as int), s.skip(n as int)))
    }
}

/// A 32-bit length and as many bytes.
#[verifier::opaque]
pub open spec fn take_block(s: Seq<u8>) -> Parsed<Seq<u8>> {
    if s.len() < 4 || s.len() < 4 + uint_at(s, 0, 4) {
        Err(short_input())
    } else {
        Ok((s.subrange(4, 4int + uint_at(s, 0, 4)), s.skip(4int + uint_at(s, 0, 4))))
    }
}

/// A 32-bit length and as many bytes of UTF-8. `what` opens the message for bytes that
/// are not UTF-8.
#[verifier::opaque]
pub open spec fn take_text(s: Seq<u8>, what: Seq<char>) -> Parsed<Seq<char>> {
    match take_block(s) {
        Err(e) => Err(e),
        Ok((b, s1)) => if valid_utf8(b) {
            Ok((decode_utf8(b), s1))
        } else {
            Err(what + utf8_fault(b))
        },
    }
}

/// How `take_block` expects a block.
pub open spec fn block_bytes(b: Seq<u8>, rest: Seq<u8>) -> Seq<u8> {
    be_bytes(b.len(), 4) + (b + rest)
}

/// Reading a number from `at` on.
pub broadcast proof fn lemma_take_uint_at(s: Seq<u8>, at: int, n: nat)
    requires
        0 <= at <= s.len(),
    ensures
        #[trigger] take_uint(s.skip(at), n) == (if s.len() < at + n {
            Err::<(nat, Seq<u8>), Seq<char>>(short_input())
        } else {
            Ok((uint_at(s, at, n), s.skip(at + n)))
        }),
{
    if s.len() >= at + n {
        assert(s.skip(at).take(n as int) =~= s.subrange(at, at + n));
        assert(s.skip(at).skip(n as int) =~= s.skip(at + n));
    }
}

/// A number that fits is read back from its digits.
pub proof fn lemma_uint_at(s: Seq<u8>, at: int, v: nat, n: nat, rest: Seq<u8>)
    requires
        v < pow256(n),
        0 <= at <= s.len(),
        s.skip(at) == be_bytes(v, n) + rest,
    ensures
        at + n <= s.len(),
        uint_at(s, at, n) == v,
        s.skip(at + n) == rest,
{
    lemma_be_bytes_len(v, n);
    lemma_value_of_bytes(v, n);
    assert(s.skip(at).len() == n + rest.len());
    assert(s.subrange(at, at + n) =~= s.skip(at).take(n as int));
    assert(s.skip(at).take(n as int) =~= be_bytes(v, n));
    assert(s.skip(at + n) =~= s.skip(at).skip(n as int));
    assert(s.skip(at).skip(n as int) =~= rest);
}

pub proof fn lemma_take_block(b: Seq<u8>, rest: Seq<u8>)
    requires
        b.len() < 0x1_0000_0000,
    ensures
        take_block(block_bytes(b, rest)) == parsed(b, rest),
{
    reveal(take_block);
    lemma_pow256_values();
    let s = block_bytes(b, rest);
    assert(s.skip(0) =~= s);
    lemma_uint_at(s, 0, b.len(), 4, b + rest);
    assert(s.subrange(4, 4int + b.len()) =~= s.skip(4).take(b.len() as int));
    assert(s.skip(4).take(b.len() as int) =~= b);
    assert(s.skip(4int + b.len()) =~= s.skip(4).skip(b.len() as int));
    assert(s.skip(4).skip(b.len() as int) =~= rest);
}

pub proof fn lemma_take_text(t: Seq<char>, what: Seq<char>, rest: Seq<u8>)
    requires
        encode_utf8(t).len() < 0x1_0000_0000,
    ensures
        take_text(block_bytes(encode_utf8(t), rest), what) == parsed(t, rest),
{
    reveal(take_text);
    lemma_take_block(encode_utf8(t), rest);
    vstd::utf8::encode_utf8_valid_utf8(t);
    vstd::utf8::encode_utf8_decode_utf8(t);
}

/// A byte slice that is read from the front.
pub struct Reader<'a> {
    buf: &'a [u8],
    pos: usize,
}

impl<'a> Reader<'a> {
    pub closed spec fn wf(&self) -> bool {
        self.pos <= self.buf@.len()
    }

    /// The bytes that have not been read.
    pub closed spec fn rest(&self) -> Seq<u8> {
        self.buf@.skip(self.pos as int)
    }

    pub fn new(buf: &'a [u8]) -> (r: Reader<'a>)
        ensures
            r.wf(),
            r.rest() == buf@,
    {
        let r = Reader { buf, pos: 0 };
        assert(r.rest() =~= buf@);
        r
    }

    /// How many bytes have not been read.
    pub fn left(&self) -> (r: usize)
        requires
            self.wf(),
        ensures
            r == self.rest().len(),
    {
        self.buf.len() - self.pos
    }

    /// The bytes that have not been read.
    pub fn remaining(&self) -> (r: &'a [u8])
        requires
            self.wf(),
        ensures
            r@ == self.rest(),
    {
        slice_subrange(self.buf, self.pos, self.buf.len())
    }

    /// The next `n` bytes.
    pub fn run(&mut self, n: usize) -> (r: Result<&'a [u8], UbError>)
        requires
            old(self).wf(),
        ensures
            final(self).wf(),
            match r {
                Ok(v) => take_run(old(self).rest(), n as nat) == parsed(v@, final(self).rest()),
                Err(e) => take_run(old(self).rest(), n as nat) is Err && e.is_internal(
                    short_input(),
                ),
            },
    {
        if n > self.buf.len() - self.pos {
            return Err(UbError::internal("failed to fill whole buffer"));
        }
        let v = slice_subrange(self.buf, self.pos, self.pos + n);
        proof {
            assert(v@ =~= self.rest().take(n as int));
            assert(self.buf@.skip(self.pos + n) =~= self.rest().skip(n as int));
        }
        self.pos = self.pos + n;
        Ok(v)
    }

    pub fn u8(&mut self) -> (r: Result<u8, UbError>)
        requires
            old(self).wf(),
        ensures
            final(self).wf(),
            match r {
                Ok(v) => take_uint(old(self).rest(), 1) == parsed(v as nat, final(self).rest()),
                Err(e) => take_uint(old(self).rest(), 1) is Err && e.is_internal(short_input()),
            },
    {
        match self.run(1) {
            Ok(b) => {
                proof {
                    reveal_with_fuel(be_value, 2);
                }
                Ok(b[0])
            },
            Err(e) => Err(e),
        }
    }

    pub fn u16(&mut self) -> (r: Result<u16, UbError>)
        requires
            old(self).wf(),
        ensures
            final(self).wf(),
            match r {
                Ok(v) => take_uint(old(self).rest(), 2) == parsed(v as nat, final(self).rest()),
                Err(e) => take_uint(old(self).rest(), 2) is Err && e.is_internal(short_input()),
            },
    {
        match self.run(2) {
            Ok(b) => {
                assert(b@.take(2) =~= b@);
                Ok(read_u16(b))
            },
            Err(e) => Err(e),
        }
    }

    pub fn u32(&mut self) -> (r: Result<u32, UbError>)
        requires
            old(self).wf(),
        ensures
            final(self).wf(),
            match r {
                Ok(v) => take_uint(old(self).rest(), 4) == parsed(v as nat, final(self).rest()),
                Err(e) => take_uint(old(self).rest(), 4) is Err && e.is_internal(short_input()),
            },
    {
        match self.run(4) {
            Ok(b) => {
                assert(b@.take(4) =~= b@);
                Ok(read_u32(b))
            },
            Err(e) => Err(e),
        }
    }

    pub fn u64(&mut self) -> (r: Result<u64, UbError>)
        requires
            old(self).wf(),
        ensures
            final(self).wf(),
            match r {
                Ok(v) => take_uint(old(self).rest(), 8) == parsed(v as nat, final(self).rest()),
                Err(e) => take_uint(old(self).rest(), 8) is Err && e.is_internal(short_input()),
            },
    {
        match self.run(8) {
            Ok(b) => {
                assert(b@.take(8) =~= b@);
                Ok(read_u64(b))
            },
            Err(e) => Err(e),
        }
    }

    pub fn u128(&mut self) -> (r: Result<u128, UbError>)
        requires
            old(self).wf(),
        ensures
            final(self).wf(),
            match r {
                Ok(v) => take_uint(old(self).rest(), 16) == parsed(v as nat, final(self).rest()),
                Err(e) => take_uint(old(self).rest(), 16) is Err && e.is_internal(short_input()),
            },
    {
        match self.run(16) {
            Ok(b) => {
                assert(b@.take(16) =~= b@);
                Ok(read_u128(b))
            },
            Err(e) => Err(e),
        }
    }

    /// A length and as many bytes.
    pub fn block(&mut self) -> (r: Result<Vec<u8>, UbError>)
        requires
            old(self).wf(),
        ensures
            final(self).wf(),
            match r {
                Ok(v) => take_block(old(self).rest()) == parsed(v@, final(self).rest()),
                Err(e) => take_block(old(self).rest()) matches Err(t) && e.is_internal(t),
            },
    {
        reveal(take_block);
        let ghost s = self.rest();
        let n: u32 = match self.u32() {
            Ok(n) => n,
            Err(e) => return Err(e),
        };
        match self.run(n as usize) {
            Ok(b) => {
                assert(s.subrange(4, 4 + n) =~= s.skip(4).take(n as int));
                assert(s.skip(4 + n) =~= s.skip(4).skip(n as int));
                Ok(slice_to_vec(b))
            },
            Err(e) => Err(e),
        }
    }

    /// A length and as many bytes of UTF-8.
    pub fn text(&mut self, what: &str) -> (r: Result<String, UbError>)
        requires
            old(self).wf(),
        ensures
            final(self).wf(),
            match r {
                Ok(v) => take_text(old(self).rest(), what@) == parsed(v@, final(self).rest()),
                Err(e) => take_text(old(self).rest(), what@) matches Err(t) && e.is_internal(t),
            },
    {
        reveal(take_text);
        match self.block() {
            Ok(b) => match utf8_string(b) {
                Ok(s) => Ok(s),
                Err(t) => Err(UbError::Internal(join(what, t.as_str()))),
            },
            Err(e) => Err(e),
        }
    }
}

} // verus!
