//! 128-bit bus addresses.
use crate::be::{be_bytes, be_value, pow256};
use crate::error::UbError;
use crate::text::{hex_text, parse_hex, parse_hex_text, push_hex, split_colons, split_ranges};
use vstd::prelude::*;
use vstd::string::*;

verus! {

/// A bus address: pod, node and device (16 bits each), offset (64), reserved (16),
/// from the most significant bits down.
#[derive(Copy, Clone, Debug, PartialEq, Eq, Hash, Structural)]
pub struct UbAddr(pub u128);

/// The five fields of an address.
#[verifier::ext_equal]
pub struct AddrFields {
    pub pod_id: u16,
    pub node_id: u16,
    pub device_id: u16,
    pub offset: u64,
    pub reserved: u16,
}

/// The address with the given fields, as a number.
pub open spec fn addr_value(f: AddrFields) -> nat {
    (f.pod_id * 0x1_0000_0000_0000_0000_0000_0000_0000 + f.node_id
        * 0x1_0000_0000_0000_0000_0000_0000 + f.device_id * 0x1_0000_0000_0000_0000_0000 + f.offset
        * 0x1_0000 + f.reserved) as nat
}

/// What `to_text` writes.
pub open spec fn addr_text(f: AddrFields) -> Seq<char> {
    "0x"@ + hex_text(f.pod_id as nat, 4) + ":"@ + hex_text(f.node_id as nat, 4) + ":"@ + hex_text(
        f.device_id as nat,
        4,
    ) + ":"@ + hex_text(f.offset as nat, 16) + ":"@ + hex_text(f.reserved as nat, 4)
}

/// The message for a field that is not a number.
pub open spec fn bad_field(name: Seq<char>, part: Seq<char>, why: Seq<char>) -> Seq<char> {
    "invalid "@ + name + " '"@ + part + "': "@ + why
}

/// What a text stands for: an address, or the message that says why it is none.
pub open spec fn parse_addr(s: Seq<char>) -> Result<AddrFields, Seq<char>> {
    if !(s.len() >= 2 && s[0] == '0' && s[1] == 'x') {
        Err("UB address must start with '0x': "@ + s)
    } else {
        let rest = s.subrange(2, s.len() as int);
        let parts = split_colons(rest);
        if parts.len() != 5 {
            Err("UB address must have 5 colon-separated segments: "@ + rest)
        } else {
            match parse_hex_text(parts[0], 0xFFFF) {
                Err(e) => Err(bad_field("pod_id"@, parts[0], e)),
                Ok(pod) => match parse_hex_text(parts[1], 0xFFFF) {
                    Err(e) => Err(bad_field("node_id"@, parts[1], e)),
                    Ok(node) => match parse_hex_text(parts[2], 0xFFFF) {
                        Err(e) => Err(bad_field("device_id"@, parts[2], e)),
                        Ok(dev) => match parse_hex_text(parts[3], 0xFFFF_FFFF_FFFF_FFFF) {
                            Err(e) => Err(bad_field("offset"@, parts[3], e)),
                            Ok(off) => match parse_hex_text(parts[4], 0xFFFF) {
                                Err(e) => Err(bad_field("reserved"@, parts[4], e)),
                                Ok(res) => Ok(
                                    AddrFields {
                                        pod_id: pod as u16,
                                        node_id: node as u16,
                                        device_id: dev as u16,
                                        offset: off as u64,
                                        reserved: res as u16,
                                    },
                                ),
                            },
                        },
                    },
                },
            }
        }
    }
}

impl UbAddr {
    /// The fields of the address.
    pub open spec fn fields(self) -> AddrFields {
        AddrFields {
            pod_id: (self.0 / 0x1_0000_0000_0000_0000_0000_0000_0000) as u16,
            node_id: (self.0 / 0x1_0000_0000_0000_0000_0000_0000 % 0x1_0000) as u16,
            device_id: (self.0 / 0x1_0000_0000_0000_0000_0000 % 0x1_0000) as u16,
            offset: (self.0 / 0x1_0000 % 0x1_0000_0000_0000_0000) as u64,
            reserved: (self.0 % 0x1_0000) as u16,
        }
    }

    /// An address is determined by its fields, and every choice of fields is an address.
    pub proof fn lemma_fields(self, f: AddrFields)
        ensures
            addr_value(self.fields()) == self.0,
            addr_value(f) <= u128::MAX,
            UbAddr(addr_value(f) as u128).fields() == f,
    {
        let v = addr_value(f);
        assert(v / 0x1_0000_0000_0000_0000_0000_0000_0000 == f.pod_id);
        assert(v / 0x1_0000_0000_0000_0000_0000_0000 == f.pod_id * 0x1_0000 + f.node_id);
        assert(v / 0x1_0000_0000_0000_0000_0000 == f.pod_id * 0x1_0000_0000 + f.node_id * 0x1_0000
            + f.device_id);
        assert(v / 0x1_0000 == f.pod_id * 0x1_0000_0000_0000_0000_0000_0000 + f.node_id
            * 0x1_0000_0000_0000_0000_0000 + f.device_id * 0x1_0000_0000_0000_0000 + f.offset);
    }

    pub fn new(pod_id: u16, node_id: u16, device_id: u16, offset: u64, reserved: u16) -> (r: Self)
        ensures
            r.fields() == (AddrFields { pod_id, node_id, device_id, offset, reserved }),
    {
        let ghost f = AddrFields { pod_id, node_id, device_id, offset, reserved };
        let val: u128 = pod_id as u128 * 0x1_0000_0000_0000_0000_0000_0000_0000 + node_id as u128
            * 0x1_0000_0000_0000_0000_0000_0000 + device_id as u128 * 0x1_0000_0000_0000_0000_0000
            + offset as u128 * 0x1_0000 + reserved as u128;
        proof {
            UbAddr(val).lemma_fields(f);
        }
        UbAddr(val)
    }

    pub fn pod_id(&self) -> (r: u16)
        ensures
            r == self.fields().pod_id,
    {
        (self.0 / 0x1_0000_0000_0000_0000_0000_0000_0000) as u16
    }

    pub fn node_id(&self) -> (r: u16)
        ensures
            r == self.fields().node_id,
    {
        (self.0 / 0x1_0000_0000_0000_0000_0000_0000 % 0x1_0000) as u16
    }

    pub fn device_id(&self) -> (r: u16)
        ensures
            r == self.fields().device_id,
    {
        (self.0 / 0x1_0000_0000_0000_0000_0000 % 0x1_0000) as u16
    }

    pub fn offset(&self) -> (r: u64)
        ensures
            r == self.fields().offset,
    {
        (self.0 / 0x1_0000 % 0x1_0000_0000_0000_0000) as u64
    }

    pub fn reserved(&self) -> (r: u16)
        ensures
            r == self.fields().reserved,
    {
        (self.0 % 0x1_0000) as u16
    }

    /// The same address at another offset.
    pub fn with_offset(&self, new_offset: u64) -> (r: Self)
        ensures
            r.fields() == (AddrFields { offset: new_offset, ..self.fields() }),
    {
        UbAddr::new(self.pod_id(), self.node_id(), self.device_id(), new_offset, self.reserved())
    }

    /// Text representation: `0x{pod}:{node}:{dev}:{off16}:{res}`.
    pub fn to_text(&self) -> (r: String)
        ensures
            r@ == addr_text(self.fields()),
    {
        let mut out = String::from_str("0x");
        push_hex(&mut out, self.pod_id() as u64, 4);
        out.append(":");
        push_hex(&mut out, self.node_id() as u64, 4);
        out.append(":");
        push_hex(&mut out, self.device_id() as u64, 4);
        out.append(":");
        push_hex(&mut out, self.offset(), 16);
        out.append(":");
        push_hex(&mut out, self.reserved() as u64, 4);
        out
    }

    /// Parses the text representation.
    pub fn from_text(s: &str) -> (r: Result<Self, UbError>)
        ensures
            match r {
                Ok(a) => parse_addr(s@) == Ok::<AddrFields, Seq<char>>(a.fields()),
                Err(e) => parse_addr(s@) is Err && e.is_internal(parse_addr(s@)->Err_0),
            },
    {
        let len: usize = s.unicode_len();
        if !(len >= 2 && s.get_char(0) == '0' && s.get_char(1) == 'x') {
            return Err(
                UbError::Internal(String::from_str("UB address must start with '0x': ").concat(s)),
            );
        }
        let rest = s.substring_char(2, len);
        let parts = split_ranges(rest);
        if parts.len() != 5 {
            return Err(
                UbError::Internal(
                    String::from_str("UB address must have 5 colon-separated segments: ").concat(
                        rest,
                    ),
                ),
            );
        }
        let p0 = rest.substring_char(parts[0].0, parts[0].1);
        let pod_id = match parse_hex(p0, 0xFFFF) {
            Ok(v) => v as u16,
            Err(e) => return Err(field_error("pod_id", p0, e)),
        };
        let p1 = rest.substring_char(parts[1].0, parts[1].1);
        let node_id = match parse_hex(p1, 0xFFFF) {
            Ok(v) => v as u16,
            Err(e) => return Err(field_error("node_id", p1, e)),
        };
        let p2 = rest.substring_char(parts[2].0, parts[2].1);
        let device_id = match parse_hex(p2, 0xFFFF) {
            Ok(v) => v as u16,
            Err(e) => return Err(field_error("device_id", p2, e)),
        };
        let p3 = rest.substring_char(parts[3].0, parts[3].1);
        let offset = match parse_hex(p3, 0xFFFF_FFFF_FFFF_FFFF) {
            Ok(v) => v,
            Err(e) => return Err(field_error("offset", p3, e)),
        };
        let p4 = rest.substring_char(parts[4].0, parts[4].1);
        let reserved = match parse_hex(p4, 0xFFFF) {
            Ok(v) => v as u16,
            Err(e) => return Err(field_error("reserved", p4, e)),
        };
        Ok(UbAddr::new(pod_id, node_id, device_id, offset, reserved))
    }

    /// Parsing the text of an address gives the address.
    pub proof fn lemma_text_round_trip(self)
        ensures
            parse_addr(addr_text(self.fields())) == Ok::<AddrFields, Seq<char>>(self.fields()),
    {
        let f = self.fields();
        reveal_strlit("0x");
        reveal_strlit(":");
        let a = hex_text(f.pod_id as nat, 4);
        let b = hex_text(f.node_id as nat, 4);
        let c = hex_text(f.device_id as nat, 4);
        let d = hex_text(f.offset as nat, 16);
        let e = hex_text(f.reserved as nat, 4);
        lemma_field_text(f.pod_id as nat, 4, 0xFFFF);
        lemma_field_text(f.node_id as nat, 4, 0xFFFF);
        lemma_field_text(f.device_id as nat, 4, 0xFFFF);
        lemma_field_text(f.offset as nat, 16, 0xFFFF_FFFF_FFFF_FFFF);
        lemma_field_text(f.reserved as nat, 4, 0xFFFF);
        let s = addr_text(f);
        let rest = s.subrange(2, s.len() as int);
        let s1 = a;
        let s2 = s1.push(':') + b;
        let s3 = s2.push(':') + c;
        let s4 = s3.push(':') + d;
        let s5 = s4.push(':') + e;
        assert(rest =~= s5);
        crate::text::lemma_split_extend(Seq::empty(), a);
        assert(Seq::<char>::empty() + a =~= a);
        assert(split_colons(a) =~= seq![a]);
        crate::text::lemma_split_next(s1, b);
        crate::text::lemma_split_next(s2, c);
        crate::text::lemma_split_next(s3, d);
        crate::text::lemma_split_next(s4, e);
        assert(split_colons(rest) =~= seq![a, b, c, d, e]);
        assert(s[0] == '0' && s[1] == 'x');
    }

    /// Serializes to 16 bytes, big-endian.
    pub fn to_bytes(&self) -> (r: [u8; 16])
        ensures
            r@ == be_bytes(self.0 as nat, 16),
    {
        let mut out: [u8; 16] = [0;16];
        let mut v: u128 = self.0;
        let mut i: usize = 0;
        proof {
            assert(be_bytes(v as nat, 16) + out@.skip(16) =~= be_bytes(v as nat, 16));
        }
        while i < 16
            invariant
                i <= 16,
                be_bytes(self.0 as nat, 16) == be_bytes(v as nat, (16 - i) as nat) + out@.skip(
                    16 - i,
                ),
            decreases 16 - i,
        {
            let ghost before = out@;
            out[15 - i] = (v % 256) as u8;
            proof {
                crate::be::lemma_be_bytes_len((v / 256) as nat, (15 - i) as nat);
                let lo = (v % 256) as u8;
                assert(be_bytes(v as nat, (16 - i) as nat) == be_bytes(
                    v as nat / 256,
                    (15 - i) as nat,
                ).push((v as nat % 256) as u8));
                assert(out@.skip(15 - i) =~= seq![lo] + before.skip(16 - i));
                assert(be_bytes(v as nat / 256, (15 - i) as nat).push(lo) + before.skip(16 - i)
                    =~= be_bytes(v as nat / 256, (15 - i) as nat) + out@.skip(15 - i));
            }
            v = v / 256;
            i = i + 1;
        }
        proof {
            assert(be_bytes(v as nat, 0) + out@.skip(0) =~= out@);
        }
        out
    }

    /// Deserializes from 16 bytes, big-endian.
    pub fn from_bytes(buf: &[u8; 16]) -> (r: Self)
        ensures
            r.0 == be_value(buf@),
    {
        let mut v: u128 = 0;
        let mut i: usize = 0;
        while i < 16
            invariant
                i <= 16,
                v == be_value(buf@.take(i as int)),
            decreases 16 - i,
        {
            proof {
                assert(buf@.take(i + 1).drop_last() =~= buf@.take(i as int));
                crate::be::lemma_value_bound(buf@.take(i + 1));
                reveal_with_fuel(pow256, 17);
                assert(pow256((i + 1) as nat) <= pow256(16)) by {
                    lemma_pow256_mono((i + 1) as nat, 16);
                }
            }
            v = v * 256 + buf[i] as u128;
            i = i + 1;
        }
        proof {
            assert(buf@.take(16) =~= buf@);
        }
        UbAddr(v)
    }

    /// The bytes of an address read back as the address.
    pub proof fn lemma_bytes_round_trip(self)
        ensures
            be_value(be_bytes(self.0 as nat, 16)) == self.0,
    {
        crate::be::lemma_pow256_values();
        crate::be::lemma_value_of_bytes(self.0 as nat, 16);
    }
}

proof fn lemma_pow256_mono(a: nat, b: nat)
    requires
        a <= b,
    ensures
        pow256(a) <= pow256(b),
    decreases b,
{
    if a < b {
        lemma_pow256_mono(a, (b - 1) as nat);
    }
}

proof fn lemma_field_text(n: nat, width: nat, max: nat)
    requires
        n <= max,
        width == 4 && max == 0xFFFF || width == 16 && max == 0xFFFF_FFFF_FFFF_FFFF,
    ensures
        parse_hex_text(hex_text(n, width), max) == Ok::<nat, Seq<char>>(n),
        hex_text(n, width).len() == width,
        forall|i: int| 0 <= i < width ==> hex_text(n, width)[i] != ':',
{
    assert(vstd::arithmetic::power::pow(16, 4) == 0x1_0000) by {
        reveal_with_fuel(vstd::arithmetic::power::pow, 5);
    }
    assert(vstd::arithmetic::power::pow(16, 16) == 0x1_0000_0000_0000_0000) by {
        reveal_with_fuel(vstd::arithmetic::power::pow, 17);
    }
    crate::text::lemma_scan_hex_text(n, width, max);
    crate::text::lemma_hex_text_chars(n, width);
}

fn field_error(name: &str, part: &str, why: &str) -> (r: UbError)
    ensures
        r.is_internal(bad_field(name@, part@, why@)),
{
    let mut m = String::from_str("invalid ");
    m.append(name);
    m.append(" '");
    m.append(part);
    m.append("': ");
    m.append(why);
    UbError::Internal(m)
}

} // verus!
