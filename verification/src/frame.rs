//! Data plane frames.
use crate::addr::UbAddr;
use crate::types::Verb;
use vstd::prelude::*;

verus! {

/// The letters "UBTY".
pub const MAGIC: u32 = 0x5542_5459;
pub const VERSION: u8 = 1;
pub const FRAME_HEADER_SIZE: usize = 32;
pub const DATA_EXT_HEADER_SIZE: usize = 48;
/// The extension header with an immediate value.
pub const DATA_EXT_HEADER_IMM_SIZE: usize = 56;

/// Types of data plane frame.
#[derive(Debug, Clone, Copy, PartialEq, Eq, Structural)]
pub enum FrameType {
    Data,
    Ack,
    Credit,
}

impl FrameType {
    /// The byte that stands for the value on the wire.
    pub open spec fn code(self) -> u8 {
        match self {
            FrameType::Data => 0x01,
            FrameType::Ack => 0x02,
            FrameType::Credit => 0x03,
        }
    }

    /// The value that a byte stands for.
    pub open spec fn of_code(v: u8) -> Option<Self> {
        if v == 0x01 {
            Some(FrameType::Data)
        } else if v == 0x02 {
            Some(FrameType::Ack)
        } else if v == 0x03 {
            Some(FrameType::Credit)
        } else {
            None
        }
    }

    /// Bytes and values stand for one another, each value for its own byte.
    pub proof fn lemma_code(self, v: u8)
        ensures
            Self::of_code(self.code()) == Some(self),
            Self::of_code(v) matches Some(x) ==> x.code() == v,
            self.code() == match self {
                FrameType::Data => 0x01u8,
                FrameType::Ack => 0x02,
                FrameType::Credit => 0x03,
            },
    {
    }

    pub fn to_u8(self) -> (r: u8)
        ensures
            r == self.code(),
    {
        match self {
            FrameType::Data => 0x01,
            FrameType::Ack => 0x02,
            FrameType::Credit => 0x03,
        }
    }

    pub fn from_u8(v: u8) -> (r: Option<Self>)
        ensures
            r == Self::of_code(v),
    {
        match v {
            0x01 => Some(FrameType::Data),
            0x02 => Some(FrameType::Ack),
            0x03 => Some(FrameType::Credit),
            _ => None,
        }
    }
}

/// Flags of the frame header.
#[derive(Debug, Clone, Copy, PartialEq, Eq, Structural)]
pub struct FrameFlags(u16);

impl FrameFlags {
    /// The bits of the set.
    pub closed spec fn spec_bits(self) -> u16 {
        self.0
    }

    /// Whether only known flags are set.
    pub open spec fn known(self) -> bool {
        self.spec_bits() & 0x7F == self.spec_bits()
    }

    /// Whether every flag of `other` is set.
    pub open spec fn has(self, other: Self) -> bool {
        self.spec_bits() & other.spec_bits() == other.spec_bits()
    }

    /// The set is its bits.
    pub broadcast proof fn lemma_bits(self, other: Self)
        ensures
            #![trigger self.spec_bits(), other.spec_bits()]
            self.spec_bits() == other.spec_bits() ==> self == other,
    {
    }

    pub fn ack_req() -> (r: Self)
        ensures
            r.spec_bits() == 0x01,
            r == Self::of_bits(0x01),
    {
        proof {
            Self::lemma_known_bits();
        }
        FrameFlags(0x01)
    }

    pub fn frag_first() -> (r: Self)
        ensures
            r.spec_bits() == 0x02,
            r == Self::of_bits(0x02),
    {
        proof {
            Self::lemma_known_bits();
        }
        FrameFlags(0x02)
    }

    pub fn frag_middle() -> (r: Self)
        ensures
            r.spec_bits() == 0x04,
            r == Self::of_bits(0x04),
    {
        proof {
            Self::lemma_known_bits();
        }
        FrameFlags(0x04)
    }

    pub fn frag_last() -> (r: Self)
        ensures
            r.spec_bits() == 0x08,
            r == Self::of_bits(0x08),
    {
        proof {
            Self::lemma_known_bits();
        }
        FrameFlags(0x08)
    }

    pub fn has_imm() -> (r: Self)
        ensures
            r.spec_bits() == 0x10,
            r == Self::of_bits(0x10),
    {
        proof {
            Self::lemma_known_bits();
        }
        FrameFlags(0x10)
    }

    pub fn has_sack() -> (r: Self)
        ensures
            r.spec_bits() == 0x20,
            r == Self::of_bits(0x20),
    {
        proof {
            Self::lemma_known_bits();
        }
        FrameFlags(0x20)
    }

    pub fn err_resp() -> (r: Self)
        ensures
            r.spec_bits() == 0x40,
            r == Self::of_bits(0x40),
    {
        proof {
            Self::lemma_known_bits();
        }
        FrameFlags(0x40)
    }

    /// Each flag is a known one.
    proof fn lemma_known_bits()
        ensures
            0u16 & 0x7F == 0,
            0x01u16 & 0x7F == 0x01,
            0x02u16 & 0x7F == 0x02,
            0x04u16 & 0x7F == 0x04,
            0x08u16 & 0x7F == 0x08,
            0x10u16 & 0x7F == 0x10,
            0x20u16 & 0x7F == 0x20,
            0x40u16 & 0x7F == 0x40,
    {
        assert(0u16 & 0x7F == 0
            && 0x01u16 & 0x7F == 0x01
            && 0x02u16 & 0x7F == 0x02
            && 0x04u16 & 0x7F == 0x04
            && 0x08u16 & 0x7F == 0x08
            && 0x10u16 & 0x7F == 0x10
            && 0x20u16 & 0x7F == 0x20
            && 0x40u16 & 0x7F == 0x40) by (bit_vector);
    }

    pub fn empty() -> (r: Self)
        ensures
            r.spec_bits() == 0,
            r == Self::of_bits(0),
    {
        proof {
            Self::lemma_known_bits();
        }
        FrameFlags(0)
    }

    pub fn bits(&self) -> (r: u16)
        ensures
            r == self.spec_bits(),
    {
        self.0
    }

    /// The known flags among the given bits.
    pub closed spec fn of_bits(bits: u16) -> Self {
        FrameFlags(bits & 0x7F)
    }

    /// A set of known flags is what its bits stand for.
    pub proof fn lemma_of_bits(self)
        ensures
            self.known() ==> Self::of_bits(self.spec_bits()) == self,
    {
    }

    pub broadcast proof fn lemma_truncated(bits: u16)
        ensures
            (#[trigger] Self::of_bits(bits)).spec_bits() == bits & 0x7F,
    {
    }

    /// The known flags among the given bits.
    pub fn from_bits_truncate(bits: u16) -> (r: Self)
        ensures
            r == Self::of_bits(bits),
    {
        FrameFlags(bits & 0x7F)
    }

    pub fn contains(&self, other: Self) -> (r: bool)
        ensures
            r == self.has(other),
    {
        self.0 & other.0 == other.0
    }

    /// The bits of a union.
    pub broadcast proof fn lemma_union(self, other: Self)
        ensures
            (#[trigger] vstd::std_specs::ops::BitOrSpec::bitor_spec(self, other)).spec_bits()
                == self.spec_bits() | other.spec_bits(),
    {
    }

}

impl core::ops::BitOr for FrameFlags {
    type Output = FrameFlags;

    fn bitor(self, rhs: FrameFlags) -> (r: FrameFlags) {
        FrameFlags(self.0 | rhs.0)
    }
}

impl vstd::std_specs::ops::BitOrSpecImpl for FrameFlags {
    open spec fn obeys_bitor_spec() -> bool {
        true
    }

    open spec fn bitor_req(self, rhs: FrameFlags) -> bool {
        true
    }

    closed spec fn bitor_spec(self, rhs: FrameFlags) -> FrameFlags {
        FrameFlags(self.0 | rhs.0)
    }
}

/// Flags of the data extension header.
#[derive(Debug, Clone, Copy, PartialEq, Eq, Structural)]
pub struct ExtFlags(u8);

impl ExtFlags {
    /// The bits of the set.
    pub closed spec fn spec_bits(self) -> u8 {
        self.0
    }

    /// Whether only known flags are set.
    pub open spec fn known(self) -> bool {
        self.spec_bits() & 0x07 == self.spec_bits()
    }

    /// Whether every flag of `other` is set.
    pub open spec fn has(self, other: Self) -> bool {
        self.spec_bits() & other.spec_bits() == other.spec_bits()
    }

    /// The set is its bits.
    pub broadcast proof fn lemma_bits(self, other: Self)
        ensures
            #![trigger self.spec_bits(), other.spec_bits()]
            self.spec_bits() == other.spec_bits() ==> self == other,
    {
    }

    pub fn has_imm() -> (r: Self)
        ensures
            r.spec_bits() == 0x01,
            r == Self::of_bits(0x01),
    {
        proof {
            Self::lemma_known_bits();
        }
        ExtFlags(0x01)
    }

    pub fn frag() -> (r: Self)
        ensures
            r.spec_bits() == 0x02,
            r == Self::of_bits(0x02),
    {
        proof {
            Self::lemma_known_bits();
        }
        ExtFlags(0x02)
    }

    pub fn err_resp() -> (r: Self)
        ensures
            r.spec_bits() == 0x04,
            r == Self::of_bits(0x04),
    {
        proof {
            Self::lemma_known_bits();
        }
        ExtFlags(0x04)
    }

    /// Each flag is a known one.
    proof fn lemma_known_bits()
        ensures
            0u8 & 0x07 == 0,
            0x01u8 & 0x07 == 0x01,
            0x02u8 & 0x07 == 0x02,
            0x04u8 & 0x07 == 0x04,
    {
        assert(0u8 & 0x07 == 0
            && 0x01u8 & 0x07 == 0x01
            && 0x02u8 & 0x07 == 0x02
            && 0x04u8 & 0x07 == 0x04) by (bit_vector);
    }

    pub fn empty() -> (r: Self)
        ensures
            r.spec_bits() == 0,
            r == Self::of_bits(0),
    {
        proof {
            Self::lemma_known_bits();
        }
        ExtFlags(0)
    }

    pub fn bits(&self) -> (r: u8)
        ensures
            r == self.spec_bits(),
    {
        self.0
    }

    /// The known flags among the given bits.
    pub closed spec fn of_bits(bits: u8) -> Self {
        ExtFlags(bits & 0x07)
    }

    /// A set of known flags is what its bits stand for.
    pub proof fn lemma_of_bits(self)
        ensures
            self.known() ==> Self::of_bits(self.spec_bits()) == self,
    {
    }

    pub broadcast proof fn lemma_truncated(bits: u8)
        ensures
            (#[trigger] Self::of_bits(bits)).spec_bits() == bits & 0x07,
    {
    }

    /// The known flags among the given bits.
    pub fn from_bits_truncate(bits: u8) -> (r: Self)
        ensures
            r == Self::of_bits(bits),
    {
        ExtFlags(bits & 0x07)
    }

    pub fn contains(&self, other: Self) -> (r: bool)
        ensures
            r == self.has(other),
    {
        self.0 & other.0 == other.0
    }

    /// The bits of a union.
    pub broadcast proof fn lemma_union(self, other: Self)
        ensures
            (#[trigger] vstd::std_specs::ops::BitOrSpec::bitor_spec(self, other)).spec_bits()
                == self.spec_bits() | other.spec_bits(),
    {
    }

}

impl core::ops::BitOr for ExtFlags {
    type Output = ExtFlags;

    fn bitor(self, rhs: ExtFlags) -> (r: ExtFlags) {
        ExtFlags(self.0 | rhs.0)
    }
}

impl vstd::std_specs::ops::BitOrSpecImpl for ExtFlags {
    open spec fn obeys_bitor_spec() -> bool {
        true
    }

    open spec fn bitor_req(self, rhs: ExtFlags) -> bool {
        true
    }

    closed spec fn bitor_spec(self, rhs: ExtFlags) -> ExtFlags {
        ExtFlags(self.0 | rhs.0)
    }
}

/// Frame header, 32 bytes on the wire.
#[derive(Debug, Clone, Copy, PartialEq)]
pub struct FrameHeader {
    pub magic: u32,
    pub version: u8,
    pub frame_type: FrameType,
    pub flags: FrameFlags,
    pub src_node: u16,
    pub dst_node: u16,
    pub reserved: u32,
    pub stream_seq: u64,
    pub payload_len: u32,
    pub header_crc: u32,
}

/// Data extension header, 48 bytes on the wire, and 8 more with an immediate value.
#[derive(Debug, Clone, Copy, PartialEq)]
pub struct DataExtHeader {
    pub verb: Verb,
    pub ext_flags: ExtFlags,
    pub mr_handle: u32,
    pub jetty_src: u32,
    pub jetty_dst: u32,
    pub opaque: u64,
    pub frag_id: u32,
    pub frag_index: u16,
    pub frag_total: u16,
    pub ub_addr: UbAddr,
    pub imm: Option<u64>,
}

/// ACK payload.
#[derive(Debug, Clone, Copy, PartialEq)]
pub struct AckPayload {
    pub ack_seq: u64,
    pub credit_grant: u32,
    pub reserved: u32,
    /// Bitmap of 256 sequence numbers, where the frame carries one.
    pub sack_bitmap: Option<[u8; 32]>,
}

/// CREDIT payload.
#[derive(Debug, Clone, Copy, PartialEq)]
pub struct CreditPayload {
    pub credits: u32,
    pub reserved: u32,
}

/// The contents of an `AckPayload`.
#[verifier::ext_equal]
pub struct AckView {
    pub ack_seq: u64,
    pub credit_grant: u32,
    pub reserved: u32,
    pub sack: Option<Seq<u8>>,
}

impl View for AckPayload {
    type V = AckView;

    open spec fn view(&self) -> AckView {
        AckView {
            ack_seq: self.ack_seq,
            credit_grant: self.credit_grant,
            reserved: self.reserved,
            sack: match self.sack_bitmap {
                Some(b) => Some(b@),
                None => None,
            },
        }
    }
}

/// A frame and the node that it is for.
#[derive(Debug)]
pub struct OutFrame {
    pub dst: u16,
    pub frame: Vec<u8>,
}

impl View for OutFrame {
    type V = (u16, Seq<u8>);

    open spec fn view(&self) -> (u16, Seq<u8>) {
        (self.dst, self.frame@)
    }
}

} // verus!
