//! Identifiers, verbs, device profiles and the other small values of the library.
use crate::error::UbStatus;
use vstd::prelude::*;

verus! {

/// Permission bits of a memory region.
#[derive(Debug, Clone, Copy, PartialEq, Eq, Structural)]
pub struct MrPerms(u8);

impl MrPerms {
    /// The bits of the set.
    pub closed spec fn spec_bits(self) -> u8 {
        self.0
    }

    /// Whether only known flags are set.
    pub open spec fn known(self) -> bool {
        self.spec_bits() & 0b111 == self.spec_bits()
    }

    /// Whether every flag of `other` is set.
    pub open spec fn has(self, other: Self) -> bool {
        self.spec_bits() & other.spec_bits() == other.spec_bits()
    }

    /// The set is its bits.
    pub broadcast proof fn lemma_bits(self, other: Self)
        ensures
            #![trigger self.spec_bits(), other.spec_bits()]
            self.spec_bits() == other.spec_bits() ==> self == other,
    {
    }

    pub fn read() -> (r: Self)
        ensures
            r.spec_bits() == 0b001,
            r == Self::of_bits(0b001),
    {
        proof {
            Self::lemma_known_bits();
        }
        MrPerms(0b001)
    }

    pub fn write() -> (r: Self)
        ensures
            r.spec_bits() == 0b010,
            r == Self::of_bits(0b010),
    {
        proof {
            Self::lemma_known_bits();
        }
        MrPerms(0b010)
    }

    pub fn atomic() -> (r: Self)
        ensures
            r.spec_bits() == 0b100,
            r == Self::of_bits(0b100),
    {
        proof {
            Self::lemma_known_bits();
        }
        MrPerms(0b100)
    }

    /// Each flag is a known one.
    proof fn lemma_known_bits()
        ensures
            0u8 & 0b111 == 0,
            0b001u8 & 0b111 == 0b001,
            0b010u8 & 0b111 == 0b010,
            0b100u8 & 0b111 == 0b100,
    {
        assert(0u8 & 0b111 == 0
            && 0b001u8 & 0b111 == 0b001
            && 0b010u8 & 0b111 == 0b010
            && 0b100u8 & 0b111 == 0b100) by (bit_vector);
    }

    pub fn empty() -> (r: Self)
        ensures
            r.spec_bits() == 0,
            r == Self::of_bits(0),
    {
        proof {
            Self::lemma_known_bits();
        }
        MrPerms(0)
    }

    pub fn bits(&self) -> (r: u8)
        ensures
            r == self.spec_bits(),
    {
        self.0
    }

    /// The known flags among the given bits.
    pub closed spec fn of_bits(bits: u8) -> Self {
        MrPerms(bits & 0b111)
    }

    /// A set of known flags is what its bits stand for.
    pub proof fn lemma_of_bits(self)
        ensures
            self.known() ==> Self::of_bits(self.spec_bits()) == self,
    {
    }

    pub broadcast proof fn lemma_truncated(bits: u8)
        ensures
            (#[trigger] Self::of_bits(bits)).spec_bits() == bits & 0b111,
    {
    }

    /// The known flags among the given bits.
    pub fn from_bits_truncate(bits: u8) -> (r: Self)
        ensures
            r == Self::of_bits(bits),
    {
        MrPerms(bits & 0b111)
    }

    pub fn contains(&self, other: Self) -> (r: bool)
        ensures
            r == self.has(other),
    {
        self.0 & other.0 == other.0
    }

    /// The bits of a union.
    pub broadcast proof fn lemma_union(self, other: Self)
        ensures
            (#[trigger] vstd::std_specs::ops::BitOrSpec::bitor_spec(self, other)).spec_bits()
                == self.spec_bits() | other.spec_bits(),
    {
    }

}

impl core::ops::BitOr for MrPerms {
    type Output = MrPerms;

    fn bitor(self, rhs: MrPerms) -> (r: MrPerms) {
        MrPerms(self.0 | rhs.0)
    }
}

impl vstd::std_specs::ops::BitOrSpecImpl for MrPerms {
    open spec fn obeys_bitor_spec() -> bool {
        true
    }

    open spec fn bitor_req(self, rhs: MrPerms) -> bool {
        true
    }

    closed spec fn bitor_spec(self, rhs: MrPerms) -> MrPerms {
        MrPerms(self.0 | rhs.0)
    }
}

/// Memory region handle, local to a node.
#[derive(Debug, Clone, Copy, PartialEq, Eq, Hash, Structural)]
pub struct MrHandle(pub u32);

/// Jetty handle, local to a node.
#[derive(Debug, Clone, Copy, PartialEq, Eq, Hash, Structural)]
pub struct JettyHandle(pub u32);

/// Jetty address, unique across the pod.
#[derive(Debug, Clone, Copy, PartialEq, Eq, Hash, Structural)]
pub struct JettyAddr {
    pub node_id: u16,
    pub jetty_id: u32,
}

/// Work request identifier.
pub type WrId = u64;

/// Node identifier.
pub type NodeId = u16;

/// Verbs, as carried by the data extension header.
#[derive(Debug, Clone, Copy, PartialEq, Eq, Structural)]
pub enum Verb {
    ReadReq,
    ReadResp,
    Write,
    AtomicCas,
    AtomicFaa,
    Send,
    WriteImm,
    AtomicCasResp,
    AtomicFaaResp,
}

impl Verb {
    /// The byte that stands for the value on the wire.
    pub open spec fn code(self) -> u8 {
        match self {
            Verb::ReadReq => 1,
            Verb::ReadResp => 2,
            Verb::Write => 3,
            Verb::AtomicCas => 4,
            Verb::AtomicFaa => 5,
            Verb::Send => 6,
            Verb::WriteImm => 7,
            Verb::AtomicCasResp => 8,
            Verb::AtomicFaaResp => 9,
        }
    }

    /// The value that a byte stands for.
    pub open spec fn of_code(v: u8) -> Option<Self> {
        if v == 1 {
            Some(Verb::ReadReq)
        } else if v == 2 {
            Some(Verb::ReadResp)
        } else if v == 3 {
            Some(Verb::Write)
        } else if v == 4 {
            Some(Verb::AtomicCas)
        } else if v == 5 {
            Some(Verb::AtomicFaa)
        } else if v == 6 {
            Some(Verb::Send)
        } else if v == 7 {
            Some(Verb::WriteImm)
        } else if v == 8 {
            Some(Verb::AtomicCasResp)
        } else if v == 9 {
            Some(Verb::AtomicFaaResp)
        } else {
            None
        }
    }

    /// Bytes and values stand for one another, each value for its own byte.
    pub proof fn lemma_code(self, v: u8)
        ensures
            Self::of_code(self.code()) == Some(self),
            Self::of_code(v) matches Some(x) ==> x.code() == v,
            self.code() == match self {
                Verb::ReadReq => 1u8,
                Verb::ReadResp => 2,
                Verb::Write => 3,
                Verb::AtomicCas => 4,
                Verb::AtomicFaa => 5,
                Verb::Send => 6,
                Verb::WriteImm => 7,
                Verb::AtomicCasResp => 8,
                Verb::AtomicFaaResp => 9,
            },
    {
    }

    pub fn to_u8(self) -> (r: u8)
        ensures
            r == self.code(),
    {
        match self {
            Verb::ReadReq => 1,
            Verb::ReadResp => 2,
            Verb::Write => 3,
            Verb::AtomicCas => 4,
            Verb::AtomicFaa => 5,
            Verb::Send => 6,
            Verb::WriteImm => 7,
            Verb::AtomicCasResp => 8,
            Verb::AtomicFaaResp => 9,
        }
    }

    pub fn from_u8(v: u8) -> (r: Option<Self>)
        ensures
            r == Self::of_code(v),
    {
        match v {
            1 => Some(Verb::ReadReq),
            2 => Some(Verb::ReadResp),
            3 => Some(Verb::Write),
            4 => Some(Verb::AtomicCas),
            5 => Some(Verb::AtomicFaa),
            6 => Some(Verb::Send),
            7 => Some(Verb::WriteImm),
            8 => Some(Verb::AtomicCasResp),
            9 => Some(Verb::AtomicFaaResp),
            _ => None,
        }
    }
}

/// Completion queue entry.
#[derive(Debug, Clone, Copy)]
pub struct Cqe {
    pub wr_id: WrId,
    pub status: UbStatus,
    pub imm: Option<u64>,
    pub byte_len: u32,
    pub jetty_id: u32,
    pub verb: Verb,
}

/// Kinds of device.
#[derive(Debug, Clone, Copy, PartialEq, Eq, Structural)]
pub enum DeviceKind {
    Memory,
    Npu,
}

impl DeviceKind {
    /// The byte that stands for the value on the wire.
    pub open spec fn code(self) -> u8 {
        match self {
            DeviceKind::Memory => 0,
            DeviceKind::Npu => 1,
        }
    }

    /// The value that a byte stands for.
    pub open spec fn of_code(v: u8) -> Option<Self> {
        if v == 0 {
            Some(DeviceKind::Memory)
        } else if v == 1 {
            Some(DeviceKind::Npu)
        } else {
            None
        }
    }

    /// Bytes and values stand for one another, each value for its own byte.
    pub proof fn lemma_code(self, v: u8)
        ensures
            Self::of_code(self.code()) == Some(self),
            Self::of_code(v) matches Some(x) ==> x.code() == v,
            self.code() == match self {
                DeviceKind::Memory => 0u8,
                DeviceKind::Npu => 1,
            },
    {
    }

    pub fn to_u8(self) -> (r: u8)
        ensures
            r == self.code(),
    {
        match self {
            DeviceKind::Memory => 0,
            DeviceKind::Npu => 1,
        }
    }

    pub fn from_u8(v: u8) -> (r: Option<Self>)
        ensures
            r == Self::of_code(v),
    {
        match v {
            0 => Some(DeviceKind::Memory),
            1 => Some(DeviceKind::Npu),
            _ => None,
        }
    }
}

/// A change of a peer's standing, as the control plane reports it.
#[derive(Debug, Clone, Copy, PartialEq, Eq, Structural)]
pub enum PeerChangeEvent {
    /// A new peer has joined.
    Joined { node_id: u16, epoch: u32 },
    /// A suspect peer is active again.
    Recovered { node_id: u16 },
    /// A peer has missed heartbeats.
    Suspect { node_id: u16 },
    /// A peer is down.
    Down { node_id: u16, epoch: u32 },
}

/// Storage tiers of devices.
#[derive(Debug, Clone, Copy, PartialEq, Eq, Structural)]
pub enum StorageTier {
    Hot,
    Warm,
    Cold,
}

impl StorageTier {
    /// The byte that stands for the value on the wire.
    pub open spec fn code(self) -> u8 {
        match self {
            StorageTier::Hot => 0,
            StorageTier::Warm => 1,
            StorageTier::Cold => 2,
        }
    }

    /// The value that a byte stands for.
    pub open spec fn of_code(v: u8) -> Option<Self> {
        if v == 0 {
            Some(StorageTier::Hot)
        } else if v == 1 {
            Some(StorageTier::Warm)
        } else if v == 2 {
            Some(StorageTier::Cold)
        } else {
            None
        }
    }

    /// Bytes and values stand for one another, each value for its own byte.
    pub proof fn lemma_code(self, v: u8)
        ensures
            Self::of_code(self.code()) == Some(self),
            Self::of_code(v) matches Some(x) ==> x.code() == v,
            self.code() == match self {
                StorageTier::Hot => 0u8,
                StorageTier::Warm => 1,
                StorageTier::Cold => 2,
            },
    {
    }

    pub fn to_u8(self) -> (r: u8)
        ensures
            r == self.code(),
    {
        match self {
            StorageTier::Hot => 0,
            StorageTier::Warm => 1,
            StorageTier::Cold => 2,
        }
    }

    pub fn from_u8(v: u8) -> (r: Option<Self>)
        ensures
            r == Self::of_code(v),
    {
        match v {
            0 => Some(StorageTier::Hot),
            1 => Some(StorageTier::Warm),
            2 => Some(StorageTier::Cold),
            _ => None,
        }
    }
}

/// What a device can do and how busy it is, for placement decisions.
#[derive(Debug, Clone, Copy)]
pub struct DeviceProfile {
    /// Node and device identifier.
    pub device_key: (u16, u16),
    pub kind: DeviceKind,
    pub tier: StorageTier,
    pub capacity_bytes: u64,
    pub peak_read_bw_mbps: u32,
    pub peak_write_bw_mbps: u32,
    pub read_latency_ns_p50: u32,
    pub write_latency_ns_p50: u32,
    pub used_bytes: u64,
    pub recent_rps: u32,
}

impl DeviceProfile {
    /// Capacity that is not in use; none where more is in use than there is.
    pub open spec fn spec_free(self) -> u64 {
        if self.capacity_bytes >= self.used_bytes {
            (self.capacity_bytes - self.used_bytes) as u64
        } else {
            0
        }
    }

    /// What is free and what is in use make up the capacity.
    pub proof fn lemma_free(self)
        ensures
            self.used_bytes <= self.capacity_bytes ==> self.spec_free() + self.used_bytes
                == self.capacity_bytes,
            self.used_bytes > self.capacity_bytes ==> self.spec_free() == 0,
    {
    }

    /// Default profile of CPU memory.
    pub fn memory_default(node_id: u16, capacity_bytes: u64) -> (r: Self)
        ensures
            r == (DeviceProfile {
                device_key: (node_id, 0),
                kind: DeviceKind::Memory,
                tier: StorageTier::Warm,
                capacity_bytes,
                peak_read_bw_mbps: 10_000,
                peak_write_bw_mbps: 10_000,
                read_latency_ns_p50: 200,
                write_latency_ns_p50: 200,
                used_bytes: 0,
                recent_rps: 0,
            }),
    {
        DeviceProfile {
            device_key: (node_id, 0),
            kind: DeviceKind::Memory,
            tier: StorageTier::Warm,
            capacity_bytes,
            peak_read_bw_mbps: 10_000,
            peak_write_bw_mbps: 10_000,
            read_latency_ns_p50: 200,
            write_latency_ns_p50: 200,
            used_bytes: 0,
            recent_rps: 0,
        }
    }

    /// Default profile of a simulated NPU.
    pub fn npu_default(node_id: u16, device_id: u16, capacity_bytes: u64) -> (r: Self)
        ensures
            r == (DeviceProfile {
                device_key: (node_id, device_id),
                kind: DeviceKind::Npu,
                tier: StorageTier::Hot,
                capacity_bytes,
                peak_read_bw_mbps: 50_000,
                peak_write_bw_mbps: 50_000,
                read_latency_ns_p50: 50,
                write_latency_ns_p50: 50,
                used_bytes: 0,
                recent_rps: 0,
            }),
    {
        DeviceProfile {
            device_key: (node_id, device_id),
            kind: DeviceKind::Npu,
            tier: StorageTier::Hot,
            capacity_bytes,
            peak_read_bw_mbps: 50_000,
            peak_write_bw_mbps: 50_000,
            read_latency_ns_p50: 50,
            write_latency_ns_p50: 50,
            used_bytes: 0,
            recent_rps: 0,
        }
    }

    pub fn free_bytes(&self) -> (r: u64)
        ensures
            r == self.spec_free(),
    {
        self.capacity_bytes.saturating_sub(self.used_bytes)
    }
}

/// Latency class hint for placement.
#[derive(Debug, Clone, Copy, PartialEq, Eq, Structural)]
pub enum LatencyClass {
    Critical,
    Normal,
    Bulk,
}

impl LatencyClass {
    /// The byte that stands for the value on the wire.
    pub open spec fn code(self) -> u8 {
        match self {
            LatencyClass::Critical => 0,
            LatencyClass::Normal => 1,
            LatencyClass::Bulk => 2,
        }
    }

    /// The value that a byte stands for.
    pub open spec fn of_code(v: u8) -> Option<Self> {
        if v == 0 {
            Some(LatencyClass::Critical)
        } else if v == 1 {
            Some(LatencyClass::Normal)
        } else if v == 2 {
            Some(LatencyClass::Bulk)
        } else {
            None
        }
    }

    /// Bytes and values stand for one another, each value for its own byte.
    pub proof fn lemma_code(self, v: u8)
        ensures
            Self::of_code(self.code()) == Some(self),
            Self::of_code(v) matches Some(x) ==> x.code() == v,
            self.code() == match self {
                LatencyClass::Critical => 0u8,
                LatencyClass::Normal => 1,
                LatencyClass::Bulk => 2,
            },
    {
    }

    pub fn to_u8(self) -> (r: u8)
        ensures
            r == self.code(),
    {
        match self {
            LatencyClass::Critical => 0,
            LatencyClass::Normal => 1,
            LatencyClass::Bulk => 2,
        }
    }

    pub fn from_u8(v: u8) -> (r: Option<Self>)
        ensures
            r == Self::of_code(v),
    {
        match v {
            0 => Some(LatencyClass::Critical),
            1 => Some(LatencyClass::Normal),
            2 => Some(LatencyClass::Bulk),
            _ => None,
        }
    }
}

/// Capacity class hint for placement.
#[derive(Debug, Clone, Copy, PartialEq, Eq, Structural)]
pub enum CapacityClass {
    Small,
    Large,
    Huge,
}

impl CapacityClass {
    /// The byte that stands for the value on the wire.
    pub open spec fn code(self) -> u8 {
        match self {
            CapacityClass::Small => 0,
            CapacityClass::Large => 1,
            CapacityClass::Huge => 2,
        }
    }

    /// The value that a byte stands for.
    pub open spec fn of_code(v: u8) -> Option<Self> {
        if v == 0 {
            Some(CapacityClass::Small)
        } else if v == 1 {
            Some(CapacityClass::Large)
        } else if v == 2 {
            Some(CapacityClass::Huge)
        } else {
            None
        }
    }

    /// Bytes and values stand for one another, each value for its own byte.
    pub proof fn lemma_code(self, v: u8)
        ensures
            Self::of_code(self.code()) == Some(self),
            Self::of_code(v) matches Some(x) ==> x.code() == v,
            self.code() == match self {
                CapacityClass::Small => 0u8,
                CapacityClass::Large => 1,
                CapacityClass::Huge => 2,
            },
    {
    }

    pub fn to_u8(self) -> (r: u8)
        ensures
            r == self.code(),
    {
        match self {
            CapacityClass::Small => 0,
            CapacityClass::Large => 1,
            CapacityClass::Huge => 2,
        }
    }

    pub fn from_u8(v: u8) -> (r: Option<Self>)
        ensures
            r == Self::of_code(v),
    {
        match v {
            0 => Some(CapacityClass::Small),
            1 => Some(CapacityClass::Large),
            2 => Some(CapacityClass::Huge),
            _ => None,
        }
    }
}

/// Region identifier, unique within a pod.
#[derive(Debug, Clone, Copy, PartialEq, Eq, Hash, Structural)]
pub struct RegionId(pub u64);

/// Global virtual address: the region identifier in the upper 64 bits, the offset
/// within the region in the lower 64.
#[derive(Debug, Clone, Copy, PartialEq, Eq, Hash, Structural)]
pub struct UbVa(pub u128);

impl UbVa {
    pub open spec fn spec_region(self) -> RegionId {
        RegionId((self.0 / 0x1_0000_0000_0000_0000) as u64)
    }

    pub open spec fn spec_offset(self) -> u64 {
        (self.0 % 0x1_0000_0000_0000_0000) as u64
    }

    /// Two virtual addresses of the same region and offset are the same.
    pub proof fn lemma_parts(self, other: Self)
        requires
            self.spec_region() == other.spec_region(),
            self.spec_offset() == other.spec_offset(),
        ensures
            self == other,
    {
    }

    pub fn new(region_id: RegionId, offset: u64) -> (r: Self)
        ensures
            r.spec_region() == region_id,
            r.spec_offset() == offset,
    {
        UbVa(region_id.0 as u128 * 0x1_0000_0000_0000_0000 + offset as u128)
    }

    pub fn region_id(&self) -> (r: RegionId)
        ensures
            r == self.spec_region(),
    {
        RegionId((self.0 / 0x1_0000_0000_0000_0000) as u64)
    }

    pub fn offset(&self) -> (r: u64)
        ensures
            r == self.spec_offset(),
    {
        (self.0 % 0x1_0000_0000_0000_0000) as u64
    }
}

/// Access pattern hint for placement.
#[derive(Debug, Clone, Copy, PartialEq, Eq, Structural)]
pub enum AccessPattern {
    ReadHeavy,
    WriteHeavy,
    Mixed,
}

impl AccessPattern {
    /// The byte that stands for the value on the wire.
    pub open spec fn code(self) -> u8 {
        match self {
            AccessPattern::ReadHeavy => 0,
            AccessPattern::WriteHeavy => 1,
            AccessPattern::Mixed => 2,
        }
    }

    /// The value that a byte stands for.
    pub open spec fn of_code(v: u8) -> Option<Self> {
        if v == 0 {
            Some(AccessPattern::ReadHeavy)
        } else if v == 1 {
            Some(AccessPattern::WriteHeavy)
        } else if v == 2 {
            Some(AccessPattern::Mixed)
        } else {
            None
        }
    }

    /// Bytes and values stand for one another, each value for its own byte.
    pub proof fn lemma_code(self, v: u8)
        ensures
            Self::of_code(self.code()) == Some(self),
            Self::of_code(v) matches Some(x) ==> x.code() == v,
            self.code() == match self {
                AccessPattern::ReadHeavy => 0u8,
                AccessPattern::WriteHeavy => 1,
                AccessPattern::Mixed => 2,
            },
    {
    }

    pub fn to_u8(self) -> (r: u8)
        ensures
            r == self.code(),
    {
        match self {
            AccessPattern::ReadHeavy => 0,
            AccessPattern::WriteHeavy => 1,
            AccessPattern::Mixed => 2,
        }
    }

    pub fn from_u8(v: u8) -> (r: Option<Self>)
        ensures
            r == Self::of_code(v),
    {
        match v {
            0 => Some(AccessPattern::ReadHeavy),
            1 => Some(AccessPattern::WriteHeavy),
            2 => Some(AccessPattern::Mixed),
            _ => None,
        }
    }
}

/// Hints passed with an allocation.
#[derive(Debug, Clone, Copy)]
pub struct AllocHints {
    pub size: u64,
    pub access: AccessPattern,
    pub latency_class: LatencyClass,
    pub capacity_class: CapacityClass,
    pub pin: Option<DeviceKind>,
    pub expected_readers: u32,
}

impl Default for AllocHints {
    fn default() -> (r: Self)
        ensures
            r == (AllocHints {
                size: 4096,
                access: AccessPattern::Mixed,
                latency_class: LatencyClass::Normal,
                capacity_class: CapacityClass::Small,
                pin: None,
                expected_readers: 0,
            }),
    {
        AllocHints {
            size: 4096,
            access: AccessPattern::Mixed,
            latency_class: LatencyClass::Normal,
            capacity_class: CapacityClass::Small,
            pin: None,
            expected_readers: 0,
        }
    }
}

/// State of a region in the local region table.
#[derive(Debug, Clone, Copy, PartialEq, Eq, Structural)]
pub enum RegionState {
    /// Not cached locally.
    Invalid,
    /// Cached locally, read-only, at the given epoch.
    Shared(u64),
    /// This node holds the authoritative copy.
    Home,
}

/// A region as the local region table knows it.
#[derive(Debug, Clone, Copy)]
pub struct RegionInfo {
    pub region_id: RegionId,
    pub home_node_id: u16,
    pub device_id: u16,
    pub mr_handle: u32,
    pub base_offset: u64,
    pub len: u64,
    pub epoch: u64,
    pub state: RegionState,
    /// Handle of the local memory region that holds the cached copy, if there is one.
    pub local_mr_handle: Option<u32>,
}

/// Life cycle of a memory region.
#[derive(Debug, Clone, Copy, PartialEq, Eq, Structural)]
pub enum MrState {
    Active,
    Revoking,
    Released,
}

/// States of a node.
#[derive(Debug, Clone, Copy, PartialEq, Eq, Structural)]
pub enum NodeState {
    Joining,
    Active,
    Suspect,
    Leaving,
    Down,
}

impl NodeState {
    /// The name of the state.
    pub fn name(&self) -> (r: &'static str)
        ensures
            r@ == match self {
                NodeState::Joining => "Joining"@,
                NodeState::Active => "Active"@,
                NodeState::Suspect => "Suspect"@,
                NodeState::Leaving => "Leaving"@,
                NodeState::Down => "Down"@,
            },
    {
        match self {
            NodeState::Joining => "Joining",
            NodeState::Active => "Active",
            NodeState::Suspect => "Suspect",
            NodeState::Leaving => "Leaving",
            NodeState::Down => "Down",
        }
    }
}

} // verus!
