//! Configuration of a node.
use vstd::prelude::*;
use vstd::string::*;

verus! {

#[derive(Debug, Clone)]
pub struct NodeConfig {
    pub pod_id: u16,
    pub node_id: u16,
    pub control: ControlConfig,
    pub data: DataConfig,
    pub mr: MrConfig,
    pub device: DeviceConfig,
    pub transport: TransportConfig,
    pub flow: FlowConfig,
    pub jetty: JettyConfig,
    pub obs: ObsConfig,
    pub heartbeat: HeartbeatConfig,
    pub managed: ManagedConfig,
}

impl NodeConfig {
    /// Whether every part holds its default value.
    pub open spec fn is_default(&self) -> bool {
        &&& self.pod_id == 1
        &&& self.node_id == 0
        &&& self.control.is_default()
        &&& self.data.is_default()
        &&& self.mr == (MrConfig { deregister_timeout_ms: 500 })
        &&& self.device.npu == (NpuConfig { enabled: true, mem_size_mib: 256 })
        &&& self.transport == (TransportConfig {
            rto_ms: 200,
            max_retries: 8,
            sack_bitmap_bits: 256,
            reassembly_budget_bytes: 67108864,
        })
        &&& self.flow == (FlowConfig { initial_credits: 64 })
        &&& self.jetty == (JettyConfig {
            jfs_depth: 1024,
            jfr_depth: 1024,
            jfc_depth: 1024,
            jfc_high_watermark: 896,
        })
        &&& self.obs.metrics_listen@ == "127.0.0.1:9090"@
        &&& self.heartbeat == (HeartbeatConfig { interval_ms: 1000, fail_after: 3 })
        &&& self.managed.is_default()
    }
}

impl Default for NodeConfig {
    fn default() -> (r: Self)
        ensures
            r.is_default(),
    {
        NodeConfig {
            pod_id: 1,
            node_id: 0,
            control: ControlConfig::default(),
            data: DataConfig::default(),
            mr: MrConfig::default(),
            device: DeviceConfig::default(),
            transport: TransportConfig::default(),
            flow: FlowConfig::default(),
            jetty: JettyConfig::default(),
            obs: ObsConfig::default(),
            heartbeat: HeartbeatConfig::default(),
            managed: ManagedConfig::default(),
        }
    }
}

/// The control plane.
#[derive(Debug, Clone)]
pub struct ControlConfig {
    pub listen: String,
    pub bootstrap: String,
    pub peers: Vec<String>,
    pub seed_addrs: Vec<String>,
    pub hub_node_id: u16,
}

impl ControlConfig {
    pub open spec fn is_default(&self) -> bool {
        &&& self.listen@ == "0.0.0.0:7900"@
        &&& self.bootstrap@ == "static"@
        &&& self.peers@.len() == 0
        &&& self.seed_addrs@.len() == 0
        &&& self.hub_node_id == 0
    }
}

impl Default for ControlConfig {
    fn default() -> (r: Self)
        ensures
            r.is_default(),
    {
        ControlConfig {
            listen: String::from_str("0.0.0.0:7900"),
            bootstrap: String::from_str("static"),
            peers: Vec::new(),
            seed_addrs: Vec::new(),
            hub_node_id: 0,
        }
    }
}

/// The data plane.
#[derive(Debug, Clone)]
pub struct DataConfig {
    pub listen: String,
    pub fabric: String,
    pub mtu: u16,
}

impl DataConfig {
    pub open spec fn is_default(&self) -> bool {
        self.listen@ == "0.0.0.0:7901"@ && self.fabric@ == "udp"@ && self.mtu == 1400
    }
}

impl Default for DataConfig {
    fn default() -> (r: Self)
        ensures
            r.is_default(),
    {
        DataConfig {
            listen: String::from_str("0.0.0.0:7901"),
            fabric: String::from_str("udp"),
            mtu: 1400,
        }
    }
}

/// Memory regions.
#[derive(Debug, Clone, Copy)]
pub struct MrConfig {
    pub deregister_timeout_ms: u64,
}

impl Default for MrConfig {
    fn default() -> (r: Self)
        ensures
            r == (MrConfig { deregister_timeout_ms: 500 }),
    {
        MrConfig { deregister_timeout_ms: 500 }
    }
}

/// Devices.
#[derive(Debug, Clone, Copy)]
pub struct DeviceConfig {
    pub npu: NpuConfig,
}

/// The simulated NPU.
#[derive(Debug, Clone, Copy)]
pub struct NpuConfig {
    pub enabled: bool,
    pub mem_size_mib: u64,
}

impl Default for NpuConfig {
    fn default() -> (r: Self)
        ensures
            r == (NpuConfig { enabled: true, mem_size_mib: 256 }),
    {
        NpuConfig { enabled: true, mem_size_mib: 256 }
    }
}

impl Default for DeviceConfig {
    fn default() -> (r: Self)
        ensures
            r.npu == (NpuConfig { enabled: true, mem_size_mib: 256 }),
    {
        DeviceConfig { npu: NpuConfig::default() }
    }
}

/// The reliable transport.
#[derive(Debug, Clone, Copy)]
pub struct TransportConfig {
    pub rto_ms: u64,
    pub max_retries: u32,
    pub sack_bitmap_bits: u16,
    pub reassembly_budget_bytes: u64,
}

impl Default for TransportConfig {
    fn default() -> (r: Self)
        ensures
            r == (TransportConfig {
                rto_ms: 200,
                max_retries: 8,
                sack_bitmap_bits: 256,
                reassembly_budget_bytes: 67108864,
            }),
    {
        TransportConfig {
            rto_ms: 200,
            max_retries: 8,
            sack_bitmap_bits: 256,
            reassembly_budget_bytes: 67108864,
        }
    }
}

/// Credit flow control.
#[derive(Debug, Clone, Copy)]
pub struct FlowConfig {
    pub initial_credits: u32,
}

impl Default for FlowConfig {
    fn default() -> (r: Self)
        ensures
            r == (FlowConfig { initial_credits: 64 }),
    {
        FlowConfig { initial_credits: 64 }
    }
}

/// Depths of a jetty's queues.
#[derive(Debug, Clone, Copy)]
pub struct JettyConfig {
    pub jfs_depth: u32,
    pub jfr_depth: u32,
    pub jfc_depth: u32,
    pub jfc_high_watermark: u32,
}

impl Default for JettyConfig {
    fn default() -> (r: Self)
        ensures
            r == (JettyConfig {
                jfs_depth: 1024,
                jfr_depth: 1024,
                jfc_depth: 1024,
                jfc_high_watermark: 896,
            }),
    {
        JettyConfig { jfs_depth: 1024, jfr_depth: 1024, jfc_depth: 1024, jfc_high_watermark: 896 }
    }
}

/// Observability.
#[derive(Debug, Clone)]
pub struct ObsConfig {
    pub metrics_listen: String,
}

impl Default for ObsConfig {
    fn default() -> (r: Self)
        ensures
            r.metrics_listen@ == "127.0.0.1:9090"@,
    {
        ObsConfig { metrics_listen: String::from_str("127.0.0.1:9090") }
    }
}

/// Heartbeats between nodes.
#[derive(Debug, Clone, Copy)]
pub struct HeartbeatConfig {
    pub interval_ms: u64,
    pub fail_after: u32,
}

impl Default for HeartbeatConfig {
    fn default() -> (r: Self)
        ensures
            r == (HeartbeatConfig { interval_ms: 1000, fail_after: 3 }),
    {
        HeartbeatConfig { interval_ms: 1000, fail_after: 3 }
    }
}

/// The managed layer. The weights of placement are the host's own.
#[derive(Debug, Clone)]
pub struct ManagedConfig {
    pub enabled: bool,
    pub placer_node_id: u16,
    pub writer_lease_ms: u64,
    pub fetch_block_on_writer: bool,
    pub cache: CacheConfig,
}

impl ManagedConfig {
    pub open spec fn is_default(&self) -> bool {
        &&& !self.enabled
        &&& self.placer_node_id == 0
        &&& self.writer_lease_ms == 5000
        &&& self.fetch_block_on_writer
        &&& self.cache.max_bytes == 536870912
        &&& self.cache.eviction@ == "lru"@
    }
}

impl Default for ManagedConfig {
    fn default() -> (r: Self)
        ensures
            r.is_default(),
    {
        ManagedConfig {
            enabled: false,
            placer_node_id: 0,
            writer_lease_ms: 5000,
            fetch_block_on_writer: true,
            cache: CacheConfig::default(),
        }
    }
}

/// The cache of remote regions.
#[derive(Debug, Clone)]
pub struct CacheConfig {
    pub max_bytes: u64,
    pub eviction: String,
}

impl Default for CacheConfig {
    fn default() -> (r: Self)
        ensures
            r.max_bytes == 536870912,
            r.eviction@ == "lru"@,
    {
        CacheConfig { max_bytes: 536870912, eviction: String::from_str("lru") }
    }
}

} // verus!
