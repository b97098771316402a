//! UniBus: a small unified-bus stack. Nodes share memory regions by 128-bit bus addresses,
//! exchange data frames over a reliable transport, keep a membership view over a control
//! plane, and place and cache managed regions.
pub mod text;
pub mod be;
pub mod error;
pub mod addr;
pub mod types;
pub mod table;
pub mod wire;
pub mod message;
pub mod frame;
pub mod codec;
pub mod dedup;
pub mod read_cache;
pub mod session;
pub mod manager;
pub mod config;
pub mod device;
pub mod mr;
pub mod verbs;
pub mod jetty;
pub mod demux;
pub mod dataplane;
pub mod member;
pub mod clock;
pub mod control;
pub mod peers;
pub mod sub_alloc;
pub mod region;
pub mod cache_pool;
pub mod fetch_agent;
pub mod coherence;
pub mod registry;
pub mod placer;
pub mod requests;
pub mod kv;
