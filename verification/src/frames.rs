//! The first-generation IPC vocabulary: data frames, downstream controls,
//! handshakes and health reports, with the Core's ring and QoS settings.
use vstd::prelude::*;

verus! {

/// The IPC version; a breaking change increments it.
pub const PROTO_VERSION: u32 = 1;

/// Whether a frame carries data or a warning.
#[derive(Clone, Copy, Debug, PartialEq, Eq)]
pub enum FrameKind {
    Data,
    Warning,
}

impl Default for FrameKind {
    /// Data.
    fn default() -> (k: FrameKind)
        ensures
            k == FrameKind::Data,
    {
        FrameKind::Data
    }
}

/// An upstream data frame: Input to Core to Outputs.
#[derive(Clone, Debug)]
pub struct Frame {
    pub seq: u64,
    pub ts_ms: u64,
    pub source_id: String,
    pub payload: Vec<u8>,
    pub kind: FrameKind,
}

/// A downstream instruction from the Core to an Input or Output.
#[derive(Clone, Debug)]
pub enum ControlOp {
    WriteSerial { bytes: Vec<u8> },
    SetBaud { baud: u32 },
    SetDtr { level: bool },
    SetRts { level: bool },
    SetLevel { level: String },
    Seek { offset: u64 },
    SetFilter { rule: String },
}

/// A control addressed to one plugin.
#[derive(Clone, Debug)]
pub struct Control {
    pub target: String,
    pub op: ControlOp,
    pub correlation_id: Option<String>,
}

/// The handshake a plugin sends when it starts.
#[derive(Clone, Debug)]
pub struct Hello {
    pub plugin_id: String,
    pub version: u32,
    pub capabilities: Vec<String>,
}

/// A heartbeat with the plugin's lag in frames.
#[derive(Clone, Debug)]
pub struct Health {
    pub plugin_id: String,
    pub lag_frames: u64,
}

/// Ring capacity and the lag at which a consumer counts as slow.
#[derive(Clone, Copy, Debug)]
pub struct CoreConfig {
    pub ring_capacity: usize,
    pub slow_consumer_threshold: usize,
}

impl Default for CoreConfig {
    /// 8192 frames, slow beyond 6144.
    fn default() -> (c: CoreConfig)
        ensures
            c.ring_capacity == 8192,
            c.slow_consumer_threshold == 6144,
    {
        CoreConfig { ring_capacity: 8192, slow_consumer_threshold: 6144 }
    }
}

/// The routing table of frames and controls.
#[derive(Debug)]
pub struct Bus;

impl Bus {
    /// An empty routing table.
    pub fn new() -> (b: Bus) {
        Bus
    }
}

impl Default for Bus {
    fn default() -> (b: Bus) {
        Bus::new()
    }
}

/// The lossy delivery policy for slow consumers.
#[derive(Debug)]
pub struct Qos;

/// The supervisor of plugin processes.
#[derive(Debug)]
pub struct Supervisor;

/// The stream framer of raw input.
#[derive(Debug)]
pub struct Framer;

} // verus!
