//! Per-round timings and byte counts.
use vstd::prelude::*;

verus! {

/// What the server measured in a round, sent after its answer.
#[derive(Debug, Clone, Copy, PartialEq, Eq, Structural)]
pub struct Log {
    pub physics_time: u32,
    pub compress_time: u32,
    pub decompress_time: u32,
}

/// Bytes of one direction of a round: before and after compression.
#[derive(Debug, Clone, Copy, PartialEq, Eq, Structural)]
pub struct NetworkLog {
    pub raw: u64,
    pub compressed: u64,
}

/// Microseconds spent compressing and decompressing at one end.
#[derive(Debug, Clone, Copy, PartialEq, Eq, Structural)]
pub struct TimeLog {
    pub compress: u32,
    pub decompress: u32,
}

/// Everything the client records of a round.
#[derive(Debug, Clone, Copy, PartialEq, Eq, Structural)]
pub struct PluginLog {
    pub physics_time: u32,
    pub network_time: u32,
    pub uplink: NetworkLog,
    pub downlink: NetworkLog,
    pub client: TimeLog,
    pub server: TimeLog,
}

impl Default for Log {
    fn default() -> (r: Log)
        ensures
            r == (Log { physics_time: 0, compress_time: 0, decompress_time: 0 }),
    {
        Log { physics_time: 0, compress_time: 0, decompress_time: 0 }
    }
}

impl Default for NetworkLog {
    fn default() -> (r: NetworkLog)
        ensures
            r == (NetworkLog { raw: 0, compressed: 0 }),
    {
        NetworkLog { raw: 0, compressed: 0 }
    }
}

impl Default for TimeLog {
    fn default() -> (r: TimeLog)
        ensures
            r == (TimeLog { compress: 0, decompress: 0 }),
    {
        TimeLog { compress: 0, decompress: 0 }
    }
}

impl Default for PluginLog {
    fn default() -> (r: PluginLog)
        ensures
            r == (PluginLog {
                physics_time: 0,
                network_time: 0,
                uplink: NetworkLog { raw: 0, compressed: 0 },
                downlink: NetworkLog { raw: 0, compressed: 0 },
                client: TimeLog { compress: 0, decompress: 0 },
                server: TimeLog { compress: 0, decompress: 0 },
            }),
    {
        PluginLog {
            physics_time: 0,
            network_time: 0,
            uplink: NetworkLog { raw: 0, compressed: 0 },
            downlink: NetworkLog { raw: 0, compressed: 0 },
            client: TimeLog { compress: 0, decompress: 0 },
            server: TimeLog { compress: 0, decompress: 0 },
        }
    }
}

impl PluginLog {
    /// The client's record of a round: its own measurements, with the
    /// server's physics time and server-side timings taken from `log`.
    pub fn from_round(log: &Log, network_time: u32, uplink: NetworkLog, downlink: NetworkLog, client: TimeLog) -> (r: PluginLog)
        ensures
            r == (PluginLog {
                physics_time: log.physics_time,
                network_time,
                uplink,
                downlink,
                client,
                server: TimeLog { compress: log.compress_time, decompress: log.decompress_time },
            }),
    {
        PluginLog {
            physics_time: log.physics_time,
            network_time,
            uplink,
            downlink,
            client,
            server: TimeLog { compress: log.compress_time, decompress: log.decompress_time },
        }
    }
}

} // verus!
