//! Configuration of a proxy engine and its backends, as plain values.
use vstd::prelude::*;
use crate::tcp::ServerId;

verus! {

/// Idle timeout of an established connection when none is configured, in ms.
pub const DEFAULT_ESTABLISHED_TIMEOUT_MS: u64 = 200;

/// When the backend of a connection is chosen.
#[derive(Clone, Copy, Debug, PartialEq, Eq, Structural)]
pub enum ProxyMode {
    /// the backend is chosen as soon as the client handshake completes
    DelayedV0,
    /// the backend is chosen from the first client payload
    Delayed,
}

/// Configured timeouts.
#[derive(Clone, Copy, Debug, PartialEq, Eq, Structural)]
pub struct Timeouts {
    /// idle timeout of an established connection, in ms
    pub established: Option<u64>,
}

/// A backend server.
#[derive(Clone, Debug)]
pub struct TargetConfig {
    pub id: String,
    pub ip: u32,
    pub mac: Option<[u8; 6]>,
    pub linux_if: Option<String>,
    pub port: u16,
}

/// Settings of the proxy engine.
#[derive(Clone, Copy, Debug, PartialEq, Eq, Structural)]
pub struct EngineConfig {
    pub timeouts: Option<Timeouts>,
    /// the proxy's listen port
    pub port: u16,
    pub detailed_records: Option<bool>,
    pub mode: Option<ProxyMode>,
}

/// The whole configuration: backends, engine, and an optional load-test size.
#[derive(Clone, Debug)]
pub struct Configuration {
    pub targets: Vec<TargetConfig>,
    pub engine: EngineConfig,
    pub test_size: Option<usize>,
}

pub open spec fn established_timeout_of(e: EngineConfig) -> u64 {
    match e.timeouts {
        Some(Timeouts { established: Some(ms) }) => ms,
        _ => DEFAULT_ESTABLISHED_TIMEOUT_MS,
    }
}

impl EngineConfig {
    /// The idle timeout of established connections in ms, 200 unless
    /// configured.
    pub fn established_timeout_ms(&self) -> (r: u64)
        ensures
            r == established_timeout_of(*self),
    {
        match self.timeouts {
            Some(Timeouts { established: Some(ms) }) => ms,
            _ => DEFAULT_ESTABLISHED_TIMEOUT_MS,
        }
    }

    /// Whether per-connection records are emitted; off unless configured.
    pub fn records_enabled(&self) -> (r: bool)
        ensures
            r == (self.detailed_records == Some(true)),
    {
        match self.detailed_records {
            Some(b) => b,
            None => false,
        }
    }

    /// Whether the backend is chosen from the first payload; so unless
    /// `DelayedV0` is configured.
    pub fn selects_on_payload(&self) -> (r: bool)
        ensures
            r == (self.mode != Some(ProxyMode::DelayedV0)),
    {
        match self.mode {
            Some(ProxyMode::DelayedV0) => false,
            _ => true,
        }
    }
}

impl Configuration {
    /// The backend table: target `i` as backend `i`, at its address and port.
    pub fn servers(&self) -> (r: Vec<ServerId>)
        ensures
            r@.len() == self.targets@.len(),
            forall|i: int|
                0 <= i < r@.len() ==> #[trigger] r@[i] == (ServerId {
                    index: i as usize,
                    ip: self.targets@[i].ip,
                    port: self.targets@[i].port,
                }),
    {
        let mut r: Vec<ServerId> = Vec::new();
        let mut i: usize = 0;
        while i < self.targets.len()
            invariant
                i <= self.targets@.len(),
                r@.len() == i,
                forall|j: int|
                    0 <= j < i ==> #[trigger] r@[j] == (ServerId {
                        index: j as usize,
                        ip: self.targets@[j].ip,
                        port: self.targets@[j].port,
                    }),
            decreases self.targets@.len() - i,
        {
            r.push(ServerId { index: i, ip: self.targets[i].ip, port: self.targets[i].port });
            i = i + 1;
        }
        r
    }
}

} // verus!
