//! The settings of a tunnel, and what it tells of its life.

use vstd::prelude::*;
use vstd::string::*;
use crate::addr::SocketAddr;
use crate::identity::{RelayEndpoint, RelayProtocol};
use crate::vocab::Reason;

verus! {

/// Every interval and time limit of the protocols, in milliseconds.
#[derive(Debug, Clone, Copy, PartialEq, Eq)]
pub struct Timings {
    /// How often the sharer registers with a relay.
    pub register_interval: u64,
    /// How long a connection may be silent.
    pub quic_idle_timeout: u64,
    /// How often the sharer probes a client that is active.
    pub quic_keep_alive: u64,
    /// How long to wait after a dial that failed.
    pub reconnect_delay: u64,
    /// How long to wait after a direct path that failed.
    pub upgrade_retry_delay: u64,
    /// How long the end of a path waits for another to take over.
    pub upgrade_rescue_grace: u64,
    /// How long each of the two phases of a punch may take.
    pub punch_phase_timeout: u64,
    /// How often punch packets are sent.
    pub punch_send_interval: u64,
    /// How long to wait for the peer's endpoint.
    pub endpoint_exchange_timeout: u64,
    /// How long dialing a relay may take.
    pub relay_dial_timeout: u64,
    /// After which silence probing starts again.
    pub keepalive_idle_threshold: u64,
    /// How long to wait for the answer to a probe.
    pub keepalive_response_timeout: u64,
    /// For how long something that came shows that the peer is alive.
    pub keepalive_inbound_grace: u64,
}

/// The default intervals and time limits.
pub open spec fn default_timings() -> Timings {
    Timings {
        register_interval: 30_000,
        quic_idle_timeout: 30_000,
        quic_keep_alive: 10_000,
        reconnect_delay: 5_000,
        upgrade_retry_delay: 15_000,
        upgrade_rescue_grace: 2_000,
        punch_phase_timeout: 5_000,
        punch_send_interval: 300,
        endpoint_exchange_timeout: 10_000,
        relay_dial_timeout: 8_000,
        keepalive_idle_threshold: 20_000,
        keepalive_response_timeout: 3_000,
        keepalive_inbound_grace: 5_000,
    }
}

impl Default for Timings {
    fn default() -> (t: Timings)
        ensures
            t == default_timings(),
    {
        Timings {
            register_interval: 30_000,
            quic_idle_timeout: 30_000,
            quic_keep_alive: 10_000,
            reconnect_delay: 5_000,
            upgrade_retry_delay: 15_000,
            upgrade_rescue_grace: 2_000,
            punch_phase_timeout: 5_000,
            punch_send_interval: 300,
            endpoint_exchange_timeout: 10_000,
            relay_dial_timeout: 8_000,
            keepalive_idle_threshold: 20_000,
            keepalive_response_timeout: 3_000,
            keepalive_inbound_grace: 5_000,
        }
    }
}

/// What takes the packets of a session on the sharer's side.
#[derive(Debug, Clone, Copy, PartialEq, Eq, Structural)]
pub enum ExitMode {
    /// The IP stack of this process.
    Netstack,
    /// The application.
    Custom,
}

impl Default for ExitMode {
    fn default() -> (m: ExitMode)
        ensures
            m == ExitMode::Netstack,
    {
        ExitMode::Netstack
    }
}

/// What a tunnel tells of its life.
#[derive(Debug, Clone, PartialEq, Eq)]
pub enum TunnelEvent {
    /// A session is up; `peer` is the other end of its first connection.
    RelaySessionEstablished { peer: SocketAddr },
    /// A direct path has taken over.
    DirectUpgradeSucceeded { local: SocketAddr, peer: SocketAddr },
    /// An attempt at a direct path failed.
    DirectUpgradeFailed { code: Reason, reason: String },
    /// The client dials again.
    Reconnecting,
    /// The client has dialed again.
    Reconnected,
    /// The sharer's session has ended.
    SessionEnded { reason: String },
    /// The connection log cannot be written.
    ConnLogDegraded { detail: String },
}

/// The settings of a tunnel.
#[derive(Debug, Clone, PartialEq, Eq)]
pub struct Config {
    /// The server that tells the own public address.
    pub stun_server: String,
    /// The endpoints, in order of preference.
    pub relays: Vec<RelayEndpoint>,
    pub exit_mode: ExitMode,
    pub timings: Timings,
    /// Whether a direct path is tried once a session is up.
    pub enable_direct_upgrade: bool,
    /// What a relay is shown to be allowed to register.
    pub relay_token: Option<Vec<u8>>,
}

impl Default for Config {
    fn default() -> (c: Config)
        ensures
            c.stun_server@ == "stun.l.google.com:19302"@,
            c.relays@.len() == 1,
            c.relays@[0].host@ == "167.71.66.250"@,
            c.relays@[0].port == 443,
            c.relays@[0].protocol == RelayProtocol::UdpQuic,
            c.exit_mode == ExitMode::Netstack,
            c.enable_direct_upgrade,
            c.relay_token is None,
            c.timings == default_timings(),
    {
        let relays = vec![RelayEndpoint::new("167.71.66.250", 443)];
        Config {
            stun_server: String::from_str("stun.l.google.com:19302"),
            relays,
            exit_mode: ExitMode::Netstack,
            timings: Timings::default(),
            enable_direct_upgrade: true,
            relay_token: None,
        }
    }
}

} // verus!
