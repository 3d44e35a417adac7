//! The ways to reach a peer: how each protocol is dialed, and what the session
//! that comes of it can do.

use vstd::prelude::*;
use vstd::string::*;
use crate::addr::SocketAddr;
use crate::identity::RelayProtocol;
use crate::signal::SignalChannel;
use crate::vocab::Carrier;

verus! {

/// The tunnel's packet size over a byte stream, which has no limit of its own.
pub const STREAM_TUNNEL_MTU: u16 = 1400;

/// How a peer is dialed.
#[derive(Debug, Clone, Copy, PartialEq, Eq, Structural)]
pub enum Dialer {
    /// QUIC to a relay.
    QuicRelay,
    /// QUIC to the sharer's own listener.
    QuicDirect,
    /// A TCP connection to a relay, and TLS through it.
    TcpTls,
    /// Noise through a UDP relay.
    Noise,
}

impl Dialer {
    /// The protocol that is dialed so.
    pub open spec fn spec_protocol(self) -> RelayProtocol {
        match self {
            Dialer::QuicRelay => RelayProtocol::UdpQuic,
            Dialer::QuicDirect => RelayProtocol::Direct,
            Dialer::TcpTls => RelayProtocol::TcpTls,
            Dialer::Noise => RelayProtocol::NoiseUdp,
        }
    }

    /// The protocol that is dialed so.
    pub fn protocol(&self) -> (p: RelayProtocol)
        ensures
            p == self.spec_protocol(),
    {
        match self {
            Dialer::QuicRelay => RelayProtocol::UdpQuic,
            Dialer::QuicDirect => RelayProtocol::Direct,
            Dialer::TcpTls => RelayProtocol::TcpTls,
            Dialer::Noise => RelayProtocol::NoiseUdp,
        }
    }
}

/// How a protocol is dialed.
pub fn relay_client_for(protocol: RelayProtocol) -> (d: Dialer)
    ensures
        d.spec_protocol() == protocol,
{
    match protocol {
        RelayProtocol::UdpQuic => Dialer::QuicRelay,
        RelayProtocol::Direct => Dialer::QuicDirect,
        RelayProtocol::TcpTls => Dialer::TcpTls,
        RelayProtocol::NoiseUdp => Dialer::Noise,
    }
}

/// What an established session can do: whether it is a QUIC connection, which
/// finds its packet size itself; the channel beside the packets, which a direct
/// path needs; and the packet size where it is fixed.
#[derive(Debug, Clone, Copy, PartialEq, Eq)]
pub struct PeerSession {
    pub remote_addr: SocketAddr,
    pub quic: bool,
    pub signal: Option<SignalChannel>,
    pub fixed_mtu: u16,
}

/// What the session of a dialed protocol can do. `nz_signal` says whether a
/// Noise session gave its channel, and `nz_mtu` is its packet size.
pub open spec fn session_of(
    d: Dialer,
    remote: SocketAddr,
    nz_signal: bool,
    nz_mtu: u16,
) -> PeerSession {
    match d {
        Dialer::QuicRelay | Dialer::QuicDirect => PeerSession {
            remote_addr: remote,
            quic: true,
            signal: Some(SignalChannel::Quic),
            fixed_mtu: STREAM_TUNNEL_MTU,
        },
        Dialer::TcpTls => PeerSession {
            remote_addr: remote,
            quic: false,
            signal: None,
            fixed_mtu: STREAM_TUNNEL_MTU,
        },
        Dialer::Noise => PeerSession {
            remote_addr: remote,
            quic: false,
            signal: if nz_signal {
                Some(SignalChannel::Noise)
            } else {
                None
            },
            fixed_mtu: nz_mtu,
        },
    }
}

impl PeerSession {
    /// The session of a QUIC connection.
    pub fn from_quic(remote: SocketAddr) -> (s: PeerSession)
        ensures
            s == session_of(Dialer::QuicRelay, remote, false, 0),
    {
        PeerSession {
            remote_addr: remote,
            quic: true,
            signal: Some(SignalChannel::Quic),
            fixed_mtu: STREAM_TUNNEL_MTU,
        }
    }

    /// The session of a dialed protocol.
    pub fn dialed(d: Dialer, remote: SocketAddr, nz_signal: bool, nz_mtu: u16) -> (s: PeerSession)
        ensures
            s == session_of(d, remote, nz_signal, nz_mtu),
    {
        match d {
            Dialer::QuicRelay | Dialer::QuicDirect => PeerSession::from_quic(remote),
            Dialer::TcpTls => PeerSession {
                remote_addr: remote,
                quic: false,
                signal: None,
                fixed_mtu: STREAM_TUNNEL_MTU,
            },
            Dialer::Noise => {
                let signal = if nz_signal {
                    Some(SignalChannel::Noise)
                } else {
                    None
                };
                PeerSession { remote_addr: remote, quic: false, signal, fixed_mtu: nz_mtu }
            },
        }
    }

    /// What carries the session.
    pub open spec fn spec_carrier(self) -> Carrier {
        if self.quic {
            Carrier::Quic
        } else {
            match self.signal {
                Some(SignalChannel::Noise) => Carrier::NoiseUdp,
                _ => Carrier::TcpTls,
            }
        }
    }

    /// What carries the session: QUIC, or Noise where the channel beside the
    /// packets says so, or else TLS.
    pub fn carrier(&self) -> (c: Carrier)
        ensures
            c == self.spec_carrier(),
    {
        if self.quic {
            return Carrier::Quic;
        }
        match self.signal {
            Some(SignalChannel::Noise) => Carrier::NoiseUdp,
            _ => Carrier::TcpTls,
        }
    }
}

/// The part of a dial over a stream or a socket that failed.
#[derive(Debug, Clone, Copy, PartialEq, Eq, Structural)]
pub enum DialStage {
    /// The TCP connection.
    TcpConnect,
    /// What tells the relay whom to connect to.
    TcpPreamble,
    /// The socket for Noise.
    NoiseSocket,
}

/// What a failed dial is called.
pub open spec fn dial_error(stage: DialStage, target: SocketAddr, e: Seq<char>) -> Seq<char> {
    match stage {
        DialStage::TcpConnect => "tcp connect "@ + target.text() + ": "@ + e,
        DialStage::TcpPreamble => "tcp preamble write: "@ + e,
        DialStage::NoiseSocket => "nz socket: "@ + e,
    }
}

/// What a failed dial is called.
pub fn dial_failure(stage: DialStage, target: &SocketAddr, e: &str) -> (s: String)
    ensures
        s@ == dial_error(stage, *target, e@),
{
    match stage {
        DialStage::TcpConnect => String::from_str("tcp connect ").concat(
            target.to_text().as_str(),
        ).concat(": ").concat(e),
        DialStage::TcpPreamble => String::from_str("tcp preamble write: ").concat(e),
        DialStage::NoiseSocket => String::from_str("nz socket: ").concat(e),
    }
}

/// What carries a session follows from the protocol that was dialed, where a
/// Noise session gave its channel.
pub proof fn carrier_follows_protocol(p: RelayProtocol, d: Dialer, remote: SocketAddr, nz_mtu: u16)
    requires
        d.spec_protocol() == p,
    ensures
        session_of(d, remote, true, nz_mtu).spec_carrier() == Carrier::of(p),
{
}

/// A session over QUIC can signal and finds its packet size itself. One over
/// TLS cannot signal and carries packets of up to 1400 bytes; one over Noise
/// carries packets of the size that it is given and signals where its peer can.
pub proof fn sessions_can_what_their_carrier_can(
    d: Dialer,
    remote: SocketAddr,
    nz_signal: bool,
    nz_mtu: u16,
)
    ensures
        ({
            let s = session_of(d, remote, nz_signal, nz_mtu);
            &&& s.remote_addr == remote
            &&& s.quic <==> d.spec_protocol() == RelayProtocol::UdpQuic || d.spec_protocol()
                == RelayProtocol::Direct
            &&& s.quic ==> s.signal == Some(SignalChannel::Quic)
            &&& d.spec_protocol() == RelayProtocol::TcpTls ==> s.signal is None && s.fixed_mtu == 1400
            &&& d.spec_protocol() == RelayProtocol::NoiseUdp ==> s.fixed_mtu == nz_mtu && (
            s.signal == Some(SignalChannel::Noise) <==> nz_signal) && (s.signal is None
                <==> !nz_signal)
        }),
        forall|e: Dialer| #[trigger] e.spec_protocol() == d.spec_protocol() ==> e == d,
{
}

} // verus!
