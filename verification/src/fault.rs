//! Errors that carry the vocabulary code for how they failed.

use vstd::prelude::*;
use vstd::string::*;
use crate::vocab::Reason;

verus! {

/// An error with the code of its cause and the detail for a human reader. The
/// code is chosen where the error is made, never guessed from its text.
#[derive(Debug, PartialEq, Eq)]
pub struct Fault {
    pub reason: Reason,
    pub detail: String,
}

/// The code and the words of a fault.
pub struct FaultView {
    pub reason: Reason,
    pub detail: Seq<char>,
}

impl Fault {
    pub open spec fn view(&self) -> FaultView {
        FaultView { reason: self.reason, detail: self.detail@ }
    }
}

/// A fault with this code and these words.
pub open spec fn fault(reason: Reason, detail: Seq<char>) -> FaultView {
    FaultView { reason, detail }
}

impl Clone for Fault {
    fn clone(&self) -> (f: Fault)
        ensures
            f == *self,
    {
        Fault { reason: self.reason, detail: self.detail.clone() }
    }
}

/// The kinds of input and output failure that are told apart.
#[derive(Debug, Clone, Copy, PartialEq, Eq, Structural)]
pub enum IoKind {
    ConnectionRefused,
    ConnectionReset,
    BrokenPipe,
    TimedOut,
    PermissionDenied,
    AddrInUse,
    AddrNotAvailable,
    NotFound,
    Other,
}

/// The operating system's error numbers that are told apart.
#[derive(Debug, Clone, Copy, PartialEq, Eq, Structural)]
pub enum OsError {
    NetUnreachable,
    HostUnreachable,
    NetDown,
    FamilyUnsupported,
    ProtocolUnsupported,
    Other,
}

/// A failed input or output operation: its kind, the operating system's error
/// number where there is one, and its text.
#[derive(Debug, PartialEq, Eq)]
pub struct IoFailure {
    pub kind: IoKind,
    pub os: Option<OsError>,
    pub text: String,
}

/// How a QUIC connection was lost.
#[derive(Debug, Clone, Copy, PartialEq, Eq, Structural)]
pub enum QuicEnd {
    TimedOut,
    VersionMismatch,
    ApplicationClosed,
    ConnectionClosed,
    TransportError { code: u64 },
    Reset,
    LocallyClosed,
    CidsExhausted,
}

/// A lost QUIC connection and its text.
#[derive(Debug, PartialEq, Eq)]
pub struct QuicFailure {
    pub end: QuicEnd,
    pub text: String,
}

/// Why a QUIC connection could not even be started.
#[derive(Debug, Clone, Copy, PartialEq, Eq, Structural)]
pub enum QuicRefusal {
    InvalidRemoteAddress,
    UnsupportedVersion,
    EndpointStopping,
    CidsExhausted,
    Other,
}

/// The code of an input or output failure.
pub open spec fn io_reason(kind: IoKind, os: Option<OsError>) -> Reason {
    match kind {
        IoKind::ConnectionRefused => Reason::ConnectRefused,
        IoKind::ConnectionReset | IoKind::BrokenPipe => Reason::ConnectReset,
        IoKind::TimedOut => Reason::ConnectTimeout,
        IoKind::PermissionDenied => Reason::PermissionDenied,
        IoKind::AddrInUse | IoKind::AddrNotAvailable => Reason::BindFailed,
        IoKind::NotFound => Reason::DnsNoRecords,
        IoKind::Other => match os {
            Some(OsError::NetUnreachable) | Some(OsError::HostUnreachable) | Some(
                OsError::NetDown,
            ) => Reason::NoRoute,
            Some(OsError::FamilyUnsupported) | Some(
                OsError::ProtocolUnsupported,
            ) => Reason::FamilyUnsupported,
            _ => Reason::SocketError,
        },
    }
}

/// The code of a lost QUIC connection. A timeout means one thing while the
/// handshake is under way and another afterwards.
pub open spec fn quic_reason(end: QuicEnd, handshake: bool) -> Reason {
    match end {
        QuicEnd::TimedOut => if handshake {
            Reason::HandshakeTimeout
        } else {
            Reason::IdleTimeout
        },
        QuicEnd::VersionMismatch => Reason::VersionMismatch,
        QuicEnd::ApplicationClosed => Reason::PeerClosed,
        QuicEnd::ConnectionClosed => Reason::HandshakeRejected,
        QuicEnd::TransportError { code } => if code >= 0x0100 {
            Reason::CertMismatch
        } else {
            Reason::ProtocolViolation
        },
        QuicEnd::Reset => Reason::ConnectReset,
        QuicEnd::LocallyClosed => Reason::LocalShutdown,
        QuicEnd::CidsExhausted => Reason::ProtocolViolation,
    }
}

/// The code of a QUIC connection that could not be started.
pub open spec fn refusal_reason(r: QuicRefusal) -> Reason {
    match r {
        QuicRefusal::InvalidRemoteAddress => Reason::FamilyUnsupported,
        QuicRefusal::UnsupportedVersion => Reason::VersionMismatch,
        QuicRefusal::EndpointStopping => Reason::LocalShutdown,
        QuicRefusal::CidsExhausted => Reason::ProtocolViolation,
        QuicRefusal::Other => Reason::Misconfigured,
    }
}

impl Fault {
    pub fn new(reason: Reason, detail: &str) -> (f: Fault)
        ensures
            f.reason == reason,
            f.detail@ == detail@,
    {
        Fault { reason, detail: String::from_str(detail) }
    }

    /// An error that could not be classified.
    pub fn unknown(detail: &str) -> (f: Fault)
        ensures
            f.reason == Reason::Unknown,
            f.detail@ == detail@,
    {
        Fault::new(Reason::Unknown, detail)
    }

    /// The same code, with `what` and a colon in front of the detail.
    pub fn context(self, what: &str) -> (f: Fault)
        ensures
            f.reason == self.reason,
            f.detail@ == what@ + ": "@ + self.detail@,
    {
        Fault {
            reason: self.reason,
            detail: String::from_str(what).concat(": ").concat(self.detail.as_str()),
        }
    }

    /// Classifies an input or output failure.
    pub fn from_io(e: &IoFailure) -> (f: Fault)
        ensures
            f.reason == io_reason(e.kind, e.os),
            f.detail@ == e.text@,
    {
        let reason = match e.kind {
            IoKind::ConnectionRefused => Reason::ConnectRefused,
            IoKind::ConnectionReset | IoKind::BrokenPipe => Reason::ConnectReset,
            IoKind::TimedOut => Reason::ConnectTimeout,
            IoKind::PermissionDenied => Reason::PermissionDenied,
            IoKind::AddrInUse | IoKind::AddrNotAvailable => Reason::BindFailed,
            IoKind::NotFound => Reason::DnsNoRecords,
            IoKind::Other => match Fault::from_errno(e.os) {
                Some(r) => r,
                None => Reason::SocketError,
            },
        };
        Fault::new(reason, e.text.as_str())
    }

    fn from_errno(os: Option<OsError>) -> (r: Option<Reason>)
        ensures
            r == match os {
                Some(OsError::NetUnreachable) | Some(OsError::HostUnreachable) | Some(
                    OsError::NetDown,
                ) => Some(Reason::NoRoute),
                Some(OsError::FamilyUnsupported) | Some(
                    OsError::ProtocolUnsupported,
                ) => Some(Reason::FamilyUnsupported),
                _ => None,
            },
    {
        match os {
            Some(OsError::NetUnreachable) | Some(OsError::HostUnreachable) | Some(
                OsError::NetDown,
            ) => Some(Reason::NoRoute),
            Some(OsError::FamilyUnsupported) | Some(OsError::ProtocolUnsupported) => Some(
                Reason::FamilyUnsupported,
            ),
            _ => None,
        }
    }

    /// Classifies the loss of an established QUIC connection.
    pub fn from_quinn(e: &QuicFailure) -> (f: Fault)
        ensures
            f.reason == quic_reason(e.end, false),
            f.detail@ == e.text@,
    {
        Fault::from_quinn_in(e, false)
    }

    /// Classifies a QUIC handshake that failed.
    pub fn from_quinn_handshake(e: &QuicFailure) -> (f: Fault)
        ensures
            f.reason == quic_reason(e.end, true),
            f.detail@ == e.text@,
    {
        Fault::from_quinn_in(e, true)
    }

    fn from_quinn_in(e: &QuicFailure, handshake: bool) -> (f: Fault)
        ensures
            f.reason == quic_reason(e.end, handshake),
            f.detail@ == e.text@,
    {
        let reason = match e.end {
            QuicEnd::TimedOut => if handshake {
                Reason::HandshakeTimeout
            } else {
                Reason::IdleTimeout
            },
            QuicEnd::VersionMismatch => Reason::VersionMismatch,
            QuicEnd::ApplicationClosed => Reason::PeerClosed,
            QuicEnd::ConnectionClosed => Reason::HandshakeRejected,
            QuicEnd::TransportError { code } => if code >= 0x0100 {
                Reason::CertMismatch
            } else {
                Reason::ProtocolViolation
            },
            QuicEnd::Reset => Reason::ConnectReset,
            QuicEnd::LocallyClosed => Reason::LocalShutdown,
            QuicEnd::CidsExhausted => Reason::ProtocolViolation,
        };
        Fault::new(reason, e.text.as_str())
    }

    /// Classifies a QUIC connection that could not even be started.
    pub fn from_quinn_connect(r: QuicRefusal, text: &str) -> (f: Fault)
        ensures
            f.reason == refusal_reason(r),
            f.detail@ == text@,
    {
        let reason = match r {
            QuicRefusal::InvalidRemoteAddress => Reason::FamilyUnsupported,
            QuicRefusal::UnsupportedVersion => Reason::VersionMismatch,
            QuicRefusal::EndpointStopping => Reason::LocalShutdown,
            QuicRefusal::CidsExhausted => Reason::ProtocolViolation,
            QuicRefusal::Other => Reason::Misconfigured,
        };
        Fault::new(reason, text)
    }
}

/// A failure of the system says what kind it is: a peer that refuses, resets or
/// stays silent, an address that cannot be bound or does not exist, a right
/// that is missing, a network without a way there or without the family, and
/// only what is none of these is any other trouble with a socket.
pub proof fn system_failures_are_told_apart(kind: IoKind, os: Option<OsError>)
    ensures
        ({
            let r = io_reason(kind, os);
            &&& r == Reason::ConnectRefused <==> kind is ConnectionRefused
            &&& r == Reason::ConnectReset <==> kind is ConnectionReset || kind is BrokenPipe
            &&& r == Reason::ConnectTimeout <==> kind is TimedOut
            &&& r == Reason::PermissionDenied <==> kind is PermissionDenied
            &&& r == Reason::BindFailed <==> kind is AddrInUse || kind is AddrNotAvailable
            &&& r == Reason::DnsNoRecords <==> kind is NotFound
            &&& r == Reason::NoRoute <==> kind is Other && (os matches Some(o) && (o is NetUnreachable
                || o is HostUnreachable || o is NetDown))
            &&& r == Reason::FamilyUnsupported <==> kind is Other && (os matches Some(o) && (
            o is FamilyUnsupported || o is ProtocolUnsupported))
            &&& r == Reason::SocketError <==> kind is Other && (os is None || os == Some(
                OsError::Other,
            ))
        }),
{
}

/// The end of a QUIC connection says what it was. Silence is a handshake that
/// took too long while there is no connection yet, and idleness after that; a
/// transport error from 0x100 on is one of TLS, which the pinned certificate
/// makes a wrong one.
pub proof fn connection_ends_are_told_apart(end: QuicEnd, handshake: bool)
    ensures
        ({
            let r = quic_reason(end, handshake);
            &&& r == Reason::HandshakeTimeout <==> end is TimedOut && handshake
            &&& r == Reason::IdleTimeout <==> end is TimedOut && !handshake
            &&& r == Reason::VersionMismatch <==> end is VersionMismatch
            &&& r == Reason::PeerClosed <==> end is ApplicationClosed
            &&& r == Reason::HandshakeRejected <==> end is ConnectionClosed
            &&& r == Reason::ConnectReset <==> end is Reset
            &&& r == Reason::LocalShutdown <==> end is LocallyClosed
            &&& r == Reason::CertMismatch <==> (end matches QuicEnd::TransportError { code } && code
                >= 256)
            &&& r == Reason::ProtocolViolation <==> end is CidsExhausted || (
            end matches QuicEnd::TransportError { code } && code < 256)
        }),
{
}

/// A connection that could not even be begun says why.
pub proof fn refused_connects_are_told_apart(q: QuicRefusal)
    ensures
        ({
            let r = refusal_reason(q);
            &&& r == Reason::FamilyUnsupported <==> q is InvalidRemoteAddress
            &&& r == Reason::VersionMismatch <==> q is UnsupportedVersion
            &&& r == Reason::LocalShutdown <==> q is EndpointStopping
            &&& r == Reason::ProtocolViolation <==> q is CidsExhausted
            &&& r == Reason::Misconfigured <==> q is Other
        }),
{
}

} // verus!
