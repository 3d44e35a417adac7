//! The closed vocabularies of a connection record.
//!
//! Every value has a stable code, which is what a record holds. Codes never
//! change; a new fact gets a new value. A code that this build does not know
//! reads as the vocabulary's fallback, so that a record of a newer build can
//! still be read.

use vstd::prelude::*;
use crate::identity::RelayProtocol;
use crate::text;

verus! {

/// Which end of the tunnel wrote this record.
#[derive(Debug, Clone, Copy, PartialEq, Eq, Structural, Hash, PartialOrd, Ord)]
pub enum Role {
    /// The end that tunnels its traffic through someone else.
    Client,
    /// The end that lends out its internet connection (`share`).
    Exit,
}

impl Role {
    /// The stable code.
    pub open spec fn code(self) -> Seq<char> {
        match self {
            Role::Client => "client"@,
            Role::Exit => "exit"@,
        }
    }

    /// Every value, in the order of their definition.
    pub open spec fn every() -> Seq<Role> {
        seq![
            Role::Client,
            Role::Exit,
        ]
    }

    /// The value of a code, or the fallback for a code that is none's.
    pub open spec fn is_reading(code: Seq<char>, r: Role) -> bool {
        ||| r.code() == code
        ||| r == Role::Client && forall|v: Role| v.code() != code
    }

    /// Every value.
    pub fn all() -> (v: Vec<Role>)
        ensures
            v@ == Role::every(),
    {
        let v = vec![
            Role::Client,
            Role::Exit,
        ];
        assert(v@ =~= Role::every());
        v
    }

    /// The stable code.
    pub fn as_str(self) -> (s: &'static str)
        ensures
            s@ == self.code(),
    {
        match self {
            Role::Client => "client",
            Role::Exit => "exit",
        }
    }

    /// The value of a code, or `None` for a code that is none's.
    pub fn from_code(code: &str) -> (r: Option<Role>)
        ensures
            match r {
                Some(v) => v.code() == code@,
                None => forall|v: Role| v.code() != code@,
            },
    {
        if text::same_text(code, "client") {
            Some(Role::Client)
        } else if text::same_text(code, "exit") {
            Some(Role::Exit)
        } else {
            None
        }
    }

    /// The value of a code, or the fallback for a code that is none's.
    pub fn read(code: &str) -> (r: Role)
        ensures
            Role::is_reading(code@, r),
    {
        match Role::from_code(code) {
            Some(v) => v,
            None => Role::Client,
        }
    }
}

spec fn role_by_shape(s: Seq<char>) -> Role {
    if s.len() < 6 {
        Role::Exit
    } else {
        Role::Client
    }
}

proof fn lemma_role_shape(v: Role)
    ensures
        role_by_shape(v.code()) == v,
{
    match v {
        Role::Client => {
            reveal_strlit("client");
        },
        Role::Exit => {
            reveal_strlit("exit");
        },
    }
}

impl Role {
    /// A code reads as the value whose code it is, and what is no value's code
    /// as the fallback.
    pub proof fn codes_read_back(v: Role, code: Seq<char>, r: Role)
        requires
            Role::is_reading(code, r),
        ensures
            code == v.code() ==> r == v,
            (forall|w: Role| #[trigger] w.code() != code) ==> r == Role::Client,
    {
        if code == v.code() {
            assert(v.code() == code);
            Role::codes_are_unique(v, r);
        }
    }

    /// No two values share a code.
    pub proof fn codes_are_unique(a: Role, b: Role)
        requires
            a.code() == b.code(),
        ensures
            a == b,
    {
        lemma_role_shape(a);
        lemma_role_shape(b);
    }

    /// Every value is listed.
    pub proof fn every_is_listed(v: Role)
        ensures
            Role::every().contains(v),
    {
        let all = Role::every();
        match v {
            Role::Client => {
                assert(all[0] == v);
            },
            Role::Exit => {
                assert(all[1] == v);
            },
        }
    }
}

/// How the tunnel is dressed on the wire. Orthogonal to [`PathKind`]:
/// the same carrier can run through a relay or straight to the peer.
#[derive(Debug, Clone, Copy, PartialEq, Eq, Structural, Hash, PartialOrd, Ord)]
pub enum Carrier {
    /// End-to-end QUIC (through the dumb UDP relay, or direct).
    Quic,
    /// End-to-end TLS over a TCP relay (stream-native carrier).
    TcpTls,
    /// End-to-end Noise over UDP — the non-QUIC-shaped carrier.
    NoiseUdp,
    Unknown,
}

impl Carrier {
    /// The stable code.
    pub open spec fn code(self) -> Seq<char> {
        match self {
            Carrier::Quic => "quic"@,
            Carrier::TcpTls => "tcp_tls"@,
            Carrier::NoiseUdp => "nz"@,
            Carrier::Unknown => "unknown"@,
        }
    }

    /// Every value, in the order of their definition.
    pub open spec fn every() -> Seq<Carrier> {
        seq![
            Carrier::Quic,
            Carrier::TcpTls,
            Carrier::NoiseUdp,
            Carrier::Unknown,
        ]
    }

    /// The value of a code, or the fallback for a code that is none's.
    pub open spec fn is_reading(code: Seq<char>, r: Carrier) -> bool {
        ||| r.code() == code
        ||| r == Carrier::Unknown && forall|v: Carrier| v.code() != code
    }

    /// Every value.
    pub fn all() -> (v: Vec<Carrier>)
        ensures
            v@ == Carrier::every(),
    {
        let v = vec![
            Carrier::Quic,
            Carrier::TcpTls,
            Carrier::NoiseUdp,
            Carrier::Unknown,
        ];
        assert(v@ =~= Carrier::every());
        v
    }

    /// The stable code.
    pub fn as_str(self) -> (s: &'static str)
        ensures
            s@ == self.code(),
    {
        match self {
            Carrier::Quic => "quic",
            Carrier::TcpTls => "tcp_tls",
            Carrier::NoiseUdp => "nz",
            Carrier::Unknown => "unknown",
        }
    }

    /// The value of a code, or `None` for a code that is none's.
    pub fn from_code(code: &str) -> (r: Option<Carrier>)
        ensures
            match r {
                Some(v) => v.code() == code@,
                None => forall|v: Carrier| v.code() != code@,
            },
    {
        if text::same_text(code, "quic") {
            Some(Carrier::Quic)
        } else if text::same_text(code, "tcp_tls") {
            Some(Carrier::TcpTls)
        } else if text::same_text(code, "nz") {
            Some(Carrier::NoiseUdp)
        } else if text::same_text(code, "unknown") {
            Some(Carrier::Unknown)
        } else {
            None
        }
    }

    /// The value of a code, or the fallback for a code that is none's.
    pub fn read(code: &str) -> (r: Carrier)
        ensures
            Carrier::is_reading(code@, r),
    {
        match Carrier::from_code(code) {
            Some(v) => v,
            None => Carrier::Unknown,
        }
    }
}

spec fn carrier_by_shape(s: Seq<char>) -> Carrier {
    if s.len() < 4 {
        Carrier::NoiseUdp
    } else {
        if s.len() < 7 {
            Carrier::Quic
        } else {
            if s[0] == 't' {
                Carrier::TcpTls
            } else {
                Carrier::Unknown
            }
        }
    }
}

proof fn lemma_carrier_shape(v: Carrier)
    ensures
        carrier_by_shape(v.code()) == v,
{
    match v {
        Carrier::Quic => {
            reveal_strlit("quic");
        },
        Carrier::TcpTls => {
            reveal_strlit("tcp_tls");
        },
        Carrier::NoiseUdp => {
            reveal_strlit("nz");
        },
        Carrier::Unknown => {
            reveal_strlit("unknown");
        },
    }
}

impl Carrier {
    /// A code reads as the value whose code it is, and what is no value's code
    /// as the fallback.
    pub proof fn codes_read_back(v: Carrier, code: Seq<char>, r: Carrier)
        requires
            Carrier::is_reading(code, r),
        ensures
            code == v.code() ==> r == v,
            (forall|w: Carrier| #[trigger] w.code() != code) ==> r == Carrier::Unknown,
    {
        if code == v.code() {
            assert(v.code() == code);
            Carrier::codes_are_unique(v, r);
        }
    }

    /// No two values share a code.
    pub proof fn codes_are_unique(a: Carrier, b: Carrier)
        requires
            a.code() == b.code(),
        ensures
            a == b,
    {
        lemma_carrier_shape(a);
        lemma_carrier_shape(b);
    }

    /// Every value is listed.
    pub proof fn every_is_listed(v: Carrier)
        ensures
            Carrier::every().contains(v),
    {
        let all = Carrier::every();
        match v {
            Carrier::Quic => {
                assert(all[0] == v);
            },
            Carrier::TcpTls => {
                assert(all[1] == v);
            },
            Carrier::NoiseUdp => {
                assert(all[2] == v);
            },
            Carrier::Unknown => {
                assert(all[3] == v);
            },
        }
    }
}

/// Which way the packets actually travel.
#[derive(Debug, Clone, Copy, PartialEq, Eq, Structural, Hash, PartialOrd, Ord)]
pub enum PathKind {
    /// Through a relay.
    Relay,
    /// Straight to an endpoint the exit advertised itself (relay-less).
    DirectAdvertised,
    /// Straight to an address discovered and validated by hole punching.
    DirectPunched,
    Unknown,
}

impl PathKind {
    /// The stable code.
    pub open spec fn code(self) -> Seq<char> {
        match self {
            PathKind::Relay => "relay"@,
            PathKind::DirectAdvertised => "direct_advertised"@,
            PathKind::DirectPunched => "direct_punched"@,
            PathKind::Unknown => "unknown"@,
        }
    }

    /// Every value, in the order of their definition.
    pub open spec fn every() -> Seq<PathKind> {
        seq![
            PathKind::Relay,
            PathKind::DirectAdvertised,
            PathKind::DirectPunched,
            PathKind::Unknown,
        ]
    }

    /// The value of a code, or the fallback for a code that is none's.
    pub open spec fn is_reading(code: Seq<char>, r: PathKind) -> bool {
        ||| r.code() == code
        ||| r == PathKind::Unknown && forall|v: PathKind| v.code() != code
    }

    /// Every value.
    pub fn all() -> (v: Vec<PathKind>)
        ensures
            v@ == PathKind::every(),
    {
        let v = vec![
            PathKind::Relay,
            PathKind::DirectAdvertised,
            PathKind::DirectPunched,
            PathKind::Unknown,
        ];
        assert(v@ =~= PathKind::every());
        v
    }

    /// The stable code.
    pub fn as_str(self) -> (s: &'static str)
        ensures
            s@ == self.code(),
    {
        match self {
            PathKind::Relay => "relay",
            PathKind::DirectAdvertised => "direct_advertised",
            PathKind::DirectPunched => "direct_punched",
            PathKind::Unknown => "unknown",
        }
    }

    /// The value of a code, or `None` for a code that is none's.
    pub fn from_code(code: &str) -> (r: Option<PathKind>)
        ensures
            match r {
                Some(v) => v.code() == code@,
                None => forall|v: PathKind| v.code() != code@,
            },
    {
        if text::same_text(code, "relay") {
            Some(PathKind::Relay)
        } else if text::same_text(code, "direct_advertised") {
            Some(PathKind::DirectAdvertised)
        } else if text::same_text(code, "direct_punched") {
            Some(PathKind::DirectPunched)
        } else if text::same_text(code, "unknown") {
            Some(PathKind::Unknown)
        } else {
            None
        }
    }

    /// The value of a code, or the fallback for a code that is none's.
    pub fn read(code: &str) -> (r: PathKind)
        ensures
            PathKind::is_reading(code@, r),
    {
        match PathKind::from_code(code) {
            Some(v) => v,
            None => PathKind::Unknown,
        }
    }
}

spec fn path_kind_by_shape(s: Seq<char>) -> PathKind {
    if s.len() < 14 {
        if s.len() < 7 {
            PathKind::Relay
        } else {
            PathKind::Unknown
        }
    } else {
        if s.len() < 17 {
            PathKind::DirectPunched
        } else {
            PathKind::DirectAdvertised
        }
    }
}

proof fn lemma_path_kind_shape(v: PathKind)
    ensures
        path_kind_by_shape(v.code()) == v,
{
    match v {
        PathKind::Relay => {
            reveal_strlit("relay");
        },
        PathKind::DirectAdvertised => {
            reveal_strlit("direct_advertised");
        },
        PathKind::DirectPunched => {
            reveal_strlit("direct_punched");
        },
        PathKind::Unknown => {
            reveal_strlit("unknown");
        },
    }
}

impl PathKind {
    /// A code reads as the value whose code it is, and what is no value's code
    /// as the fallback.
    pub proof fn codes_read_back(v: PathKind, code: Seq<char>, r: PathKind)
        requires
            PathKind::is_reading(code, r),
        ensures
            code == v.code() ==> r == v,
            (forall|w: PathKind| #[trigger] w.code() != code) ==> r == PathKind::Unknown,
    {
        if code == v.code() {
            assert(v.code() == code);
            PathKind::codes_are_unique(v, r);
        }
    }

    /// No two values share a code.
    pub proof fn codes_are_unique(a: PathKind, b: PathKind)
        requires
            a.code() == b.code(),
        ensures
            a == b,
    {
        lemma_path_kind_shape(a);
        lemma_path_kind_shape(b);
    }

    /// Every value is listed.
    pub proof fn every_is_listed(v: PathKind)
        ensures
            PathKind::every().contains(v),
    {
        let all = PathKind::every();
        match v {
            PathKind::Relay => {
                assert(all[0] == v);
            },
            PathKind::DirectAdvertised => {
                assert(all[1] == v);
            },
            PathKind::DirectPunched => {
                assert(all[2] == v);
            },
            PathKind::Unknown => {
                assert(all[3] == v);
            },
        }
    }
}

/// What was attempted. One kind per distinguishable piece of machinery —
/// if two things can fail for different reasons, they are two kinds.
#[derive(Debug, Clone, Copy, PartialEq, Eq, Structural, Hash, PartialOrd, Ord)]
pub enum StepKind {
    /// Parsing the share URL into a routing key, secret and relay list.
    TokenParse,
    /// Turning relay names into addresses (one step per relay list).
    RelayResolve,
    /// Binding the local socket a dial will use.
    SocketBind,
    /// One attempt to reach the peer over one endpoint with one carrier.
    /// Wraps the handshake and authentication steps below.
    RelayDial,
    /// The cryptographic handshake with the peer — never with the relay,
    /// which is not a party to it — through to proving the shared secret.
    /// The two are one step because one call does both; their reasons
    /// (`cert_mismatch`, `auth_rejected`, …) tell them apart.
    Handshake,
    /// A usable tunnel exists.
    SessionUp,
    /// The tunnel's packet-size limit settled (path MTU discovery, or a
    /// carrier with a fixed frame size adopting it).
    Mtu,
    /// The transport died and a re-dial cycle is starting.
    Reconnect,
    /// The application went dormant (screen off / radio silent): probing
    /// stops and re-dialling parks until it wakes.
    Dormant,
    /// The application woke.
    Wake,
    /// Binding the listening socket clients arrive on.
    ListenerBind,
    /// Announcing this exit's routing key to a relay so clients can be
    /// routed to it.
    Register,
    /// Parking an outbound connection at a stream relay, ready for a
    /// client (the exit dials out; there is nothing to register). A relay
    /// that refuses the connection and one that reaps it after an idle
    /// spell look the same from here — both simply close.
    RelayPark,
    /// Handing the routing key to a fresh listener so the serving session
    /// keeps its own port.
    ListenerRoll,
    /// A client connection arrived.
    Accept,
    /// Starting whatever turns tunnelled packets into real traffic.
    ExitStart,
    /// Asking a STUN server what this machine looks like from outside.
    Stun,
    /// Trading candidate addresses with the peer over the tunnel's own
    /// signalling channel.
    EndpointExchange,
    /// Punching: both ends send to each other's candidate to open the
    /// path through their NATs, and confirm it carries packets both ways.
    /// The two halves are one step because they are one operation; their
    /// reasons (`punch_timeout` vs `verify_timeout`) tell them apart.
    Punch,
    /// The handshake that rebuilds the encrypted session on the punched
    /// socket.
    DirectHandshake,
    /// Moving live traffic from the old path onto the new one.
    PathSwap,
    /// The liveness probe cycle: a failure here is a tunnel that stopped
    /// carrying traffic without anyone closing it.
    Liveness,
    /// A session ended, with the reason it ended.
    SessionEnd,
    Unknown,
}

impl StepKind {
    /// The stable code.
    pub open spec fn code(self) -> Seq<char> {
        match self {
            StepKind::TokenParse => "token_parse"@,
            StepKind::RelayResolve => "relay_resolve"@,
            StepKind::SocketBind => "socket_bind"@,
            StepKind::RelayDial => "relay_dial"@,
            StepKind::Handshake => "handshake"@,
            StepKind::SessionUp => "session_up"@,
            StepKind::Mtu => "mtu"@,
            StepKind::Reconnect => "reconnect"@,
            StepKind::Dormant => "dormant"@,
            StepKind::Wake => "wake"@,
            StepKind::ListenerBind => "listener_bind"@,
            StepKind::Register => "register"@,
            StepKind::RelayPark => "relay_park"@,
            StepKind::ListenerRoll => "listener_roll"@,
            StepKind::Accept => "accept"@,
            StepKind::ExitStart => "exit_start"@,
            StepKind::Stun => "stun"@,
            StepKind::EndpointExchange => "endpoint_exchange"@,
            StepKind::Punch => "punch"@,
            StepKind::DirectHandshake => "direct_handshake"@,
            StepKind::PathSwap => "path_swap"@,
            StepKind::Liveness => "liveness"@,
            StepKind::SessionEnd => "session_end"@,
            StepKind::Unknown => "unknown"@,
        }
    }

    /// Every value, in the order of their definition.
    pub open spec fn every() -> Seq<StepKind> {
        seq![
            StepKind::TokenParse,
            StepKind::RelayResolve,
            StepKind::SocketBind,
            StepKind::RelayDial,
            StepKind::Handshake,
            StepKind::SessionUp,
            StepKind::Mtu,
            StepKind::Reconnect,
            StepKind::Dormant,
            StepKind::Wake,
            StepKind::ListenerBind,
            StepKind::Register,
            StepKind::RelayPark,
            StepKind::ListenerRoll,
            StepKind::Accept,
            StepKind::ExitStart,
            StepKind::Stun,
            StepKind::EndpointExchange,
            StepKind::Punch,
            StepKind::DirectHandshake,
            StepKind::PathSwap,
            StepKind::Liveness,
            StepKind::SessionEnd,
            StepKind::Unknown,
        ]
    }

    /// The value of a code, or the fallback for a code that is none's.
    pub open spec fn is_reading(code: Seq<char>, r: StepKind) -> bool {
        ||| r.code() == code
        ||| r == StepKind::Unknown && forall|v: StepKind| v.code() != code
    }

    /// Every value.
    pub fn all() -> (v: Vec<StepKind>)
        ensures
            v@ == StepKind::every(),
    {
        let v = vec![
            StepKind::TokenParse,
            StepKind::RelayResolve,
            StepKind::SocketBind,
            StepKind::RelayDial,
            StepKind::Handshake,
            StepKind::SessionUp,
            StepKind::Mtu,
            StepKind::Reconnect,
            StepKind::Dormant,
            StepKind::Wake,
            StepKind::ListenerBind,
            StepKind::Register,
            StepKind::RelayPark,
            StepKind::ListenerRoll,
            StepKind::Accept,
            StepKind::ExitStart,
            StepKind::Stun,
            StepKind::EndpointExchange,
            StepKind::Punch,
            StepKind::DirectHandshake,
            StepKind::PathSwap,
            StepKind::Liveness,
            StepKind::SessionEnd,
            StepKind::Unknown,
        ];
        assert(v@ =~= StepKind::every());
        v
    }

    /// The stable code.
    pub fn as_str(self) -> (s: &'static str)
        ensures
            s@ == self.code(),
    {
        match self {
            StepKind::TokenParse => "token_parse",
            StepKind::RelayResolve => "relay_resolve",
            StepKind::SocketBind => "socket_bind",
            StepKind::RelayDial => "relay_dial",
            StepKind::Handshake => "handshake",
            StepKind::SessionUp => "session_up",
            StepKind::Mtu => "mtu",
            StepKind::Reconnect => "reconnect",
            StepKind::Dormant => "dormant",
            StepKind::Wake => "wake",
            StepKind::ListenerBind => "listener_bind",
            StepKind::Register => "register",
            StepKind::RelayPark => "relay_park",
            StepKind::ListenerRoll => "listener_roll",
            StepKind::Accept => "accept",
            StepKind::ExitStart => "exit_start",
            StepKind::Stun => "stun",
            StepKind::EndpointExchange => "endpoint_exchange",
            StepKind::Punch => "punch",
            StepKind::DirectHandshake => "direct_handshake",
            StepKind::PathSwap => "path_swap",
            StepKind::Liveness => "liveness",
            StepKind::SessionEnd => "session_end",
            StepKind::Unknown => "unknown",
        }
    }

    /// The value of a code, or `None` for a code that is none's.
    pub fn from_code(code: &str) -> (r: Option<StepKind>)
        ensures
            match r {
                Some(v) => v.code() == code@,
                None => forall|v: StepKind| v.code() != code@,
            },
    {
        if text::same_text(code, "token_parse") {
            Some(StepKind::TokenParse)
        } else if text::same_text(code, "relay_resolve") {
            Some(StepKind::RelayResolve)
        } else if text::same_text(code, "socket_bind") {
            Some(StepKind::SocketBind)
        } else if text::same_text(code, "relay_dial") {
            Some(StepKind::RelayDial)
        } else if text::same_text(code, "handshake") {
            Some(StepKind::Handshake)
        } else if text::same_text(code, "session_up") {
            Some(StepKind::SessionUp)
        } else if text::same_text(code, "mtu") {
            Some(StepKind::Mtu)
        } else if text::same_text(code, "reconnect") {
            Some(StepKind::Reconnect)
        } else if text::same_text(code, "dormant") {
            Some(StepKind::Dormant)
        } else if text::same_text(code, "wake") {
            Some(StepKind::Wake)
        } else if text::same_text(code, "listener_bind") {
            Some(StepKind::ListenerBind)
        } else if text::same_text(code, "register") {
            Some(StepKind::Register)
        } else if text::same_text(code, "relay_park") {
            Some(StepKind::RelayPark)
        } else if text::same_text(code, "listener_roll") {
            Some(StepKind::ListenerRoll)
        } else if text::same_text(code, "accept") {
            Some(StepKind::Accept)
        } else if text::same_text(code, "exit_start") {
            Some(StepKind::ExitStart)
        } else if text::same_text(code, "stun") {
            Some(StepKind::Stun)
        } else if text::same_text(code, "endpoint_exchange") {
            Some(StepKind::EndpointExchange)
        } else if text::same_text(code, "punch") {
            Some(StepKind::Punch)
        } else if text::same_text(code, "direct_handshake") {
            Some(StepKind::DirectHandshake)
        } else if text::same_text(code, "path_swap") {
            Some(StepKind::PathSwap)
        } else if text::same_text(code, "liveness") {
            Some(StepKind::Liveness)
        } else if text::same_text(code, "session_end") {
            Some(StepKind::SessionEnd)
        } else if text::same_text(code, "unknown") {
            Some(StepKind::Unknown)
        } else {
            None
        }
    }

    /// The value of a code, or the fallback for a code that is none's.
    pub fn read(code: &str) -> (r: StepKind)
        ensures
            StepKind::is_reading(code@, r),
    {
        match StepKind::from_code(code) {
            Some(v) => v,
            None => StepKind::Unknown,
        }
    }
}

spec fn step_kind_by_shape(s: Seq<char>) -> StepKind {
    if s.len() < 9 {
        if s.len() < 6 {
            if s.len() < 4 {
                StepKind::Mtu
            } else {
                if s.len() < 5 {
                    if s[0] == 's' {
                        StepKind::Stun
                    } else {
                        StepKind::Wake
                    }
                } else {
                    StepKind::Punch
                }
            }
        } else {
            if s.len() < 7 {
                StepKind::Accept
            } else {
                if s.len() < 8 {
                    if s[0] == 'u' {
                        StepKind::Unknown
                    } else {
                        StepKind::Dormant
                    }
                } else {
                    if s[0] == 'r' {
                        StepKind::Register
                    } else {
                        StepKind::Liveness
                    }
                }
            }
        }
    } else {
        if s.len() < 13 {
            if s.len() < 10 {
                if s[0] == 'p' {
                    StepKind::PathSwap
                } else {
                    if s[0] == 'r' {
                        StepKind::Reconnect
                    } else {
                        StepKind::Handshake
                    }
                }
            } else {
                if s.len() < 11 {
                    if s[0] == 'r' {
                        if s[6] == 'p' {
                            StepKind::RelayPark
                        } else {
                            StepKind::RelayDial
                        }
                    } else {
                        if s[0] == 's' {
                            StepKind::SessionUp
                        } else {
                            StepKind::ExitStart
                        }
                    }
                } else {
                    if s[0] == 't' {
                        StepKind::TokenParse
                    } else {
                        if s[1] == 'o' {
                            StepKind::SocketBind
                        } else {
                            StepKind::SessionEnd
                        }
                    }
                }
            }
        } else {
            if s.len() < 16 {
                if s[0] == 'r' {
                    StepKind::RelayResolve
                } else {
                    if s[9] == 'b' {
                        StepKind::ListenerBind
                    } else {
                        StepKind::ListenerRoll
                    }
                }
            } else {
                if s.len() < 17 {
                    StepKind::DirectHandshake
                } else {
                    StepKind::EndpointExchange
                }
            }
        }
    }
}

proof fn lemma_step_kind_shape(v: StepKind)
    ensures
        step_kind_by_shape(v.code()) == v,
{
    match v {
        StepKind::TokenParse => {
            reveal_strlit("token_parse");
        },
        StepKind::RelayResolve => {
            reveal_strlit("relay_resolve");
        },
        StepKind::SocketBind => {
            reveal_strlit("socket_bind");
        },
        StepKind::RelayDial => {
            reveal_strlit("relay_dial");
        },
        StepKind::Handshake => {
            reveal_strlit("handshake");
        },
        StepKind::SessionUp => {
            reveal_strlit("session_up");
        },
        StepKind::Mtu => {
            reveal_strlit("mtu");
        },
        StepKind::Reconnect => {
            reveal_strlit("reconnect");
        },
        StepKind::Dormant => {
            reveal_strlit("dormant");
        },
        StepKind::Wake => {
            reveal_strlit("wake");
        },
        StepKind::ListenerBind => {
            reveal_strlit("listener_bind");
        },
        StepKind::Register => {
            reveal_strlit("register");
        },
        StepKind::RelayPark => {
            reveal_strlit("relay_park");
        },
        StepKind::ListenerRoll => {
            reveal_strlit("listener_roll");
        },
        StepKind::Accept => {
            reveal_strlit("accept");
        },
        StepKind::ExitStart => {
            reveal_strlit("exit_start");
        },
        StepKind::Stun => {
            reveal_strlit("stun");
        },
        StepKind::EndpointExchange => {
            reveal_strlit("endpoint_exchange");
        },
        StepKind::Punch => {
            reveal_strlit("punch");
        },
        StepKind::DirectHandshake => {
            reveal_strlit("direct_handshake");
        },
        StepKind::PathSwap => {
            reveal_strlit("path_swap");
        },
        StepKind::Liveness => {
            reveal_strlit("liveness");
        },
        StepKind::SessionEnd => {
            reveal_strlit("session_end");
        },
        StepKind::Unknown => {
            reveal_strlit("unknown");
        },
    }
}

impl StepKind {
    /// A code reads as the value whose code it is, and what is no value's code
    /// as the fallback.
    pub proof fn codes_read_back(v: StepKind, code: Seq<char>, r: StepKind)
        requires
            StepKind::is_reading(code, r),
        ensures
            code == v.code() ==> r == v,
            (forall|w: StepKind| #[trigger] w.code() != code) ==> r == StepKind::Unknown,
    {
        if code == v.code() {
            assert(v.code() == code);
            StepKind::codes_are_unique(v, r);
        }
    }

    /// No two values share a code.
    pub proof fn codes_are_unique(a: StepKind, b: StepKind)
        requires
            a.code() == b.code(),
        ensures
            a == b,
    {
        lemma_step_kind_shape(a);
        lemma_step_kind_shape(b);
    }

    /// Every value is listed.
    pub proof fn every_is_listed(v: StepKind)
        ensures
            StepKind::every().contains(v),
    {
        let all = StepKind::every();
        match v {
            StepKind::TokenParse => {
                assert(all[0] == v);
            },
            StepKind::RelayResolve => {
                assert(all[1] == v);
            },
            StepKind::SocketBind => {
                assert(all[2] == v);
            },
            StepKind::RelayDial => {
                assert(all[3] == v);
            },
            StepKind::Handshake => {
                assert(all[4] == v);
            },
            StepKind::SessionUp => {
                assert(all[5] == v);
            },
            StepKind::Mtu => {
                assert(all[6] == v);
            },
            StepKind::Reconnect => {
                assert(all[7] == v);
            },
            StepKind::Dormant => {
                assert(all[8] == v);
            },
            StepKind::Wake => {
                assert(all[9] == v);
            },
            StepKind::ListenerBind => {
                assert(all[10] == v);
            },
            StepKind::Register => {
                assert(all[11] == v);
            },
            StepKind::RelayPark => {
                assert(all[12] == v);
            },
            StepKind::ListenerRoll => {
                assert(all[13] == v);
            },
            StepKind::Accept => {
                assert(all[14] == v);
            },
            StepKind::ExitStart => {
                assert(all[15] == v);
            },
            StepKind::Stun => {
                assert(all[16] == v);
            },
            StepKind::EndpointExchange => {
                assert(all[17] == v);
            },
            StepKind::Punch => {
                assert(all[18] == v);
            },
            StepKind::DirectHandshake => {
                assert(all[19] == v);
            },
            StepKind::PathSwap => {
                assert(all[20] == v);
            },
            StepKind::Liveness => {
                assert(all[21] == v);
            },
            StepKind::SessionEnd => {
                assert(all[22] == v);
            },
            StepKind::Unknown => {
                assert(all[23] == v);
            },
        }
    }
}

/// How a step came out.
#[derive(Debug, Clone, Copy, PartialEq, Eq, Structural, Hash, PartialOrd, Ord)]
pub enum StepOutcome {
    /// Under way when this entry was written. A later entry with the same
    /// `seq` supersedes it — so a record that ends here is a record of
    /// something that was still running when the process went away, which
    /// is precisely what a hang looks like.
    Started,
    /// It did what it set out to do.
    Succeeded,
    /// It failed; the accompanying [`Reason`] says how.
    Failed,
    /// It was deliberately not attempted (see the [`Reason`]) — which is
    /// a different fact from failing, and often a more interesting one.
    Skipped,
    /// Nobody ever concluded it: the task was cancelled, dropped, or the
    /// process went away. Recorded rather than guessed at.
    Abandoned,
    Unknown,
}

impl StepOutcome {
    /// The stable code.
    pub open spec fn code(self) -> Seq<char> {
        match self {
            StepOutcome::Started => "started"@,
            StepOutcome::Succeeded => "ok"@,
            StepOutcome::Failed => "failed"@,
            StepOutcome::Skipped => "skipped"@,
            StepOutcome::Abandoned => "abandoned"@,
            StepOutcome::Unknown => "unknown"@,
        }
    }

    /// Every value, in the order of their definition.
    pub open spec fn every() -> Seq<StepOutcome> {
        seq![
            StepOutcome::Started,
            StepOutcome::Succeeded,
            StepOutcome::Failed,
            StepOutcome::Skipped,
            StepOutcome::Abandoned,
            StepOutcome::Unknown,
        ]
    }

    /// The value of a code, or the fallback for a code that is none's.
    pub open spec fn is_reading(code: Seq<char>, r: StepOutcome) -> bool {
        ||| r.code() == code
        ||| r == StepOutcome::Unknown && forall|v: StepOutcome| v.code() != code
    }

    /// Every value.
    pub fn all() -> (v: Vec<StepOutcome>)
        ensures
            v@ == StepOutcome::every(),
    {
        let v = vec![
            StepOutcome::Started,
            StepOutcome::Succeeded,
            StepOutcome::Failed,
            StepOutcome::Skipped,
            StepOutcome::Abandoned,
            StepOutcome::Unknown,
        ];
        assert(v@ =~= StepOutcome::every());
        v
    }

    /// The stable code.
    pub fn as_str(self) -> (s: &'static str)
        ensures
            s@ == self.code(),
    {
        match self {
            StepOutcome::Started => "started",
            StepOutcome::Succeeded => "ok",
            StepOutcome::Failed => "failed",
            StepOutcome::Skipped => "skipped",
            StepOutcome::Abandoned => "abandoned",
            StepOutcome::Unknown => "unknown",
        }
    }

    /// The value of a code, or `None` for a code that is none's.
    pub fn from_code(code: &str) -> (r: Option<StepOutcome>)
        ensures
            match r {
                Some(v) => v.code() == code@,
                None => forall|v: StepOutcome| v.code() != code@,
            },
    {
        if text::same_text(code, "started") {
            Some(StepOutcome::Started)
        } else if text::same_text(code, "ok") {
            Some(StepOutcome::Succeeded)
        } else if text::same_text(code, "failed") {
            Some(StepOutcome::Failed)
        } else if text::same_text(code, "skipped") {
            Some(StepOutcome::Skipped)
        } else if text::same_text(code, "abandoned") {
            Some(StepOutcome::Abandoned)
        } else if text::same_text(code, "unknown") {
            Some(StepOutcome::Unknown)
        } else {
            None
        }
    }

    /// The value of a code, or the fallback for a code that is none's.
    pub fn read(code: &str) -> (r: StepOutcome)
        ensures
            StepOutcome::is_reading(code@, r),
    {
        match StepOutcome::from_code(code) {
            Some(v) => v,
            None => StepOutcome::Unknown,
        }
    }
}

spec fn step_outcome_by_shape(s: Seq<char>) -> StepOutcome {
    if s.len() < 7 {
        if s.len() < 6 {
            StepOutcome::Succeeded
        } else {
            StepOutcome::Failed
        }
    } else {
        if s.len() < 9 {
            if s[0] == 's' {
                if s[1] == 't' {
                    StepOutcome::Started
                } else {
                    StepOutcome::Skipped
                }
            } else {
                StepOutcome::Unknown
            }
        } else {
            StepOutcome::Abandoned
        }
    }
}

proof fn lemma_step_outcome_shape(v: StepOutcome)
    ensures
        step_outcome_by_shape(v.code()) == v,
{
    match v {
        StepOutcome::Started => {
            reveal_strlit("started");
        },
        StepOutcome::Succeeded => {
            reveal_strlit("ok");
        },
        StepOutcome::Failed => {
            reveal_strlit("failed");
        },
        StepOutcome::Skipped => {
            reveal_strlit("skipped");
        },
        StepOutcome::Abandoned => {
            reveal_strlit("abandoned");
        },
        StepOutcome::Unknown => {
            reveal_strlit("unknown");
        },
    }
}

impl StepOutcome {
    /// A code reads as the value whose code it is, and what is no value's code
    /// as the fallback.
    pub proof fn codes_read_back(v: StepOutcome, code: Seq<char>, r: StepOutcome)
        requires
            StepOutcome::is_reading(code, r),
        ensures
            code == v.code() ==> r == v,
            (forall|w: StepOutcome| #[trigger] w.code() != code) ==> r == StepOutcome::Unknown,
    {
        if code == v.code() {
            assert(v.code() == code);
            StepOutcome::codes_are_unique(v, r);
        }
    }

    /// No two values share a code.
    pub proof fn codes_are_unique(a: StepOutcome, b: StepOutcome)
        requires
            a.code() == b.code(),
        ensures
            a == b,
    {
        lemma_step_outcome_shape(a);
        lemma_step_outcome_shape(b);
    }

    /// Every value is listed.
    pub proof fn every_is_listed(v: StepOutcome)
        ensures
            StepOutcome::every().contains(v),
    {
        let all = StepOutcome::every();
        match v {
            StepOutcome::Started => {
                assert(all[0] == v);
            },
            StepOutcome::Succeeded => {
                assert(all[1] == v);
            },
            StepOutcome::Failed => {
                assert(all[2] == v);
            },
            StepOutcome::Skipped => {
                assert(all[3] == v);
            },
            StepOutcome::Abandoned => {
                assert(all[4] == v);
            },
            StepOutcome::Unknown => {
                assert(all[5] == v);
            },
        }
    }
}

/// Why something failed or was skipped — the closed vocabulary that makes
/// failures countable. Grouped by where the trouble was, because "did it
/// reach the peer at all" is the first question anyone asks.
#[derive(Debug, Clone, Copy, PartialEq, Eq, Structural, Hash, PartialOrd, Ord)]
pub enum Reason {
    /// No relay endpoints were configured at all.
    NoRelays,
    /// The share URL is not a usable token.
    BadToken,
    /// Configuration that cannot work (contradictory or incomplete).
    Misconfigured,
    /// The name resolved to nothing usable.
    DnsNoRecords,
    /// Name resolution itself failed.
    DnsFailure,
    /// Could not bind a local socket.
    BindFailed,
    /// The operating system has no route to the destination.
    NoRoute,
    /// The operating system refused the operation.
    PermissionDenied,
    /// No usable address of the required family (v4/v6) on this host.
    FamilyUnsupported,
    /// Any other socket-level error.
    SocketError,
    /// Actively refused (a TCP reset to the connect, an ICMP rejection).
    ConnectRefused,
    /// The connection attempt ran out of time.
    ConnectTimeout,
    /// The connection was reset once established.
    ConnectReset,
    /// We sent and nothing whatsoever came back. On a censored network
    /// this is the signature failure — worth its own code precisely
    /// because it looks like nothing.
    NoResponse,
    /// The handshake ran out of time.
    HandshakeTimeout,
    /// The far end refused the handshake.
    HandshakeRejected,
    /// The far end presented a certificate that is not this identity —
    /// wrong exit, stale URL, or something in the middle.
    CertMismatch,
    /// Protocol version negotiation failed.
    VersionMismatch,
    /// The peer (or something imitating it) broke the protocol.
    ProtocolViolation,
    /// Encryption or decryption failed.
    CryptoError,
    /// The shared secret was refused.
    AuthRejected,
    /// Authentication was never answered.
    AuthTimeout,
    /// Nothing arrived for long enough that the session was reaped.
    IdleTimeout,
    /// Liveness probes stopped being answered while the session was
    /// nominally up — the classic "connected but dead" tunnel.
    KeepaliveTimeout,
    /// The peer closed the session.
    PeerClosed,
    /// The transport closed under us for some other reason.
    TransportClosed,
    /// Sending failed.
    SendFailed,
    /// Receiving failed.
    RecvFailed,
    /// The STUN server did not answer.
    StunTimeout,
    /// The STUN exchange failed or returned something unusable.
    StunFailed,
    /// The peer never told us where to aim within the time allowed.
    ExchangeTimeout,
    /// The two ends offered addresses of different families — nothing to
    /// punch between.
    FamilyMismatch,
    /// The peer's candidate was refused by policy (a local, unroutable or
    /// otherwise unacceptable address).
    TargetRejected,
    /// Punching ran out of time: the two ends never met.
    PunchTimeout,
    /// The punched path was never confirmed in both directions.
    VerifyTimeout,
    /// The signalling channel went away mid-negotiation.
    SignalClosed,
    /// Not attempted: the direct upgrade is disabled by configuration.
    UpgradeDisabled,
    /// Not attempted: this carrier has no path to upgrade.
    UpgradeUnsupported,
    /// The new path was built but could not be put into service.
    SwapFailed,
    /// Cancelled locally (shutdown, or a superseding attempt).
    Cancelled,
    /// Superseded: a newer session took this one's place.
    Replaced,
    /// The application asked for the session to end.
    LocalShutdown,
    /// Storage the run depends on could not be used.
    StorageError,
    /// We genuinely do not know. Used rather than the nearest plausible
    /// code; `detail` may say more.
    Unknown,
}

impl Reason {
    /// The stable code.
    pub open spec fn code(self) -> Seq<char> {
        match self {
            Reason::NoRelays => "no_relays"@,
            Reason::BadToken => "bad_token"@,
            Reason::Misconfigured => "misconfigured"@,
            Reason::DnsNoRecords => "dns_no_records"@,
            Reason::DnsFailure => "dns_failure"@,
            Reason::BindFailed => "bind_failed"@,
            Reason::NoRoute => "no_route"@,
            Reason::PermissionDenied => "permission_denied"@,
            Reason::FamilyUnsupported => "family_unsupported"@,
            Reason::SocketError => "socket_error"@,
            Reason::ConnectRefused => "connect_refused"@,
            Reason::ConnectTimeout => "connect_timeout"@,
            Reason::ConnectReset => "connect_reset"@,
            Reason::NoResponse => "no_response"@,
            Reason::HandshakeTimeout => "handshake_timeout"@,
            Reason::HandshakeRejected => "handshake_rejected"@,
            Reason::CertMismatch => "cert_mismatch"@,
            Reason::VersionMismatch => "version_mismatch"@,
            Reason::ProtocolViolation => "protocol_violation"@,
            Reason::CryptoError => "crypto_error"@,
            Reason::AuthRejected => "auth_rejected"@,
            Reason::AuthTimeout => "auth_timeout"@,
            Reason::IdleTimeout => "idle_timeout"@,
            Reason::KeepaliveTimeout => "keepalive_timeout"@,
            Reason::PeerClosed => "peer_closed"@,
            Reason::TransportClosed => "transport_closed"@,
            Reason::SendFailed => "send_failed"@,
            Reason::RecvFailed => "recv_failed"@,
            Reason::StunTimeout => "stun_timeout"@,
            Reason::StunFailed => "stun_failed"@,
            Reason::ExchangeTimeout => "exchange_timeout"@,
            Reason::FamilyMismatch => "family_mismatch"@,
            Reason::TargetRejected => "target_rejected"@,
            Reason::PunchTimeout => "punch_timeout"@,
            Reason::VerifyTimeout => "verify_timeout"@,
            Reason::SignalClosed => "signal_closed"@,
            Reason::UpgradeDisabled => "upgrade_disabled"@,
            Reason::UpgradeUnsupported => "upgrade_unsupported"@,
            Reason::SwapFailed => "swap_failed"@,
            Reason::Cancelled => "cancelled"@,
            Reason::Replaced => "replaced"@,
            Reason::LocalShutdown => "local_shutdown"@,
            Reason::StorageError => "storage_error"@,
            Reason::Unknown => "unknown"@,
        }
    }

    /// Every value, in the order of their definition.
    pub open spec fn every() -> Seq<Reason> {
        seq![
            Reason::NoRelays,
            Reason::BadToken,
            Reason::Misconfigured,
            Reason::DnsNoRecords,
            Reason::DnsFailure,
            Reason::BindFailed,
            Reason::NoRoute,
            Reason::PermissionDenied,
            Reason::FamilyUnsupported,
            Reason::SocketError,
            Reason::ConnectRefused,
            Reason::ConnectTimeout,
            Reason::ConnectReset,
            Reason::NoResponse,
            Reason::HandshakeTimeout,
            Reason::HandshakeRejected,
            Reason::CertMismatch,
            Reason::VersionMismatch,
            Reason::ProtocolViolation,
            Reason::CryptoError,
            Reason::AuthRejected,
            Reason::AuthTimeout,
            Reason::IdleTimeout,
            Reason::KeepaliveTimeout,
            Reason::PeerClosed,
            Reason::TransportClosed,
            Reason::SendFailed,
            Reason::RecvFailed,
            Reason::StunTimeout,
            Reason::StunFailed,
            Reason::ExchangeTimeout,
            Reason::FamilyMismatch,
            Reason::TargetRejected,
            Reason::PunchTimeout,
            Reason::VerifyTimeout,
            Reason::SignalClosed,
            Reason::UpgradeDisabled,
            Reason::UpgradeUnsupported,
            Reason::SwapFailed,
            Reason::Cancelled,
            Reason::Replaced,
            Reason::LocalShutdown,
            Reason::StorageError,
            Reason::Unknown,
        ]
    }

    /// The value of a code, or the fallback for a code that is none's.
    pub open spec fn is_reading(code: Seq<char>, r: Reason) -> bool {
        ||| r.code() == code
        ||| r == Reason::Unknown && forall|v: Reason| v.code() != code
    }

    /// Every value.
    pub fn all() -> (v: Vec<Reason>)
        ensures
            v@ == Reason::every(),
    {
        let v = vec![
            Reason::NoRelays,
            Reason::BadToken,
            Reason::Misconfigured,
            Reason::DnsNoRecords,
            Reason::DnsFailure,
            Reason::BindFailed,
            Reason::NoRoute,
            Reason::PermissionDenied,
            Reason::FamilyUnsupported,
            Reason::SocketError,
            Reason::ConnectRefused,
            Reason::ConnectTimeout,
            Reason::ConnectReset,
            Reason::NoResponse,
            Reason::HandshakeTimeout,
            Reason::HandshakeRejected,
            Reason::CertMismatch,
            Reason::VersionMismatch,
            Reason::ProtocolViolation,
            Reason::CryptoError,
            Reason::AuthRejected,
            Reason::AuthTimeout,
            Reason::IdleTimeout,
            Reason::KeepaliveTimeout,
            Reason::PeerClosed,
            Reason::TransportClosed,
            Reason::SendFailed,
            Reason::RecvFailed,
            Reason::StunTimeout,
            Reason::StunFailed,
            Reason::ExchangeTimeout,
            Reason::FamilyMismatch,
            Reason::TargetRejected,
            Reason::PunchTimeout,
            Reason::VerifyTimeout,
            Reason::SignalClosed,
            Reason::UpgradeDisabled,
            Reason::UpgradeUnsupported,
            Reason::SwapFailed,
            Reason::Cancelled,
            Reason::Replaced,
            Reason::LocalShutdown,
            Reason::StorageError,
            Reason::Unknown,
        ];
        assert(v@ =~= Reason::every());
        v
    }

    /// The stable code.
    pub fn as_str(self) -> (s: &'static str)
        ensures
            s@ == self.code(),
    {
        match self {
            Reason::NoRelays => "no_relays",
            Reason::BadToken => "bad_token",
            Reason::Misconfigured => "misconfigured",
            Reason::DnsNoRecords => "dns_no_records",
            Reason::DnsFailure => "dns_failure",
            Reason::BindFailed => "bind_failed",
            Reason::NoRoute => "no_route",
            Reason::PermissionDenied => "permission_denied",
            Reason::FamilyUnsupported => "family_unsupported",
            Reason::SocketError => "socket_error",
            Reason::ConnectRefused => "connect_refused",
            Reason::ConnectTimeout => "connect_timeout",
            Reason::ConnectReset => "connect_reset",
            Reason::NoResponse => "no_response",
            Reason::HandshakeTimeout => "handshake_timeout",
            Reason::HandshakeRejected => "handshake_rejected",
            Reason::CertMismatch => "cert_mismatch",
            Reason::VersionMismatch => "version_mismatch",
            Reason::ProtocolViolation => "protocol_violation",
            Reason::CryptoError => "crypto_error",
            Reason::AuthRejected => "auth_rejected",
            Reason::AuthTimeout => "auth_timeout",
            Reason::IdleTimeout => "idle_timeout",
            Reason::KeepaliveTimeout => "keepalive_timeout",
            Reason::PeerClosed => "peer_closed",
            Reason::TransportClosed => "transport_closed",
            Reason::SendFailed => "send_failed",
            Reason::RecvFailed => "recv_failed",
            Reason::StunTimeout => "stun_timeout",
            Reason::StunFailed => "stun_failed",
            Reason::ExchangeTimeout => "exchange_timeout",
            Reason::FamilyMismatch => "family_mismatch",
            Reason::TargetRejected => "target_rejected",
            Reason::PunchTimeout => "punch_timeout",
            Reason::VerifyTimeout => "verify_timeout",
            Reason::SignalClosed => "signal_closed",
            Reason::UpgradeDisabled => "upgrade_disabled",
            Reason::UpgradeUnsupported => "upgrade_unsupported",
            Reason::SwapFailed => "swap_failed",
            Reason::Cancelled => "cancelled",
            Reason::Replaced => "replaced",
            Reason::LocalShutdown => "local_shutdown",
            Reason::StorageError => "storage_error",
            Reason::Unknown => "unknown",
        }
    }

    /// The value of a code, or `None` for a code that is none's.
    pub fn from_code(code: &str) -> (r: Option<Reason>)
        ensures
            match r {
                Some(v) => v.code() == code@,
                None => forall|v: Reason| v.code() != code@,
            },
    {
        if text::same_text(code, "no_relays") {
            Some(Reason::NoRelays)
        } else if text::same_text(code, "bad_token") {
            Some(Reason::BadToken)
        } else if text::same_text(code, "misconfigured") {
            Some(Reason::Misconfigured)
        } else if text::same_text(code, "dns_no_records") {
            Some(Reason::DnsNoRecords)
        } else if text::same_text(code, "dns_failure") {
            Some(Reason::DnsFailure)
        } else if text::same_text(code, "bind_failed") {
            Some(Reason::BindFailed)
        } else if text::same_text(code, "no_route") {
            Some(Reason::NoRoute)
        } else if text::same_text(code, "permission_denied") {
            Some(Reason::PermissionDenied)
        } else if text::same_text(code, "family_unsupported") {
            Some(Reason::FamilyUnsupported)
        } else if text::same_text(code, "socket_error") {
            Some(Reason::SocketError)
        } else if text::same_text(code, "connect_refused") {
            Some(Reason::ConnectRefused)
        } else if text::same_text(code, "connect_timeout") {
            Some(Reason::ConnectTimeout)
        } else if text::same_text(code, "connect_reset") {
            Some(Reason::ConnectReset)
        } else if text::same_text(code, "no_response") {
            Some(Reason::NoResponse)
        } else if text::same_text(code, "handshake_timeout") {
            Some(Reason::HandshakeTimeout)
        } else if text::same_text(code, "handshake_rejected") {
            Some(Reason::HandshakeRejected)
        } else if text::same_text(code, "cert_mismatch") {
            Some(Reason::CertMismatch)
        } else if text::same_text(code, "version_mismatch") {
            Some(Reason::VersionMismatch)
        } else if text::same_text(code, "protocol_violation") {
            Some(Reason::ProtocolViolation)
        } else if text::same_text(code, "crypto_error") {
            Some(Reason::CryptoError)
        } else if text::same_text(code, "auth_rejected") {
            Some(Reason::AuthRejected)
        } else if text::same_text(code, "auth_timeout") {
            Some(Reason::AuthTimeout)
        } else if text::same_text(code, "idle_timeout") {
            Some(Reason::IdleTimeout)
        } else if text::same_text(code, "keepalive_timeout") {
            Some(Reason::KeepaliveTimeout)
        } else if text::same_text(code, "peer_closed") {
            Some(Reason::PeerClosed)
        } else if text::same_text(code, "transport_closed") {
            Some(Reason::TransportClosed)
        } else if text::same_text(code, "send_failed") {
            Some(Reason::SendFailed)
        } else if text::same_text(code, "recv_failed") {
            Some(Reason::RecvFailed)
        } else if text::same_text(code, "stun_timeout") {
            Some(Reason::StunTimeout)
        } else if text::same_text(code, "stun_failed") {
            Some(Reason::StunFailed)
        } else if text::same_text(code, "exchange_timeout") {
            Some(Reason::ExchangeTimeout)
        } else if text::same_text(code, "family_mismatch") {
            Some(Reason::FamilyMismatch)
        } else if text::same_text(code, "target_rejected") {
            Some(Reason::TargetRejected)
        } else if text::same_text(code, "punch_timeout") {
            Some(Reason::PunchTimeout)
        } else if text::same_text(code, "verify_timeout") {
            Some(Reason::VerifyTimeout)
        } else if text::same_text(code, "signal_closed") {
            Some(Reason::SignalClosed)
        } else if text::same_text(code, "upgrade_disabled") {
            Some(Reason::UpgradeDisabled)
        } else if text::same_text(code, "upgrade_unsupported") {
            Some(Reason::UpgradeUnsupported)
        } else if text::same_text(code, "swap_failed") {
            Some(Reason::SwapFailed)
        } else if text::same_text(code, "cancelled") {
            Some(Reason::Cancelled)
        } else if text::same_text(code, "replaced") {
            Some(Reason::Replaced)
        } else if text::same_text(code, "local_shutdown") {
            Some(Reason::LocalShutdown)
        } else if text::same_text(code, "storage_error") {
            Some(Reason::StorageError)
        } else if text::same_text(code, "unknown") {
            Some(Reason::Unknown)
        } else {
            None
        }
    }

    /// The value of a code, or the fallback for a code that is none's.
    pub fn read(code: &str) -> (r: Reason)
        ensures
            Reason::is_reading(code@, r),
    {
        match Reason::from_code(code) {
            Some(v) => v,
            None => Reason::Unknown,
        }
    }
}

spec fn reason_by_shape(s: Seq<char>) -> Reason {
    if s.len() < 14 {
        if s.len() < 11 {
            if s.len() < 8 {
                Reason::Unknown
            } else {
                if s.len() < 9 {
                    if s[0] == 'r' {
                        Reason::Replaced
                    } else {
                        Reason::NoRoute
                    }
                } else {
                    if s[0] == 'b' {
                        Reason::BadToken
                    } else {
                        if s[0] == 'n' {
                            Reason::NoRelays
                        } else {
                            Reason::Cancelled
                        }
                    }
                }
            }
        } else {
            if s.len() < 12 {
                if s[0] == 's' {
                    if s[1] == 't' {
                        Reason::StunFailed
                    } else {
                        if s[1] == 'e' {
                            Reason::SendFailed
                        } else {
                            Reason::SwapFailed
                        }
                    }
                } else {
                    if s[1] == 'e' {
                        if s[0] == 'p' {
                            Reason::PeerClosed
                        } else {
                            Reason::RecvFailed
                        }
                    } else {
                        if s[0] == 'b' {
                            Reason::BindFailed
                        } else {
                            if s[0] == 'n' {
                                Reason::NoResponse
                            } else {
                                Reason::DnsFailure
                            }
                        }
                    }
                }
            } else {
                if s.len() < 13 {
                    if s[0] == 's' {
                        if s[1] == 't' {
                            Reason::StunTimeout
                        } else {
                            Reason::SocketError
                        }
                    } else {
                        if s[0] == 'i' {
                            Reason::IdleTimeout
                        } else {
                            if s[0] == 'c' {
                                Reason::CryptoError
                            } else {
                                Reason::AuthTimeout
                            }
                        }
                    }
                } else {
                    if s[11] == 'e' {
                        if s[1] == 'i' {
                            if s[0] == 'm' {
                                Reason::Misconfigured
                            } else {
                                Reason::SignalClosed
                            }
                        } else {
                            if s[0] == 'c' {
                                Reason::ConnectReset
                            } else {
                                Reason::AuthRejected
                            }
                        }
                    } else {
                        if s[0] == 'p' {
                            Reason::PunchTimeout
                        } else {
                            if s[0] == 's' {
                                Reason::StorageError
                            } else {
                                Reason::CertMismatch
                            }
                        }
                    }
                }
            }
        }
    } else {
        if s.len() < 17 {
            if s.len() < 15 {
                if s[0] == 'v' {
                    Reason::VerifyTimeout
                } else {
                    if s[0] == 'l' {
                        Reason::LocalShutdown
                    } else {
                        Reason::DnsNoRecords
                    }
                }
            } else {
                if s.len() < 16 {
                    if s[0] == 'c' {
                        if s[8] == 't' {
                            Reason::ConnectTimeout
                        } else {
                            Reason::ConnectRefused
                        }
                    } else {
                        if s[0] == 't' {
                            Reason::TargetRejected
                        } else {
                            Reason::FamilyMismatch
                        }
                    }
                } else {
                    if s[4] == 'a' {
                        if s[0] == 'e' {
                            Reason::ExchangeTimeout
                        } else {
                            Reason::UpgradeDisabled
                        }
                    } else {
                        if s[0] == 't' {
                            Reason::TransportClosed
                        } else {
                            Reason::VersionMismatch
                        }
                    }
                }
            }
        } else {
            if s.len() < 18 {
                if s[0] == 'p' {
                    Reason::PermissionDenied
                } else {
                    if s[0] == 'k' {
                        Reason::KeepaliveTimeout
                    } else {
                        Reason::HandshakeTimeout
                    }
                }
            } else {
                if s.len() < 19 {
                    if s[0] == 'p' {
                        Reason::ProtocolViolation
                    } else {
                        if s[0] == 'h' {
                            Reason::HandshakeRejected
                        } else {
                            Reason::FamilyUnsupported
                        }
                    }
                } else {
                    Reason::UpgradeUnsupported
                }
            }
        }
    }
}

proof fn lemma_reason_shape(v: Reason)
    ensures
        reason_by_shape(v.code()) == v,
{
    match v {
        Reason::NoRelays => {
            reveal_strlit("no_relays");
        },
        Reason::BadToken => {
            reveal_strlit("bad_token");
        },
        Reason::Misconfigured => {
            reveal_strlit("misconfigured");
        },
        Reason::DnsNoRecords => {
            reveal_strlit("dns_no_records");
        },
        Reason::DnsFailure => {
            reveal_strlit("dns_failure");
        },
        Reason::BindFailed => {
            reveal_strlit("bind_failed");
        },
        Reason::NoRoute => {
            reveal_strlit("no_route");
        },
        Reason::PermissionDenied => {
            reveal_strlit("permission_denied");
        },
        Reason::FamilyUnsupported => {
            reveal_strlit("family_unsupported");
        },
        Reason::SocketError => {
            reveal_strlit("socket_error");
        },
        Reason::ConnectRefused => {
            reveal_strlit("connect_refused");
        },
        Reason::ConnectTimeout => {
            reveal_strlit("connect_timeout");
        },
        Reason::ConnectReset => {
            reveal_strlit("connect_reset");
        },
        Reason::NoResponse => {
            reveal_strlit("no_response");
        },
        Reason::HandshakeTimeout => {
            reveal_strlit("handshake_timeout");
        },
        Reason::HandshakeRejected => {
            reveal_strlit("handshake_rejected");
        },
        Reason::CertMismatch => {
            reveal_strlit("cert_mismatch");
        },
        Reason::VersionMismatch => {
            reveal_strlit("version_mismatch");
        },
        Reason::ProtocolViolation => {
            reveal_strlit("protocol_violation");
        },
        Reason::CryptoError => {
            reveal_strlit("crypto_error");
        },
        Reason::AuthRejected => {
            reveal_strlit("auth_rejected");
        },
        Reason::AuthTimeout => {
            reveal_strlit("auth_timeout");
        },
        Reason::IdleTimeout => {
            reveal_strlit("idle_timeout");
        },
        Reason::KeepaliveTimeout => {
            reveal_strlit("keepalive_timeout");
        },
        Reason::PeerClosed => {
            reveal_strlit("peer_closed");
        },
        Reason::TransportClosed => {
            reveal_strlit("transport_closed");
        },
        Reason::SendFailed => {
            reveal_strlit("send_failed");
        },
        Reason::RecvFailed => {
            reveal_strlit("recv_failed");
        },
        Reason::StunTimeout => {
            reveal_strlit("stun_timeout");
        },
        Reason::StunFailed => {
            reveal_strlit("stun_failed");
        },
        Reason::ExchangeTimeout => {
            reveal_strlit("exchange_timeout");
        },
        Reason::FamilyMismatch => {
            reveal_strlit("family_mismatch");
        },
        Reason::TargetRejected => {
            reveal_strlit("target_rejected");
        },
        Reason::PunchTimeout => {
            reveal_strlit("punch_timeout");
        },
        Reason::VerifyTimeout => {
            reveal_strlit("verify_timeout");
        },
        Reason::SignalClosed => {
            reveal_strlit("signal_closed");
        },
        Reason::UpgradeDisabled => {
            reveal_strlit("upgrade_disabled");
        },
        Reason::UpgradeUnsupported => {
            reveal_strlit("upgrade_unsupported");
        },
        Reason::SwapFailed => {
            reveal_strlit("swap_failed");
        },
        Reason::Cancelled => {
            reveal_strlit("cancelled");
        },
        Reason::Replaced => {
            reveal_strlit("replaced");
        },
        Reason::LocalShutdown => {
            reveal_strlit("local_shutdown");
        },
        Reason::StorageError => {
            reveal_strlit("storage_error");
        },
        Reason::Unknown => {
            reveal_strlit("unknown");
        },
    }
}

impl Reason {
    /// A code reads as the value whose code it is, and what is no value's code
    /// as the fallback.
    pub proof fn codes_read_back(v: Reason, code: Seq<char>, r: Reason)
        requires
            Reason::is_reading(code, r),
        ensures
            code == v.code() ==> r == v,
            (forall|w: Reason| #[trigger] w.code() != code) ==> r == Reason::Unknown,
    {
        if code == v.code() {
            assert(v.code() == code);
            Reason::codes_are_unique(v, r);
        }
    }

    /// No two values share a code.
    pub proof fn codes_are_unique(a: Reason, b: Reason)
        requires
            a.code() == b.code(),
        ensures
            a == b,
    {
        lemma_reason_shape(a);
        lemma_reason_shape(b);
    }

    /// Every value is listed.
    pub proof fn every_is_listed(v: Reason)
        ensures
            Reason::every().contains(v),
    {
        let all = Reason::every();
        match v {
            Reason::NoRelays => {
                assert(all[0] == v);
            },
            Reason::BadToken => {
                assert(all[1] == v);
            },
            Reason::Misconfigured => {
                assert(all[2] == v);
            },
            Reason::DnsNoRecords => {
                assert(all[3] == v);
            },
            Reason::DnsFailure => {
                assert(all[4] == v);
            },
            Reason::BindFailed => {
                assert(all[5] == v);
            },
            Reason::NoRoute => {
                assert(all[6] == v);
            },
            Reason::PermissionDenied => {
                assert(all[7] == v);
            },
            Reason::FamilyUnsupported => {
                assert(all[8] == v);
            },
            Reason::SocketError => {
                assert(all[9] == v);
            },
            Reason::ConnectRefused => {
                assert(all[10] == v);
            },
            Reason::ConnectTimeout => {
                assert(all[11] == v);
            },
            Reason::ConnectReset => {
                assert(all[12] == v);
            },
            Reason::NoResponse => {
                assert(all[13] == v);
            },
            Reason::HandshakeTimeout => {
                assert(all[14] == v);
            },
            Reason::HandshakeRejected => {
                assert(all[15] == v);
            },
            Reason::CertMismatch => {
                assert(all[16] == v);
            },
            Reason::VersionMismatch => {
                assert(all[17] == v);
            },
            Reason::ProtocolViolation => {
                assert(all[18] == v);
            },
            Reason::CryptoError => {
                assert(all[19] == v);
            },
            Reason::AuthRejected => {
                assert(all[20] == v);
            },
            Reason::AuthTimeout => {
                assert(all[21] == v);
            },
            Reason::IdleTimeout => {
                assert(all[22] == v);
            },
            Reason::KeepaliveTimeout => {
                assert(all[23] == v);
            },
            Reason::PeerClosed => {
                assert(all[24] == v);
            },
            Reason::TransportClosed => {
                assert(all[25] == v);
            },
            Reason::SendFailed => {
                assert(all[26] == v);
            },
            Reason::RecvFailed => {
                assert(all[27] == v);
            },
            Reason::StunTimeout => {
                assert(all[28] == v);
            },
            Reason::StunFailed => {
                assert(all[29] == v);
            },
            Reason::ExchangeTimeout => {
                assert(all[30] == v);
            },
            Reason::FamilyMismatch => {
                assert(all[31] == v);
            },
            Reason::TargetRejected => {
                assert(all[32] == v);
            },
            Reason::PunchTimeout => {
                assert(all[33] == v);
            },
            Reason::VerifyTimeout => {
                assert(all[34] == v);
            },
            Reason::SignalClosed => {
                assert(all[35] == v);
            },
            Reason::UpgradeDisabled => {
                assert(all[36] == v);
            },
            Reason::UpgradeUnsupported => {
                assert(all[37] == v);
            },
            Reason::SwapFailed => {
                assert(all[38] == v);
            },
            Reason::Cancelled => {
                assert(all[39] == v);
            },
            Reason::Replaced => {
                assert(all[40] == v);
            },
            Reason::LocalShutdown => {
                assert(all[41] == v);
            },
            Reason::StorageError => {
                assert(all[42] == v);
            },
            Reason::Unknown => {
                assert(all[43] == v);
            },
        }
    }
}

/// How a run ended, as a whole.
#[derive(Debug, Clone, Copy, PartialEq, Eq, Structural, Hash, PartialOrd, Ord)]
pub enum Outcome {
    /// Still carrying traffic when the record was closed.
    Connected,
    /// Never got a usable tunnel at all.
    NeverConnected,
    /// Had one, lost it, did not get it back.
    Lost,
    /// We closed it.
    ClosedLocally,
    /// The peer closed it.
    ClosedByPeer,
    /// A newer session replaced it.
    Replaced,
    /// The record has no ending — the process went away mid-run. A reader
    /// infers this from a missing `close` entry; nothing writes it.
    Unknown,
}

impl Outcome {
    /// The stable code.
    pub open spec fn code(self) -> Seq<char> {
        match self {
            Outcome::Connected => "connected"@,
            Outcome::NeverConnected => "never_connected"@,
            Outcome::Lost => "lost"@,
            Outcome::ClosedLocally => "closed_locally"@,
            Outcome::ClosedByPeer => "closed_by_peer"@,
            Outcome::Replaced => "replaced"@,
            Outcome::Unknown => "unknown"@,
        }
    }

    /// Every value, in the order of their definition.
    pub open spec fn every() -> Seq<Outcome> {
        seq![
            Outcome::Connected,
            Outcome::NeverConnected,
            Outcome::Lost,
            Outcome::ClosedLocally,
            Outcome::ClosedByPeer,
            Outcome::Replaced,
            Outcome::Unknown,
        ]
    }

    /// The value of a code, or the fallback for a code that is none's.
    pub open spec fn is_reading(code: Seq<char>, r: Outcome) -> bool {
        ||| r.code() == code
        ||| r == Outcome::Unknown && forall|v: Outcome| v.code() != code
    }

    /// Every value.
    pub fn all() -> (v: Vec<Outcome>)
        ensures
            v@ == Outcome::every(),
    {
        let v = vec![
            Outcome::Connected,
            Outcome::NeverConnected,
            Outcome::Lost,
            Outcome::ClosedLocally,
            Outcome::ClosedByPeer,
            Outcome::Replaced,
            Outcome::Unknown,
        ];
        assert(v@ =~= Outcome::every());
        v
    }

    /// The stable code.
    pub fn as_str(self) -> (s: &'static str)
        ensures
            s@ == self.code(),
    {
        match self {
            Outcome::Connected => "connected",
            Outcome::NeverConnected => "never_connected",
            Outcome::Lost => "lost",
            Outcome::ClosedLocally => "closed_locally",
            Outcome::ClosedByPeer => "closed_by_peer",
            Outcome::Replaced => "replaced",
            Outcome::Unknown => "unknown",
        }
    }

    /// The value of a code, or `None` for a code that is none's.
    pub fn from_code(code: &str) -> (r: Option<Outcome>)
        ensures
            match r {
                Some(v) => v.code() == code@,
                None => forall|v: Outcome| v.code() != code@,
            },
    {
        if text::same_text(code, "connected") {
            Some(Outcome::Connected)
        } else if text::same_text(code, "never_connected") {
            Some(Outcome::NeverConnected)
        } else if text::same_text(code, "lost") {
            Some(Outcome::Lost)
        } else if text::same_text(code, "closed_locally") {
            Some(Outcome::ClosedLocally)
        } else if text::same_text(code, "closed_by_peer") {
            Some(Outcome::ClosedByPeer)
        } else if text::same_text(code, "replaced") {
            Some(Outcome::Replaced)
        } else if text::same_text(code, "unknown") {
            Some(Outcome::Unknown)
        } else {
            None
        }
    }

    /// The value of a code, or the fallback for a code that is none's.
    pub fn read(code: &str) -> (r: Outcome)
        ensures
            Outcome::is_reading(code@, r),
    {
        match Outcome::from_code(code) {
            Some(v) => v,
            None => Outcome::Unknown,
        }
    }
}

spec fn outcome_by_shape(s: Seq<char>) -> Outcome {
    if s.len() < 9 {
        if s.len() < 7 {
            Outcome::Lost
        } else {
            if s.len() < 8 {
                Outcome::Unknown
            } else {
                Outcome::Replaced
            }
        }
    } else {
        if s.len() < 14 {
            Outcome::Connected
        } else {
            if s.len() < 15 {
                if s[7] == 'b' {
                    Outcome::ClosedByPeer
                } else {
                    Outcome::ClosedLocally
                }
            } else {
                Outcome::NeverConnected
            }
        }
    }
}

proof fn lemma_outcome_shape(v: Outcome)
    ensures
        outcome_by_shape(v.code()) == v,
{
    match v {
        Outcome::Connected => {
            reveal_strlit("connected");
        },
        Outcome::NeverConnected => {
            reveal_strlit("never_connected");
        },
        Outcome::Lost => {
            reveal_strlit("lost");
        },
        Outcome::ClosedLocally => {
            reveal_strlit("closed_locally");
        },
        Outcome::ClosedByPeer => {
            reveal_strlit("closed_by_peer");
        },
        Outcome::Replaced => {
            reveal_strlit("replaced");
        },
        Outcome::Unknown => {
            reveal_strlit("unknown");
        },
    }
}

impl Outcome {
    /// A code reads as the value whose code it is, and what is no value's code
    /// as the fallback.
    pub proof fn codes_read_back(v: Outcome, code: Seq<char>, r: Outcome)
        requires
            Outcome::is_reading(code, r),
        ensures
            code == v.code() ==> r == v,
            (forall|w: Outcome| #[trigger] w.code() != code) ==> r == Outcome::Unknown,
    {
        if code == v.code() {
            assert(v.code() == code);
            Outcome::codes_are_unique(v, r);
        }
    }

    /// No two values share a code.
    pub proof fn codes_are_unique(a: Outcome, b: Outcome)
        requires
            a.code() == b.code(),
        ensures
            a == b,
    {
        lemma_outcome_shape(a);
        lemma_outcome_shape(b);
    }

    /// Every value is listed.
    pub proof fn every_is_listed(v: Outcome)
        ensures
            Outcome::every().contains(v),
    {
        let all = Outcome::every();
        match v {
            Outcome::Connected => {
                assert(all[0] == v);
            },
            Outcome::NeverConnected => {
                assert(all[1] == v);
            },
            Outcome::Lost => {
                assert(all[2] == v);
            },
            Outcome::ClosedLocally => {
                assert(all[3] == v);
            },
            Outcome::ClosedByPeer => {
                assert(all[4] == v);
            },
            Outcome::Replaced => {
                assert(all[5] == v);
            },
            Outcome::Unknown => {
                assert(all[6] == v);
            },
        }
    }
}

/// Whether a packet-size limit was measured or merely asserted. Reading a
/// carrier's built-in constant as if it were a discovery is exactly the
/// kind of mistake that quietly poisons a comparison.
#[derive(Debug, Clone, Copy, PartialEq, Eq, Structural, Hash, PartialOrd, Ord)]
pub enum MtuSource {
    /// Found by probing the path (QUIC's packetization-layer discovery).
    Discovered,
    /// A fixed value this carrier declares; nothing was measured.
    Declared,
    Unknown,
}

impl MtuSource {
    /// The stable code.
    pub open spec fn code(self) -> Seq<char> {
        match self {
            MtuSource::Discovered => "discovered"@,
            MtuSource::Declared => "declared"@,
            MtuSource::Unknown => "unknown"@,
        }
    }

    /// Every value, in the order of their definition.
    pub open spec fn every() -> Seq<MtuSource> {
        seq![
            MtuSource::Discovered,
            MtuSource::Declared,
            MtuSource::Unknown,
        ]
    }

    /// The value of a code, or the fallback for a code that is none's.
    pub open spec fn is_reading(code: Seq<char>, r: MtuSource) -> bool {
        ||| r.code() == code
        ||| r == MtuSource::Unknown && forall|v: MtuSource| v.code() != code
    }

    /// Every value.
    pub fn all() -> (v: Vec<MtuSource>)
        ensures
            v@ == MtuSource::every(),
    {
        let v = vec![
            MtuSource::Discovered,
            MtuSource::Declared,
            MtuSource::Unknown,
        ];
        assert(v@ =~= MtuSource::every());
        v
    }

    /// The stable code.
    pub fn as_str(self) -> (s: &'static str)
        ensures
            s@ == self.code(),
    {
        match self {
            MtuSource::Discovered => "discovered",
            MtuSource::Declared => "declared",
            MtuSource::Unknown => "unknown",
        }
    }

    /// The value of a code, or `None` for a code that is none's.
    pub fn from_code(code: &str) -> (r: Option<MtuSource>)
        ensures
            match r {
                Some(v) => v.code() == code@,
                None => forall|v: MtuSource| v.code() != code@,
            },
    {
        if text::same_text(code, "discovered") {
            Some(MtuSource::Discovered)
        } else if text::same_text(code, "declared") {
            Some(MtuSource::Declared)
        } else if text::same_text(code, "unknown") {
            Some(MtuSource::Unknown)
        } else {
            None
        }
    }

    /// The value of a code, or the fallback for a code that is none's.
    pub fn read(code: &str) -> (r: MtuSource)
        ensures
            MtuSource::is_reading(code@, r),
    {
        match MtuSource::from_code(code) {
            Some(v) => v,
            None => MtuSource::Unknown,
        }
    }
}

spec fn mtu_source_by_shape(s: Seq<char>) -> MtuSource {
    if s.len() < 8 {
        MtuSource::Unknown
    } else {
        if s.len() < 10 {
            MtuSource::Declared
        } else {
            MtuSource::Discovered
        }
    }
}

proof fn lemma_mtu_source_shape(v: MtuSource)
    ensures
        mtu_source_by_shape(v.code()) == v,
{
    match v {
        MtuSource::Discovered => {
            reveal_strlit("discovered");
        },
        MtuSource::Declared => {
            reveal_strlit("declared");
        },
        MtuSource::Unknown => {
            reveal_strlit("unknown");
        },
    }
}

impl MtuSource {
    /// A code reads as the value whose code it is, and what is no value's code
    /// as the fallback.
    pub proof fn codes_read_back(v: MtuSource, code: Seq<char>, r: MtuSource)
        requires
            MtuSource::is_reading(code, r),
        ensures
            code == v.code() ==> r == v,
            (forall|w: MtuSource| #[trigger] w.code() != code) ==> r == MtuSource::Unknown,
    {
        if code == v.code() {
            assert(v.code() == code);
            MtuSource::codes_are_unique(v, r);
        }
    }

    /// No two values share a code.
    pub proof fn codes_are_unique(a: MtuSource, b: MtuSource)
        requires
            a.code() == b.code(),
        ensures
            a == b,
    {
        lemma_mtu_source_shape(a);
        lemma_mtu_source_shape(b);
    }

    /// Every value is listed.
    pub proof fn every_is_listed(v: MtuSource)
        ensures
            MtuSource::every().contains(v),
    {
        let all = MtuSource::every();
        match v {
            MtuSource::Discovered => {
                assert(all[0] == v);
            },
            MtuSource::Declared => {
                assert(all[1] == v);
            },
            MtuSource::Unknown => {
                assert(all[2] == v);
            },
        }
    }
}

/// Where a round-trip figure came from, because they are not comparable:
/// the carrier's own estimate excludes the tunnel, the probe's includes
/// everything.
#[derive(Debug, Clone, Copy, PartialEq, Eq, Structural, Hash, PartialOrd, Ord)]
pub enum RttSource {
    /// The QUIC connection's smoothed round-trip estimate.
    Quic,
    /// A liveness probe through the tunnel and back.
    Keepalive,
    Unknown,
}

impl RttSource {
    /// The stable code.
    pub open spec fn code(self) -> Seq<char> {
        match self {
            RttSource::Quic => "quic"@,
            RttSource::Keepalive => "keepalive"@,
            RttSource::Unknown => "unknown"@,
        }
    }

    /// Every value, in the order of their definition.
    pub open spec fn every() -> Seq<RttSource> {
        seq![
            RttSource::Quic,
            RttSource::Keepalive,
            RttSource::Unknown,
        ]
    }

    /// The value of a code, or the fallback for a code that is none's.
    pub open spec fn is_reading(code: Seq<char>, r: RttSource) -> bool {
        ||| r.code() == code
        ||| r == RttSource::Unknown && forall|v: RttSource| v.code() != code
    }

    /// Every value.
    pub fn all() -> (v: Vec<RttSource>)
        ensures
            v@ == RttSource::every(),
    {
        let v = vec![
            RttSource::Quic,
            RttSource::Keepalive,
            RttSource::Unknown,
        ];
        assert(v@ =~= RttSource::every());
        v
    }

    /// The stable code.
    pub fn as_str(self) -> (s: &'static str)
        ensures
            s@ == self.code(),
    {
        match self {
            RttSource::Quic => "quic",
            RttSource::Keepalive => "keepalive",
            RttSource::Unknown => "unknown",
        }
    }

    /// The value of a code, or `None` for a code that is none's.
    pub fn from_code(code: &str) -> (r: Option<RttSource>)
        ensures
            match r {
                Some(v) => v.code() == code@,
                None => forall|v: RttSource| v.code() != code@,
            },
    {
        if text::same_text(code, "quic") {
            Some(RttSource::Quic)
        } else if text::same_text(code, "keepalive") {
            Some(RttSource::Keepalive)
        } else if text::same_text(code, "unknown") {
            Some(RttSource::Unknown)
        } else {
            None
        }
    }

    /// The value of a code, or the fallback for a code that is none's.
    pub fn read(code: &str) -> (r: RttSource)
        ensures
            RttSource::is_reading(code@, r),
    {
        match RttSource::from_code(code) {
            Some(v) => v,
            None => RttSource::Unknown,
        }
    }
}

spec fn rtt_source_by_shape(s: Seq<char>) -> RttSource {
    if s.len() < 7 {
        RttSource::Quic
    } else {
        if s.len() < 9 {
            RttSource::Unknown
        } else {
            RttSource::Keepalive
        }
    }
}

proof fn lemma_rtt_source_shape(v: RttSource)
    ensures
        rtt_source_by_shape(v.code()) == v,
{
    match v {
        RttSource::Quic => {
            reveal_strlit("quic");
        },
        RttSource::Keepalive => {
            reveal_strlit("keepalive");
        },
        RttSource::Unknown => {
            reveal_strlit("unknown");
        },
    }
}

impl RttSource {
    /// A code reads as the value whose code it is, and what is no value's code
    /// as the fallback.
    pub proof fn codes_read_back(v: RttSource, code: Seq<char>, r: RttSource)
        requires
            RttSource::is_reading(code, r),
        ensures
            code == v.code() ==> r == v,
            (forall|w: RttSource| #[trigger] w.code() != code) ==> r == RttSource::Unknown,
    {
        if code == v.code() {
            assert(v.code() == code);
            RttSource::codes_are_unique(v, r);
        }
    }

    /// No two values share a code.
    pub proof fn codes_are_unique(a: RttSource, b: RttSource)
        requires
            a.code() == b.code(),
        ensures
            a == b,
    {
        lemma_rtt_source_shape(a);
        lemma_rtt_source_shape(b);
    }

    /// Every value is listed.
    pub proof fn every_is_listed(v: RttSource)
        ensures
            RttSource::every().contains(v),
    {
        let all = RttSource::every();
        match v {
            RttSource::Quic => {
                assert(all[0] == v);
            },
            RttSource::Keepalive => {
                assert(all[1] == v);
            },
            RttSource::Unknown => {
                assert(all[2] == v);
            },
        }
    }
}

impl Carrier {
    /// The carrier that an endpoint's protocol implies.
    pub open spec fn of(p: RelayProtocol) -> Carrier {
        match p {
            RelayProtocol::UdpQuic | RelayProtocol::Direct => Carrier::Quic,
            RelayProtocol::TcpTls => Carrier::TcpTls,
            RelayProtocol::NoiseUdp => Carrier::NoiseUdp,
        }
    }

    /// The carrier that an endpoint's protocol implies.
    pub fn of_protocol(p: RelayProtocol) -> (c: Carrier)
        ensures
            c == Carrier::of(p),
    {
        match p {
            RelayProtocol::UdpQuic | RelayProtocol::Direct => Carrier::Quic,
            RelayProtocol::TcpTls => Carrier::TcpTls,
            RelayProtocol::NoiseUdp => Carrier::NoiseUdp,
        }
    }
}

impl PathKind {
    /// The path that an endpoint's protocol implies: through a relay, or to an
    /// address that the exit advertises itself.
    pub open spec fn of(p: RelayProtocol) -> PathKind {
        if p == RelayProtocol::Direct {
            PathKind::DirectAdvertised
        } else {
            PathKind::Relay
        }
    }

    /// The path that an endpoint's protocol implies.
    pub fn of_protocol(p: RelayProtocol) -> (k: PathKind)
        ensures
            k == PathKind::of(p),
    {
        if p.is_relayed() {
            PathKind::Relay
        } else {
            PathKind::DirectAdvertised
        }
    }
}

/// Which path traffic is attributed to.
pub struct PathState {
    code: u8,
}

impl PathState {
    /// The path.
    pub closed spec fn view(&self) -> PathKind {
        if self.code == 1 {
            PathKind::Relay
        } else if self.code == 2 {
            PathKind::DirectAdvertised
        } else if self.code == 3 {
            PathKind::DirectPunched
        } else {
            PathKind::Unknown
        }
    }

    pub fn new(path: PathKind) -> (s: PathState)
        ensures
            s@ == path,
    {
        PathState { code: path_code(path) }
    }

    pub fn set(&mut self, path: PathKind)
        ensures
            final(self)@ == path,
    {
        self.code = path_code(path);
    }

    pub fn get(&self) -> (path: PathKind)
        ensures
            path == self@,
    {
        match self.code {
            1 => PathKind::Relay,
            2 => PathKind::DirectAdvertised,
            3 => PathKind::DirectPunched,
            _ => PathKind::Unknown,
        }
    }
}

fn path_code(path: PathKind) -> (c: u8)
    ensures
        c == match path {
            PathKind::Relay => 1u8,
            PathKind::DirectAdvertised => 2u8,
            PathKind::DirectPunched => 3u8,
            PathKind::Unknown => 0u8,
        },
{
    match path {
        PathKind::Relay => 1,
        PathKind::DirectAdvertised => 2,
        PathKind::DirectPunched => 3,
        PathKind::Unknown => 0,
    }
}

} // verus!
