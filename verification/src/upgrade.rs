//! From a session through a relay to a direct path between the peers.

use vstd::prelude::*;
use vstd::string::*;
use crate::addr::SocketAddr;
use crate::config::TunnelEvent;
use crate::connlog::AddrKind;
use crate::fault;
use crate::fault::{Fault, FaultView, IoFailure};
use crate::outside;
use crate::punch;
use crate::punch::punch_budget;
use crate::report;
use crate::report::{EndingView, ReportView, StepReport};
use crate::server::TunnelError;
use crate::text;
use crate::vocab::{Carrier, PathKind, Reason, StepKind};

verus! {

/// How many attempts a dormant client makes before it waits to be woken.
pub const MAX_DORMANT_ATTEMPTS: u32 = 3;

/// How often a client that waits to be woken looks whether it was, in
/// milliseconds.
pub const PARKED_POLL: u64 = 5_000;

/// Why an attempt at a direct path failed.
#[derive(Debug, PartialEq, Eq)]
pub enum DirectError {
    /// The channel beside the packets is closed: no attempt can succeed any
    /// more.
    SignalClosed(Fault),
    /// Another attempt may succeed.
    Transient(Fault),
}

/// Why an attempt at a direct path failed.
pub enum DirectErrorView {
    SignalClosed(FaultView),
    Transient(FaultView),
}

impl DirectError {
    pub open spec fn view(&self) -> DirectErrorView {
        match self {
            DirectError::SignalClosed(f) => DirectErrorView::SignalClosed(f.view()),
            DirectError::Transient(f) => DirectErrorView::Transient(f.view()),
        }
    }

    /// What went wrong.
    pub open spec fn spec_fault(&self) -> Fault {
        match self {
            DirectError::SignalClosed(f) => *f,
            DirectError::Transient(f) => *f,
        }
    }

    /// A failure after which another attempt may succeed.
    pub fn transient(f: Fault) -> (e: DirectError)
        ensures
            e == DirectError::Transient(f),
    {
        DirectError::Transient(f)
    }

    /// A failure after which none can.
    pub fn signal_closed(f: Fault) -> (e: DirectError)
        ensures
            e == DirectError::SignalClosed(f),
    {
        DirectError::SignalClosed(f)
    }

    /// What went wrong.
    pub fn fault(&self) -> (f: &Fault)
        ensures
            *f == self.spec_fault(),
    {
        match self {
            DirectError::SignalClosed(f) => f,
            DirectError::Transient(f) => f,
        }
    }

    /// What went wrong, in words.
    pub fn reason(&self) -> (s: &str)
        ensures
            s@ == self.spec_fault().detail@,
    {
        self.fault().detail.as_str()
    }
}

/// What an error of the exchange of endpoints means for an attempt.
pub open spec fn neg_error(e: TunnelError) -> DirectErrorView {
    match e {
        TunnelError::NegChannelClosed => DirectErrorView::SignalClosed(
            fault::fault(Reason::SignalClosed, "signal channel closed"@),
        ),
        TunnelError::PunchTargetRefused(m) => DirectErrorView::Transient(
            fault::fault(Reason::TargetRejected, m@),
        ),
        TunnelError::ProtocolError(m) => DirectErrorView::Transient(
            fault::fault(
                Reason::ProtocolViolation,
                "ProtocolError("@ + outside::debug_text(m@) + ")"@,
            ),
        ),
        TunnelError::PierceError(m) => DirectErrorView::Transient(
            fault::fault(
                Reason::ProtocolViolation,
                "PierceError("@ + outside::debug_text(m@) + ")"@,
            ),
        ),
    }
}

/// What an error of the exchange of endpoints means for an attempt: a channel
/// that is closed ends all attempts; an endpoint that was refused or could not
/// be read ends this one.
pub fn neg_err(e: TunnelError) -> (d: DirectError)
    ensures
        d.view() == neg_error(e),
{
    match e {
        TunnelError::NegChannelClosed => DirectError::signal_closed(
            Fault::new(Reason::SignalClosed, "signal channel closed"),
        ),
        TunnelError::PunchTargetRefused(m) => DirectError::transient(
            Fault::new(Reason::TargetRejected, m.as_str()),
        ),
        TunnelError::ProtocolError(m) => DirectError::transient(
            Fault::new(
                Reason::ProtocolViolation,
                String::from_str("ProtocolError(").concat(
                    outside::quoted(m.as_str()).as_str(),
                ).concat(")").as_str(),
            ),
        ),
        TunnelError::PierceError(m) => DirectError::transient(
            Fault::new(
                Reason::ProtocolViolation,
                String::from_str("PierceError(").concat(
                    outside::quoted(m.as_str()).as_str(),
                ).concat(")").as_str(),
            ),
        ),
    }
}

/// The state of a series of attempts: whether this side makes the first move,
/// how many attempts were made while dormant, and whether the client was active
/// before.
#[derive(Debug, Clone, Copy, PartialEq, Eq)]
pub struct UpgradeLoop {
    pub initiator: bool,
    pub dormant_attempts: u32,
    pub was_active: bool,
}

/// What to do next.
#[derive(Debug, Clone, Copy, PartialEq, Eq, Structural)]
pub enum UpgradeAsk {
    /// Stop for good.
    Stop,
    /// Wait a while, and look whether the client was woken.
    Park,
    /// Make an attempt.
    Attempt,
}

/// What is seen before an attempt: whether the session was cancelled, whether
/// its transport is gone, and how often the client probes, zero while dormant,
/// where this side can know that.
#[derive(Debug, Clone, Copy, PartialEq, Eq)]
pub struct Seen {
    pub cancelled: bool,
    pub replaced: bool,
    pub knob: Option<u64>,
}

/// Whether a knob says that the client is active.
pub open spec fn is_active(knob: Option<u64>) -> bool {
    knob matches Some(k) && k > 0
}

/// The state before an attempt, and what to do.
pub open spec fn begun(s: UpgradeLoop, seen: Seen) -> (UpgradeLoop, UpgradeAsk) {
    if seen.cancelled || seen.replaced {
        (s, UpgradeAsk::Stop)
    } else if !s.initiator || seen.knob is None {
        (s, UpgradeAsk::Attempt)
    } else {
        let active = is_active(seen.knob);
        let next = UpgradeLoop {
            dormant_attempts: if active && !s.was_active {
                0
            } else {
                s.dormant_attempts
            },
            was_active: active,
            ..s
        };
        (
            next,
            if !active && next.dormant_attempts >= MAX_DORMANT_ATTEMPTS {
                UpgradeAsk::Park
            } else {
                UpgradeAsk::Attempt
            },
        )
    }
}

/// The state after waiting to be woken, and what to do.
pub open spec fn unparked(s: UpgradeLoop, seen: Seen) -> (UpgradeLoop, UpgradeAsk) {
    if seen.cancelled || seen.replaced {
        (s, UpgradeAsk::Stop)
    } else if is_active(seen.knob) {
        (UpgradeLoop { dormant_attempts: 0, was_active: true, ..s }, UpgradeAsk::Attempt)
    } else {
        (s, UpgradeAsk::Park)
    }
}

/// The state after an attempt that failed.
pub open spec fn after_failure(s: UpgradeLoop, knob: Option<u64>) -> UpgradeLoop {
    if s.initiator && knob == Some(0u64) && s.dormant_attempts < u32::MAX {
        UpgradeLoop { dormant_attempts: (s.dormant_attempts + 1) as u32, ..s }
    } else {
        s
    }
}

/// What follows on an attempt that failed.
#[derive(Debug, PartialEq, Eq)]
pub struct UpgradeFailed {
    pub event: TunnelEvent,
    /// Whether to stop for good.
    pub stop: bool,
    /// How long to wait before the next attempt, in milliseconds.
    pub delay: u64,
}

impl UpgradeLoop {
    /// A series of which no attempt was made.
    pub fn new(initiator: bool) -> (s: UpgradeLoop)
        ensures
            s == (UpgradeLoop { initiator, dormant_attempts: 0, was_active: false }),
    {
        UpgradeLoop { initiator, dormant_attempts: 0, was_active: false }
    }

    /// What to do before an attempt. A dormant client makes a few attempts and
    /// then waits to be woken.
    pub fn begin(&mut self, seen: Seen) -> (a: UpgradeAsk)
        ensures
            (*final(self), a) == begun(*old(self), seen),
    {
        if seen.cancelled || seen.replaced {
            return UpgradeAsk::Stop;
        }
        if !self.initiator {
            return UpgradeAsk::Attempt;
        }
        let active: bool = match seen.knob {
            Some(k) => k > 0,
            None => return UpgradeAsk::Attempt,
        };
        if active && !self.was_active {
            self.dormant_attempts = 0;
        }
        self.was_active = active;
        if !active && self.dormant_attempts >= MAX_DORMANT_ATTEMPTS {
            UpgradeAsk::Park
        } else {
            UpgradeAsk::Attempt
        }
    }

    /// What to do after waiting a while to be woken.
    pub fn unpark(&mut self, seen: Seen) -> (a: UpgradeAsk)
        ensures
            (*final(self), a) == unparked(*old(self), seen),
    {
        if seen.cancelled || seen.replaced {
            return UpgradeAsk::Stop;
        }
        match seen.knob {
            Some(k) => {
                if k > 0 {
                    self.dormant_attempts = 0;
                    self.was_active = true;
                    return UpgradeAsk::Attempt;
                }
            },
            None => {},
        }
        UpgradeAsk::Park
    }

    /// What follows on an attempt that failed. Once the channel is closed no
    /// more are made; the side that moves first waits before the next, and the
    /// other side waits for it.
    pub fn failed(&mut self, e: &DirectError, knob: Option<u64>, retry_delay: u64) -> (f:
        UpgradeFailed)
        ensures
            f.event matches TunnelEvent::DirectUpgradeFailed { code, reason } && code
                == e.spec_fault().reason && reason@ == e.spec_fault().detail@,
            f.stop == (e is SignalClosed),
            f.delay == (if old(self).initiator && !f.stop {
                retry_delay
            } else {
                0
            }),
            *final(self) == (if f.stop {
                *old(self)
            } else {
                after_failure(*old(self), knob)
            }),
    {
        let event = TunnelEvent::DirectUpgradeFailed {
            code: e.fault().reason,
            reason: e.fault().detail.clone(),
        };
        match e {
            DirectError::SignalClosed(_) => {
                return UpgradeFailed { event, stop: true, delay: 0 };
            },
            DirectError::Transient(_) => {},
        }
        if !self.initiator {
            return UpgradeFailed { event, stop: false, delay: 0 };
        }
        match knob {
            Some(k) => {
                if k == 0 && self.dormant_attempts < u32::MAX {
                    self.dormant_attempts = self.dormant_attempts + 1;
                }
            },
            None => {},
        }
        UpgradeFailed { event, stop: false, delay: retry_delay }
    }
}

/// A direct path that came about: the peer's address, the own one, whether it
/// is a QUIC connection, and the packet size where it is fixed.
#[derive(Debug, Clone, Copy, PartialEq, Eq)]
pub struct DirectPath {
    pub peer: SocketAddr,
    pub local: SocketAddr,
    pub quic: bool,
    pub fixed_mtu: u16,
}

/// What follows on a direct path that came about.
#[derive(Debug, PartialEq, Eq)]
pub struct Upgraded {
    pub report: StepReport,
    /// What is told, the address to log, and the packet size to record at once,
    /// where the tunnel could take the path.
    pub taken: Option<Taken>,
}

/// What follows once the tunnel has taken a direct path.
#[derive(Debug, PartialEq, Eq)]
pub struct Taken {
    pub event: TunnelEvent,
    pub verified: SocketAddr,
    /// What is recorded of a packet size that is declared; none where it is
    /// read later.
    pub mtu: Option<StepReport>,
}

/// What follows on a direct path that came about; `swapped` says whether the
/// tunnel could take it.
pub fn upgraded(path: &DirectPath, swapped: bool, carrier: Carrier) -> (u: Upgraded)
    ensures
        ({
            let base = ReportView {
                local: Some(path.local),
                peer: Some(path.peer),
                path: Some(PathKind::DirectPunched),
                carrier: Some(carrier),
                ..report::done(StepKind::PathSwap)
            };
            &&& u.taken is Some <==> swapped
            &&& u.report.view() == if swapped {
                base
            } else {
                ReportView {
                    ending: EndingView::Failed(
                        fault::fault(Reason::SwapFailed, "tunnel already closed"@),
                    ),
                    ..base
                }
            }
            &&& u.taken matches Some(t) ==> {
                &&& t.event == (TunnelEvent::DirectUpgradeSucceeded {
                    local: path.local,
                    peer: path.peer,
                })
                &&& t.verified == path.peer
                &&& t.mtu is None <==> path.quic
                &&& t.mtu matches Some(m) ==> m.view() == (ReportView {
                    path: Some(PathKind::DirectPunched),
                    detail: Some("declared "@ + text::dec(path.fixed_mtu as nat)),
                    ..report::done(StepKind::Mtu)
                })
            }
        }),
{
    let swap = StepReport::new(StepKind::PathSwap).local(path.local).peer(path.peer).path(
        PathKind::DirectPunched,
    ).carrier(carrier);
    if !swapped {
        return Upgraded { report: swap.fail(Reason::SwapFailed, "tunnel already closed"), taken: None };
    }
    let mtu = if path.quic {
        None
    } else {
        Some(
            StepReport::new(StepKind::Mtu).path(PathKind::DirectPunched).detail(
                String::from_str("declared ").concat(
                    text::dec_text(path.fixed_mtu as u64).as_str(),
                ).as_str(),
            ),
        )
    };
    Upgraded {
        report: swap,
        taken: Some(
            Taken {
                event: TunnelEvent::DirectUpgradeSucceeded { local: path.local, peer: path.peer },
                verified: path.peer,
                mtu,
            },
        ),
    }
}

/// A client that is dormant from the start makes three attempts, and then waits
/// to be woken for as long as it is dormant.
pub proof fn dormant_client_gives_up(n: u32)
    requires
        n <= 3,
    ensures
        ({
            let seen = Seen { cancelled: false, replaced: false, knob: Some(0u64) };
            let s = UpgradeLoop { initiator: true, dormant_attempts: n, was_active: false };
            &&& begun(s, seen).1 == (if n < 3 {
                UpgradeAsk::Attempt
            } else {
                UpgradeAsk::Park
            })
            &&& begun(s, seen).0 == s
            &&& n < 3 ==> after_failure(s, Some(0u64)).dormant_attempts == n + 1
            &&& unparked(s, seen) == (s, UpgradeAsk::Park)
        }),
{
}

/// A client that is woken starts its attempts anew.
pub proof fn woken_client_tries_again(s: UpgradeLoop, knob: u64)
    requires
        knob > 0,
        s.initiator,
    ensures
        ({
            let seen = Seen { cancelled: false, replaced: false, knob: Some(knob) };
            &&& unparked(s, seen).1 == UpgradeAsk::Attempt
            &&& unparked(s, seen).0.dormant_attempts == 0
            &&& begun(s, seen).1 == UpgradeAsk::Attempt
            &&& !s.was_active ==> begun(s, seen).0.dormant_attempts == 0
        }),
{
}

/// Which side this is in an attempt, and what it is made with.
#[derive(Debug, PartialEq, Eq)]
pub struct DirectRole {
    /// Whether this side makes the first move.
    pub initiator: bool,
    /// Whether the session, and so the direct path, is a Noise session.
    pub noise: bool,
    /// The family that the session's path is in.
    pub path_ipv6: bool,
    /// The server that tells the own public address.
    pub stun_server: String,
    /// How long to wait for the peer's endpoint, in milliseconds.
    pub exchange_timeout: u64,
    /// How long a phase of the punch may take, in milliseconds.
    pub punch_phase: u64,
    /// The packet size of a Noise session.
    pub nz_mtu: u16,
}

/// What an attempt waits for.
#[derive(Debug, PartialEq, Eq)]
pub enum DirectState {
    /// The own public address; the side that moves second knows the peer's.
    Stun { heard: Option<SocketAddr> },
    /// That the own endpoint was sent.
    Send { external: SocketAddr, heard: Option<SocketAddr> },
    /// The peer's endpoint; the side that moves first knows the own one.
    Recv { ours: Option<SocketAddr> },
    /// The punch.
    Punch { external: SocketAddr, peer: SocketAddr },
    /// The local address of the punched socket.
    Local { learned: SocketAddr },
    /// The new session.
    Build { learned: SocketAddr, local: SocketAddr },
    /// Nothing any more.
    Over(Result<DirectPath, DirectError>),
}

/// What an attempt waits for.
pub enum DirectStateView {
    Stun { heard: Option<SocketAddr> },
    Send { external: SocketAddr, heard: Option<SocketAddr> },
    Recv { ours: Option<SocketAddr> },
    Punch { external: SocketAddr, peer: SocketAddr },
    Local { learned: SocketAddr },
    Build { learned: SocketAddr, local: SocketAddr },
    Done(DirectPath),
    Failed(DirectErrorView),
}

impl DirectState {
    pub open spec fn view(&self) -> DirectStateView {
        match self {
            DirectState::Stun { heard } => DirectStateView::Stun { heard: *heard },
            DirectState::Send { external, heard } => DirectStateView::Send {
                external: *external,
                heard: *heard,
            },
            DirectState::Recv { ours } => DirectStateView::Recv { ours: *ours },
            DirectState::Punch { external, peer } => DirectStateView::Punch {
                external: *external,
                peer: *peer,
            },
            DirectState::Local { learned } => DirectStateView::Local { learned: *learned },
            DirectState::Build { learned, local } => DirectStateView::Build {
                learned: *learned,
                local: *local,
            },
            DirectState::Over(Ok(p)) => DirectStateView::Done(*p),
            DirectState::Over(Err(e)) => DirectStateView::Failed(e.view()),
        }
    }
}

/// What an attempt meets with.
#[derive(Debug, PartialEq, Eq)]
pub enum DirectEvent {
    Stunned(Result<SocketAddr, Fault>),
    /// Whether the own endpoint was sent.
    Sent(bool),
    Received(Result<SocketAddr, TunnelError>),
    /// The peer's endpoint did not come in time.
    RecvTimedOut,
    /// The address that the peer answered from.
    Punched(Result<SocketAddr, Fault>),
    LocalAddr(Result<SocketAddr, IoFailure>),
    /// The new session could not be prepared.
    SetupFailed(Fault),
    /// The new endpoint closed before the peer came.
    AcceptClosed,
    /// The peer did not come in time.
    AcceptTimedOut,
    /// The address of the new session's peer.
    Built(Result<SocketAddr, Fault>),
}

/// Whether an attempt can meet with an event while it waits for something.
pub open spec fn fits(s: DirectStateView, e: DirectEvent) -> bool {
    match e {
        DirectEvent::Stunned(_) => s is Stun,
        DirectEvent::Sent(_) => s is Send,
        DirectEvent::Received(_) | DirectEvent::RecvTimedOut => s is Recv,
        DirectEvent::Punched(_) => s is Punch,
        DirectEvent::LocalAddr(_) => s is Local,
        DirectEvent::SetupFailed(_) | DirectEvent::AcceptClosed | DirectEvent::AcceptTimedOut
        | DirectEvent::Built(_) => s is Build,
    }
}

/// What comes of an event: what the attempt waits for next, what is recorded
/// and what is logged.
pub struct DirectStepView {
    pub state: DirectStateView,
    pub reports: Seq<ReportView>,
    pub logs: Seq<(AddrKind, SocketAddr)>,
}

/// What is said of endpoints of different families.
pub open spec fn mismatch(external: SocketAddr, peer: SocketAddr) -> FaultView {
    fault::fault(
        Reason::FamilyMismatch,
        "address family mismatch: ours "@ + external.text() + ", peer "@ + peer.text(),
    )
}

/// What comes of the exchange of endpoints once both are known.
pub open spec fn exchanged(external: SocketAddr, peer: SocketAddr) -> DirectStepView {
    let exchange = ReportView {
        local: Some(external),
        peer: Some(peer),
        ..report::done(StepKind::EndpointExchange)
    };
    if (peer.ip is V6) != (external.ip is V6) {
        DirectStepView {
            state: DirectStateView::Failed(DirectErrorView::Transient(mismatch(external, peer))),
            reports: seq![
                exchange,
                ReportView {
                    peer: Some(peer),
                    ending: EndingView::Failed(mismatch(external, peer)),
                    ..report::done(StepKind::Punch)
                },
            ],
            logs: seq![],
        }
    } else {
        DirectStepView {
            state: DirectStateView::Punch { external, peer },
            reports: seq![exchange],
            logs: seq![],
        }
    }
}

/// An attempt that ends and leaves a step behind.
pub open spec fn gave_up(f: FaultView, left: ReportView) -> DirectStepView {
    DirectStepView {
        state: DirectStateView::Failed(DirectErrorView::Transient(f)),
        reports: seq![left],
        logs: seq![],
    }
}

/// What is recorded of an exchange that is left: the side that moves first had
/// told its endpoint when it began.
pub open spec fn exchange_left(r: DirectRole, ours: Option<SocketAddr>) -> ReportView {
    ReportView {
        local: if r.initiator {
            ours
        } else {
            None
        },
        ending: EndingView::Abandoned,
        ..report::done(StepKind::EndpointExchange)
    }
}

/// What is recorded of a new session that is left.
pub open spec fn build_left(learned: SocketAddr, local: SocketAddr) -> ReportView {
    ReportView {
        peer: Some(learned),
        local: Some(local),
        path: Some(PathKind::DirectPunched),
        ending: EndingView::Abandoned,
        ..report::done(StepKind::DirectHandshake)
    }
}

/// What is recorded of a punch.
pub open spec fn punch_report(r: DirectRole, external: SocketAddr, peer: SocketAddr) -> ReportView {
    ReportView {
        local: if r.initiator {
            Some(external)
        } else {
            None
        },
        peer: Some(peer),
        ..report::done(StepKind::Punch)
    }
}

/// What is recorded of the new session.
pub open spec fn build_report(r: DirectRole, learned: SocketAddr, local: SocketAddr) -> ReportView {
    ReportView {
        peer: Some(learned),
        local: Some(local),
        path: Some(PathKind::DirectPunched),
        carrier: Some(
            if r.noise {
                Carrier::NoiseUdp
            } else {
                Carrier::Quic
            },
        ),
        ..report::done(StepKind::DirectHandshake)
    }
}

/// What comes of an event. The side that moves first finds its public address,
/// tells it and waits for the peer's; the other side waits for that, follows
/// its family, and tells its own. Both then punch, and build a new session on
/// the punched socket with the carrier of the old one.
pub open spec fn direct_step(r: DirectRole, s: DirectStateView, e: DirectEvent) -> DirectStepView {
    match (s, e) {
        (DirectStateView::Stun { heard }, DirectEvent::Stunned(Ok(a))) => DirectStepView {
            state: DirectStateView::Send { external: a, heard },
            reports: seq![
                ReportView {
                    via: Some(r.stun_server@),
                    local: Some(a),
                    ..report::done(StepKind::Stun)
                },
            ],
            logs: if r.initiator {
                seq![]
            } else {
                seq![(AddrKind::SharerPublic, a)]
            },
        },
        (DirectStateView::Stun { heard }, DirectEvent::Stunned(Err(f))) => DirectStepView {
            state: DirectStateView::Failed(DirectErrorView::Transient(f.view())),
            reports: seq![
                ReportView {
                    via: Some(r.stun_server@),
                    ending: EndingView::Failed(f.view()),
                    ..report::done(StepKind::Stun)
                },
            ] + (if r.initiator {
                seq![]
            } else {
                seq![exchange_left(r, None)]
            }),
            logs: seq![],
        },
        (DirectStateView::Send { external, heard }, DirectEvent::Sent(ok)) => if !ok {
            DirectStepView {
                state: DirectStateView::Failed(neg_error(TunnelError::NegChannelClosed)),
                reports: seq![exchange_left(r, Some(external))],
                logs: seq![],
            }
        } else {
            match heard {
                Some(p) => exchanged(external, p),
                None => DirectStepView {
                    state: DirectStateView::Recv { ours: Some(external) },
                    reports: seq![],
                    logs: seq![],
                },
            }
        },
        (DirectStateView::Recv { ours }, DirectEvent::Received(Ok(p))) => match ours {
            Some(a) => exchanged(a, p),
            None => DirectStepView {
                state: DirectStateView::Stun { heard: Some(p) },
                reports: seq![],
                logs: seq![(AddrKind::Reported, p)],
            },
        },
        (DirectStateView::Recv { ours }, DirectEvent::Received(Err(t))) => DirectStepView {
            state: DirectStateView::Failed(neg_error(t)),
            reports: seq![exchange_left(r, ours)],
            logs: seq![],
        },
        (DirectStateView::Recv { ours }, DirectEvent::RecvTimedOut) => gave_up(
            fault::fault(
                Reason::ExchangeTimeout,
                "no endpoint from the peer within "@ + text::duration(r.exchange_timeout as nat),
            ),
            exchange_left(r, ours),
        ),
        (DirectStateView::Punch { external, peer }, DirectEvent::Punched(Ok(l))) => DirectStepView {
            state: DirectStateView::Local { learned: l },
            reports: seq![punch_report(r, external, l)],
            logs: if r.initiator {
                seq![]
            } else {
                seq![(AddrKind::PunchVerified, l)]
            },
        },
        (DirectStateView::Punch { external, peer }, DirectEvent::Punched(Err(f))) => DirectStepView {
            state: DirectStateView::Failed(DirectErrorView::Transient(f.view())),
            reports: seq![
                ReportView {
                    ending: EndingView::Failed(f.view()),
                    ..punch_report(r, external, peer)
                },
            ],
            logs: seq![],
        },
        (DirectStateView::Local { learned }, DirectEvent::LocalAddr(Ok(a))) => DirectStepView {
            state: DirectStateView::Build { learned, local: a },
            reports: seq![],
            logs: seq![],
        },
        (DirectStateView::Local { learned }, DirectEvent::LocalAddr(Err(x))) => DirectStepView {
            state: DirectStateView::Failed(
                DirectErrorView::Transient(
                    fault::fault(fault::io_reason(x.kind, x.os), "local_addr: "@ + x.text@),
                ),
            ),
            reports: seq![],
            logs: seq![],
        },
        (DirectStateView::Build { learned, local }, DirectEvent::SetupFailed(f)) => gave_up(
            f.view(),
            build_left(learned, local),
        ),
        (DirectStateView::Build { learned, local }, DirectEvent::AcceptClosed) => gave_up(
            fault::fault(Reason::TransportClosed, "direct endpoint closed before accept"@),
            build_left(learned, local),
        ),
        (DirectStateView::Build { learned, local }, DirectEvent::AcceptTimedOut) => gave_up(
            fault::fault(
                Reason::VerifyTimeout,
                "direct accept timed out after "@ + text::duration(
                    punch::doubled(r.punch_phase) as nat,
                ) + " (initiator never dialed)"@,
            ),
            build_left(learned, local),
        ),
        (DirectStateView::Build { learned, local }, DirectEvent::Built(Ok(p))) => DirectStepView {
            state: DirectStateView::Done(
                DirectPath {
                    peer: if r.noise && r.initiator {
                        learned
                    } else {
                        p
                    },
                    local,
                    quic: !r.noise,
                    fixed_mtu: if r.noise {
                        r.nz_mtu
                    } else {
                        0
                    },
                },
            ),
            reports: seq![build_report(r, learned, local)],
            logs: seq![],
        },
        (DirectStateView::Build { learned, local }, DirectEvent::Built(Err(f))) => DirectStepView {
            state: DirectStateView::Failed(DirectErrorView::Transient(f.view())),
            reports: seq![
                ReportView {
                    ending: EndingView::Failed(f.view()),
                    ..build_report(r, learned, local)
                },
            ],
            logs: seq![],
        },
        _ => DirectStepView { state: s, reports: seq![], logs: seq![] },
    }
}

/// The step that begins as an attempt comes to wait for something: the exchange
/// begins where a side first tells or waits for an endpoint.
pub open spec fn step_begun(r: DirectRole, s: DirectStateView) -> Option<StepKind> {
    match s {
        DirectStateView::Stun { .. } => Some(StepKind::Stun),
        DirectStateView::Send { .. } => if r.initiator {
            Some(StepKind::EndpointExchange)
        } else {
            None
        },
        DirectStateView::Recv { .. } => if r.initiator {
            None
        } else {
            Some(StepKind::EndpointExchange)
        },
        DirectStateView::Punch { .. } => Some(StepKind::Punch),
        DirectStateView::Build { .. } => Some(StepKind::DirectHandshake),
        _ => None,
    }
}

/// What comes of an event.
#[derive(Debug, PartialEq, Eq)]
pub struct DirectStep {
    /// What is recorded, in order.
    pub reports: Vec<StepReport>,
    /// The addresses that are logged, in order.
    pub logs: Vec<(AddrKind, SocketAddr)>,
}

/// One attempt at a direct path.
#[derive(Debug, PartialEq, Eq)]
pub struct DirectAttempt {
    pub role: DirectRole,
    pub state: DirectState,
}

fn no_step() -> (d: DirectStep)
    ensures
        d.reports@.len() == 0,
        d.logs@.len() == 0,
{
    DirectStep { reports: Vec::new(), logs: Vec::new() }
}

fn one_report(s: StepReport) -> (d: DirectStep)
    ensures
        report::reports(d.reports@) == seq![s.view()],
        d.logs@ == Seq::<(AddrKind, SocketAddr)>::empty(),
{
    let reports = vec![s];
    assert(report::reports(reports@) =~= seq![s.view()]);
    DirectStep { reports, logs: Vec::new() }
}

fn family_mismatch(external: &SocketAddr, peer: &SocketAddr) -> (f: Fault)
    ensures
        f.view() == mismatch(*external, *peer),
{
    let mut d = String::from_str("address family mismatch: ours ");
    d.append(external.to_text().as_str());
    d.append(", peer ");
    d.append(peer.to_text().as_str());
    Fault::new(Reason::FamilyMismatch, d.as_str())
}

fn both_known(external: SocketAddr, peer: SocketAddr) -> (r: (DirectState, DirectStep))
    ensures
        r.0.view() == exchanged(external, peer).state,
        report::reports(r.1.reports@) == exchanged(external, peer).reports,
        r.1.logs@ == exchanged(external, peer).logs,
{
    let exchange = StepReport::new(StepKind::EndpointExchange).local(external).peer(peer);
    if peer.is_ipv6() != external.is_ipv6() {
        let f = family_mismatch(&external, &peer);
        let punch = StepReport::new(StepKind::Punch).peer(peer).failed(&f);
        let reports = vec![exchange, punch];
        assert(report::reports(reports@) =~= exchanged(external, peer).reports);
        return (
            DirectState::Over(Err(DirectError::Transient(f))),
            DirectStep { reports, logs: Vec::new() },
        );
    }
    (DirectState::Punch { external, peer }, one_report(exchange))
}

fn leaves_build(learned: SocketAddr, local: SocketAddr) -> (s: StepReport)
    ensures
        s.view() == build_left(learned, local),
{
    StepReport::new(StepKind::DirectHandshake).peer(learned).local(local).path(
        PathKind::DirectPunched,
    ).abandoned()
}

impl DirectRole {
    fn leaves_exchange(&self, ours: Option<SocketAddr>) -> (s: StepReport)
        ensures
            s.view() == exchange_left(*self, ours),
    {
        let s = StepReport::new(StepKind::EndpointExchange).abandoned();
        if !self.initiator {
            return s;
        }
        match ours {
            Some(a) => s.local(a),
            None => s,
        }
    }

    fn punching(&self, external: SocketAddr, peer: SocketAddr) -> (s: StepReport)
        ensures
            s.view() == punch_report(*self, external, peer),
    {
        let s = StepReport::new(StepKind::Punch).peer(peer);
        if self.initiator {
            s.local(external)
        } else {
            s
        }
    }

    fn building(&self, learned: SocketAddr, local: SocketAddr) -> (s: StepReport)
        ensures
            s.view() == build_report(*self, learned, local),
    {
        let carrier = if self.noise {
            Carrier::NoiseUdp
        } else {
            Carrier::Quic
        };
        StepReport::new(StepKind::DirectHandshake).peer(learned).local(local).path(
            PathKind::DirectPunched,
        ).carrier(carrier)
    }

    /// The family that the own public address is looked for in first: that of
    /// the session's path, or that of the peer's endpoint where it is known.
    pub fn prefers_v6(&self, peer: Option<SocketAddr>) -> (r: bool)
        ensures
            r == (match peer {
                Some(p) => p.ip is V6,
                None => self.path_ipv6,
            }),
    {
        match peer {
            Some(p) => p.is_ipv6(),
            None => self.path_ipv6,
        }
    }
}

impl DirectAttempt {
    /// Starts an attempt: the side that moves first looks for its public
    /// address, the other one waits for the peer's endpoint.
    pub fn start(role: DirectRole) -> (a: DirectAttempt)
        ensures
            a.role == role,
            a.state.view() == (if role.initiator {
                DirectStateView::Stun { heard: None }
            } else {
                DirectStateView::Recv { ours: None }
            }),
    {
        let state = if role.initiator {
            DirectState::Stun { heard: None }
        } else {
            DirectState::Recv { ours: None }
        };
        DirectAttempt { role, state }
    }

    /// The step that begins as the attempt comes to wait for what it waits for.
    pub fn begins(&self) -> (k: Option<StepKind>)
        ensures
            k == step_begun(self.role, self.state.view()),
    {
        match &self.state {
            DirectState::Stun { .. } => Some(StepKind::Stun),
            DirectState::Send { .. } => if self.role.initiator {
                Some(StepKind::EndpointExchange)
            } else {
                None
            },
            DirectState::Recv { .. } => if self.role.initiator {
                None
            } else {
                Some(StepKind::EndpointExchange)
            },
            DirectState::Punch { .. } => Some(StepKind::Punch),
            DirectState::Build { .. } => Some(StepKind::DirectHandshake),
            DirectState::Local { .. } | DirectState::Over(_) => None,
        }
    }

    /// Goes on with what the attempt has met with.
    pub fn on(&mut self, e: DirectEvent) -> (d: DirectStep)
        requires
            fits(old(self).state.view(), e),
        ensures
            final(self).role == old(self).role,
            ({
                let v = direct_step(old(self).role, old(self).state.view(), e);
                &&& final(self).state.view() == v.state
                &&& report::reports(d.reports@) == v.reports
                &&& d.logs@ == v.logs
            }),
    {
        let mut next = no_step();
        assert(report::reports(next.reports@) =~= seq![]);
        assert(next.logs@ =~= seq![]);
        match (&self.state, e) {
            (DirectState::Stun { heard }, DirectEvent::Stunned(found)) => {
                let stun = StepReport::new(StepKind::Stun).via(self.role.stun_server.as_str());
                match found {
                    Ok(a) => {
                        next = one_report(stun.local(a));
                        if !self.role.initiator {
                            next.logs.push((AddrKind::SharerPublic, a));
                            assert(next.logs@ =~= seq![(AddrKind::SharerPublic, a)]);
                        }
                        self.state = DirectState::Send { external: a, heard: *heard };
                    },
                    Err(f) => {
                        next = one_report(stun.failed(&f));
                        if !self.role.initiator {
                            next.reports.push(self.role.leaves_exchange(None));
                        }
                        assert(report::reports(next.reports@) =~= direct_step(
                            old(self).role,
                            old(self).state.view(),
                            DirectEvent::Stunned(Err(f)),
                        ).reports);
                        self.state = DirectState::Over(Err(DirectError::Transient(f)));
                    },
                }
            },
            (DirectState::Send { external, heard }, DirectEvent::Sent(ok)) => {
                if !ok {
                    next = one_report(self.role.leaves_exchange(Some(*external)));
                    self.state = DirectState::Over(Err(neg_err(TunnelError::NegChannelClosed)));
                } else {
                    match heard {
                        Some(p) => {
                            let (state, step) = both_known(*external, *p);
                            self.state = state;
                            next = step;
                        },
                        None => {
                            self.state = DirectState::Recv { ours: Some(*external) };
                        },
                    }
                }
            },
            (DirectState::Recv { ours }, DirectEvent::Received(got)) => match got {
                Ok(p) => match ours {
                    Some(a) => {
                        let (state, step) = both_known(*a, p);
                        self.state = state;
                        next = step;
                    },
                    None => {
                        next.logs.push((AddrKind::Reported, p));
                        assert(next.logs@ =~= seq![(AddrKind::Reported, p)]);
                        self.state = DirectState::Stun { heard: Some(p) };
                    },
                },
                Err(t) => {
                    next = one_report(self.role.leaves_exchange(*ours));
                    self.state = DirectState::Over(Err(neg_err(t)));
                },
            },
            (DirectState::Recv { ours }, DirectEvent::RecvTimedOut) => {
                next = one_report(self.role.leaves_exchange(*ours));
                let d = String::from_str("no endpoint from the peer within ").concat(
                    text::duration_text(self.role.exchange_timeout).as_str(),
                );
                self.state =
                DirectState::Over(
                    Err(DirectError::Transient(Fault::new(Reason::ExchangeTimeout, d.as_str()))),
                );
            },
            (DirectState::Punch { external, peer }, DirectEvent::Punched(end)) => match end {
                Ok(l) => {
                    next = one_report(self.role.punching(*external, l));
                    if !self.role.initiator {
                        next.logs.push((AddrKind::PunchVerified, l));
                        assert(next.logs@ =~= seq![(AddrKind::PunchVerified, l)]);
                    }
                    self.state = DirectState::Local { learned: l };
                },
                Err(f) => {
                    next = one_report(self.role.punching(*external, *peer).failed(&f));
                    self.state = DirectState::Over(Err(DirectError::Transient(f)));
                },
            },
            (DirectState::Local { learned }, DirectEvent::LocalAddr(found)) => match found {
                Ok(a) => {
                    self.state = DirectState::Build { learned: *learned, local: a };
                },
                Err(x) => {
                    let f = Fault::from_io(&x).context("local_addr");
                    assert(f.detail@ =~= "local_addr: "@ + x.text@) by {
                        reveal_strlit("local_addr");
                        reveal_strlit(": ");
                        reveal_strlit("local_addr: ");
                        assert("local_addr"@ + ": "@ =~= "local_addr: "@);
                    }
                    self.state = DirectState::Over(Err(DirectError::Transient(f)));
                },
            },
            (DirectState::Build { learned, local }, DirectEvent::SetupFailed(f)) => {
                next = one_report(leaves_build(*learned, *local));
                self.state = DirectState::Over(Err(DirectError::Transient(f)));
            },
            (DirectState::Build { learned, local }, DirectEvent::AcceptClosed) => {
                next = one_report(leaves_build(*learned, *local));
                self.state =
                DirectState::Over(
                    Err(
                        DirectError::Transient(
                            Fault::new(
                                Reason::TransportClosed,
                                "direct endpoint closed before accept",
                            ),
                        ),
                    ),
                );
            },
            (DirectState::Build { learned, local }, DirectEvent::AcceptTimedOut) => {
                next = one_report(leaves_build(*learned, *local));
                let d = String::from_str("direct accept timed out after ").concat(
                    text::duration_text(punch_budget(self.role.punch_phase)).as_str(),
                ).concat(" (initiator never dialed)");
                self.state =
                DirectState::Over(
                    Err(DirectError::Transient(Fault::new(Reason::VerifyTimeout, d.as_str()))),
                );
            },
            (DirectState::Build { learned, local }, DirectEvent::Built(end)) => match end {
                Ok(p) => {
                    next = one_report(self.role.building(*learned, *local));
                    let peer = if self.role.noise && self.role.initiator {
                        *learned
                    } else {
                        p
                    };
                    let fixed_mtu: u16 = if self.role.noise {
                        self.role.nz_mtu
                    } else {
                        0
                    };
                    self.state =
                    DirectState::Over(
                        Ok(DirectPath { peer, local: *local, quic: !self.role.noise, fixed_mtu }),
                    );
                },
                Err(f) => {
                    next = one_report(self.role.building(*learned, *local).failed(&f));
                    self.state = DirectState::Over(Err(DirectError::Transient(f)));
                },
            },
            _ => {},
        }
        next
    }
}

/// An attempt that meets with a closed channel fails for good, and nothing else
/// that it can meet with does that.
pub proof fn only_a_closed_channel_is_final(r: DirectRole, s: DirectStateView, e: DirectEvent)
    requires
        !(s is Failed),
        fits(s, e),
    ensures
        direct_step(r, s, e).state matches DirectStateView::Failed(DirectErrorView::SignalClosed(_))
            <==> e == DirectEvent::Received(Err(TunnelError::NegChannelClosed)) || e
            == DirectEvent::Sent(false),
{
}

/// The peers punch only where both endpoints are of the same family, and an
/// attempt fails at once where they are not.
pub proof fn families_match_before_punching(
    r: DirectRole,
    s: DirectStateView,
    e: DirectEvent,
    external: SocketAddr,
    peer: SocketAddr,
)
    requires
        !(s is Punch),
        direct_step(r, s, e).state == (DirectStateView::Punch { external, peer }),
    ensures
        (external.ip is V6) == (peer.ip is V6),
{
}

/// The state of an attempt after events.
pub open spec fn direct_run(r: DirectRole, events: Seq<DirectEvent>) -> DirectStateView
    decreases events.len(),
{
    if events.len() == 0 {
        if r.initiator {
            DirectStateView::Stun { heard: None }
        } else {
            DirectStateView::Recv { ours: None }
        }
    } else {
        direct_step(r, direct_run(r, events.drop_last()), events.last()).state
    }
}

/// Whether the peer answered from an address.
pub open spec fn answered_from(events: Seq<DirectEvent>, a: SocketAddr) -> bool {
    exists|i: int| 0 <= i < events.len() && #[trigger] events[i] == DirectEvent::Punched(Ok(a))
}

/// A session is built only with a peer that answered from the address that it
/// is built to, and with the carrier of the session that it replaces.
pub proof fn direct_session_follows_a_punch(r: DirectRole, events: Seq<DirectEvent>)
    ensures
        match direct_run(r, events) {
            DirectStateView::Local { learned } => answered_from(events, learned),
            DirectStateView::Build { learned, .. } => answered_from(events, learned),
            DirectStateView::Done(p) => p.quic == !r.noise && exists|a: SocketAddr|
                answered_from(events, a) && (r.noise && r.initiator ==> p.peer == a),
            _ => true,
        },
    decreases events.len(),
{
    if events.len() > 0 {
        let init = events.drop_last();
        direct_session_follows_a_punch(r, init);
        assert forall|a: SocketAddr| answered_from(init, a) implies answered_from(events, a) by {
            let i = choose|i: int|
                0 <= i < init.len() && #[trigger] init[i] == DirectEvent::Punched(Ok(a));
            assert(events[i] == init[i]);
        }
        match direct_run(r, events) {
            DirectStateView::Local { learned } => {
                assert(events[events.len() - 1] == events.last());
                assert(answered_from(events, learned));
            },
            DirectStateView::Done(p) => {
                match direct_run(r, init) {
                    DirectStateView::Build { learned, .. } => {
                        assert(answered_from(events, learned));
                    },
                    _ => {
                        assert(direct_run(r, init) == direct_run(r, events));
                    },
                }
            },
            _ => {},
        }
    }
}

/// An address that the peer has only told is never logged as one that it was
/// seen at, and only the side that is reached logs addresses.
pub proof fn told_is_not_seen(r: DirectRole, s: DirectStateView, e: DirectEvent, i: int)
    requires
        0 <= i < direct_step(r, s, e).logs.len(),
        r.initiator ==> !(s matches DirectStateView::Recv { ours: None }),
    ensures
        ({
            let (kind, a) = direct_step(r, s, e).logs[i];
            &&& !r.initiator
            &&& kind == AddrKind::Reported <==> e is Received
            &&& kind == AddrKind::PunchVerified <==> e is Punched
            &&& kind == AddrKind::SharerPublic <==> e is Stunned
        }),
{
}

/// Attempts go on until the session is over: an upgrade stops exactly where it
/// is cancelled or the session was replaced. Only the initiator ever parks, and
/// only while it is told that it is dormant and three attempts in a row have
/// failed meanwhile.
pub proof fn upgrade_goes_on_until_the_session_ends(s: UpgradeLoop, seen: Seen)
    ensures
        begun(s, seen).1 == UpgradeAsk::Stop <==> seen.cancelled || seen.replaced,
        unparked(s, seen).1 == UpgradeAsk::Stop <==> seen.cancelled || seen.replaced,
        begun(s, seen).1 == UpgradeAsk::Park <==> !seen.cancelled && !seen.replaced && s.initiator
            && seen.knob == Some(0u64) && s.dormant_attempts >= 3,
        unparked(s, seen).1 == UpgradeAsk::Attempt <==> !seen.cancelled && !seen.replaced
            && seen.knob is Some && seen.knob->0 != 0,
        begun(s, seen).0.initiator == s.initiator && unparked(s, seen).0.initiator == s.initiator,
{
}

/// A failed attempt counts towards parking only for an initiator that is told
/// that it is dormant.
pub proof fn only_dormant_failures_count(s: UpgradeLoop, knob: Option<u64>)
    requires
        s.dormant_attempts < u32::MAX,
    ensures
        after_failure(s, knob).dormant_attempts == s.dormant_attempts + if s.initiator && knob == Some(
            0u64,
        ) {
            1int
        } else {
            0int
        },
        after_failure(s, knob).initiator == s.initiator,
        after_failure(s, knob).was_active == s.was_active,
{
}

/// The events of an attempt in which nothing fails: `ours` is the own public
/// address, `told` the endpoint that the peer tells, `seen` the address that it
/// answers from, `local` the own local address and `built` the peer of the
/// session that is built.
pub open spec fn smooth_events(
    initiator: bool,
    ours: SocketAddr,
    told: SocketAddr,
    seen: SocketAddr,
    local: SocketAddr,
    built: SocketAddr,
) -> Seq<DirectEvent> {
    let exchange = if initiator {
        seq![
            DirectEvent::Stunned(Ok(ours)),
            DirectEvent::Sent(true),
            DirectEvent::Received(Ok(told)),
        ]
    } else {
        seq![
            DirectEvent::Received(Ok(told)),
            DirectEvent::Stunned(Ok(ours)),
            DirectEvent::Sent(true),
        ]
    };
    exchange + seq![
        DirectEvent::Punched(Ok(seen)),
        DirectEvent::LocalAddr(Ok(local)),
        DirectEvent::Built(Ok(built)),
    ]
}

/// Where nothing fails and the two endpoints are of one family, an attempt ends
/// in a direct path, on either side: from the local address to the peer, with
/// the carrier of the session and, over Noise, its packet size. Where they are
/// not of one family, it fails for that reason before anything is punched.
pub proof fn agreeing_peers_reach_a_direct_path(
    r: DirectRole,
    ours: SocketAddr,
    told: SocketAddr,
    seen: SocketAddr,
    local: SocketAddr,
    built: SocketAddr,
)
    ensures
        ({
            let es = smooth_events(r.initiator, ours, told, seen, local, built);
            let same = (ours.ip is V6) == (told.ip is V6);
            &&& same ==> direct_run(r, es.take(3)) == (DirectStateView::Punch {
                external: ours,
                peer: told,
            })
            &&& same ==> direct_run(r, es) == DirectStateView::Done(
                DirectPath {
                    peer: if r.noise && r.initiator {
                        seen
                    } else {
                        built
                    },
                    local,
                    quic: !r.noise,
                    fixed_mtu: if r.noise {
                        r.nz_mtu
                    } else {
                        0
                    },
                },
            )
            &&& !same ==> (direct_run(r, es.take(3)) matches DirectStateView::Failed(
                DirectErrorView::Transient(f),
            ) && f.reason == Reason::FamilyMismatch)
        }),
{
    let es = smooth_events(r.initiator, ours, told, seen, local, built);
    lemma_endpoints_exchanged(r, es, ours, told);
    lemma_next_run(r, es, 3);
    lemma_next_run(r, es, 4);
    lemma_next_run(r, es, 5);
    assert(es.take(6) =~= es);
    assert(es[3] == DirectEvent::Punched(Ok(seen)));
    assert(es[4] == DirectEvent::LocalAddr(Ok(local)));
    assert(es[5] == DirectEvent::Built(Ok(built)));
    if (ours.ip is V6) == (told.ip is V6) {
        assert(direct_run(r, es.take(4)) == (DirectStateView::Local { learned: seen }));
        assert(direct_run(r, es.take(5)) == (DirectStateView::Build { learned: seen, local }));
    }
}

proof fn lemma_endpoints_exchanged(
    r: DirectRole,
    es: Seq<DirectEvent>,
    ours: SocketAddr,
    told: SocketAddr,
)
    requires
        es.len() >= 3,
        r.initiator ==> es[0] == DirectEvent::Stunned(Ok(ours)) && es[1] == DirectEvent::Sent(true)
            && es[2] == DirectEvent::Received(Ok(told)),
        !r.initiator ==> es[0] == DirectEvent::Received(Ok(told)) && es[1] == DirectEvent::Stunned(
            Ok(ours),
        ) && es[2] == DirectEvent::Sent(true),
    ensures
        direct_run(r, es.take(3)) == exchanged(ours, told).state,
{
    assert(es.take(0) =~= Seq::<DirectEvent>::empty());
    lemma_next_run(r, es, 0);
    lemma_next_run(r, es, 1);
    lemma_next_run(r, es, 2);
    if r.initiator {
        assert(direct_run(r, es.take(1)) == (DirectStateView::Send { external: ours, heard: None }));
        assert(direct_run(r, es.take(2)) == (DirectStateView::Recv { ours: Some(ours) }));
    } else {
        assert(direct_run(r, es.take(1)) == (DirectStateView::Stun { heard: Some(told) }));
        assert(direct_run(r, es.take(2)) == (DirectStateView::Send {
            external: ours,
            heard: Some(told),
        }));
    }
}

proof fn lemma_next_run(r: DirectRole, es: Seq<DirectEvent>, k: int)
    requires
        0 <= k < es.len(),
    ensures
        direct_run(r, es.take(k + 1)) == direct_step(r, direct_run(r, es.take(k)), es[k]).state,
{
    assert(es.take(k + 1).drop_last() =~= es.take(k));
}

/// A step that fails ends the attempt, with the failure as it was met; what
/// comes late ends it with a reason of its own; and nothing comes to an attempt
/// that is over.
pub proof fn failures_end_an_attempt(r: DirectRole, s: DirectStateView, e: DirectEvent)
    requires
        fits(s, e),
    ensures
        ({
            let next = direct_step(r, s, e).state;
            &&& e matches DirectEvent::Stunned(Err(f)) ==> next == DirectStateView::Failed(
                DirectErrorView::Transient(f.view()),
            )
            &&& e matches DirectEvent::Punched(Err(f)) ==> next == DirectStateView::Failed(
                DirectErrorView::Transient(f.view()),
            )
            &&& e matches DirectEvent::SetupFailed(f) ==> next == DirectStateView::Failed(
                DirectErrorView::Transient(f.view()),
            )
            &&& e matches DirectEvent::Built(Err(f)) ==> next == DirectStateView::Failed(
                DirectErrorView::Transient(f.view()),
            )
            &&& e is RecvTimedOut ==> (next matches DirectStateView::Failed(
                DirectErrorView::Transient(f),
            ) && f.reason == Reason::ExchangeTimeout)
            &&& e is AcceptTimedOut ==> (next matches DirectStateView::Failed(
                DirectErrorView::Transient(f),
            ) && f.reason == Reason::VerifyTimeout)
            &&& e is AcceptClosed ==> (next matches DirectStateView::Failed(
                DirectErrorView::Transient(f),
            ) && f.reason == Reason::TransportClosed)
            &&& e matches DirectEvent::LocalAddr(Err(x)) ==> next is Failed
            &&& e matches DirectEvent::Received(Err(t)) ==> next is Failed
        }),
        !(s is Failed) && !(s is Done),
{
}

/// The kind of the step that an event concludes, where it concludes one.
pub open spec fn concluded_by(s: DirectStateView, e: DirectEvent) -> Option<StepKind> {
    match e {
        DirectEvent::Stunned(_) => Some(StepKind::Stun),
        DirectEvent::Sent(ok) => if !ok || s matches DirectStateView::Send { heard: Some(_), .. } {
            Some(StepKind::EndpointExchange)
        } else {
            None
        },
        DirectEvent::Received(Ok(_)) => if s matches DirectStateView::Recv { ours: Some(_) } {
            Some(StepKind::EndpointExchange)
        } else {
            None
        },
        DirectEvent::Received(Err(_)) => Some(StepKind::EndpointExchange),
        DirectEvent::RecvTimedOut => Some(StepKind::EndpointExchange),
        DirectEvent::Punched(_) => Some(StepKind::Punch),
        DirectEvent::LocalAddr(_) => None,
        _ => Some(StepKind::DirectHandshake),
    }
}

/// Each event reports the step that it concludes, and none where it concludes
/// none. The report says that the step was done exactly where it was.
pub proof fn events_report_their_steps(r: DirectRole, s: DirectStateView, e: DirectEvent)
    requires
        fits(s, e),
    ensures
        ({
            let reports = direct_step(r, s, e).reports;
            &&& reports.len() == 0 <==> concluded_by(s, e) is None
            &&& concluded_by(s, e) matches Some(kind) ==> reports[0].kind == kind
            &&& concluded_by(s, e) is Some ==> (reports[0].ending is Done <==> {
                ||| e matches DirectEvent::Stunned(Ok(_))
                ||| e == DirectEvent::Sent(true)
                ||| e matches DirectEvent::Received(Ok(_))
                ||| e matches DirectEvent::Punched(Ok(_))
                ||| e matches DirectEvent::Built(Ok(_))
            })
        }),
{
}

/// The side that is reached logs the address that an event brings it: what the
/// peer tells, what it learns of itself, and where the peer answers from.
pub proof fn addresses_are_logged(r: DirectRole, s: DirectStateView, e: DirectEvent)
    requires
        fits(s, e),
        !r.initiator,
    ensures
        ({
            let logs = direct_step(r, s, e).logs;
            &&& e matches DirectEvent::Stunned(Ok(a)) ==> logs == seq![(AddrKind::SharerPublic, a)]
            &&& e matches DirectEvent::Punched(Ok(a)) ==> logs == seq![(AddrKind::PunchVerified, a)]
            &&& s == (DirectStateView::Recv { ours: None }) ==> (e matches DirectEvent::Received(
                Ok(a),
            ) ==> logs == seq![(AddrKind::Reported, a)])
        }),
{
}

/// A step that has begun is the one that the next event concludes, where it
/// concludes any; and whatever an attempt waits for belongs to a step that has
/// begun: to its own, or to the exchange, which the side that moves first begins
/// by telling its endpoint and the other side by waiting for one.
pub proof fn begun_steps_are_concluded(r: DirectRole, s: DirectStateView, e: DirectEvent)
    requires
        fits(s, e),
    ensures
        step_begun(r, s) matches Some(begun) ==> (concluded_by(s, e) matches Some(kind) ==> kind
            == begun),
        s is Stun || s is Punch || s is Build ==> step_begun(r, s) is Some,
        s is Send ==> (step_begun(r, s) is Some <==> r.initiator),
        s is Recv ==> (step_begun(r, s) is Some <==> !r.initiator),
        s is Local ==> step_begun(r, s) is None,
        s is Send || s is Recv ==> (step_begun(r, s) matches Some(begun) ==> begun
            == StepKind::EndpointExchange),
{
}

} // verus!
