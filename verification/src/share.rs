//! The sharer's side: what it binds and announces, which session it serves,
//! and what each session is set up with.

use vstd::prelude::*;
use vstd::string::*;
use crate::addr;
use crate::addr::SocketAddr;
use crate::carrier::PeerSession;
use crate::config::{Config, ExitMode, Timings, TunnelEvent};
use crate::fault;
use crate::fault::{Fault, IoFailure};
use crate::identity::{RelayEndpoint, RelayProtocol};
use crate::report;
use crate::report::{EndingView, ReportView, StepReport};
use crate::resolve;
use crate::resolve::{resolve_relays, Lookup};
use crate::text;
use crate::vocab::{Carrier, Outcome, PathKind, Reason, StepKind};

verus! {

/// How many connections are kept parked at each address of a TCP relay.
pub const POOL_SIZE: usize = 4;

/// How long to wait before parking again after the relay has closed a parked
/// connection, in milliseconds.
pub const REPARK_DELAY: u64 = 500;

/// How long to wait before parking again after a failure, in milliseconds.
pub const PARK_RETRY_DELAY: u64 = 1_000;

/// How long to wait before binding a listener again, in milliseconds.
pub const REBIND_DELAY: u64 = 2_000;

/// When the packet size of a QUIC connection is read, in milliseconds.
pub const MTU_PROBE_DELAY: u64 = 1_500;

/// The endpoints of one protocol among the first `n`, in order.
pub open spec fn of_protocol(relays: Seq<RelayEndpoint>, p: RelayProtocol, n: int) -> Seq<
    RelayEndpoint,
>
    decreases n,
{
    if n <= 0 {
        Seq::empty()
    } else {
        let before = of_protocol(relays, p, n - 1);
        if relays[n - 1].protocol == p {
            before.push(relays[n - 1])
        } else {
            before
        }
    }
}

/// The endpoints of one protocol, in order: those over UDP are registered with
/// in one way, those over TCP parked at, and those for Noise registered with
/// from a socket of their own.
pub fn relays_of(relays: &Vec<RelayEndpoint>, p: RelayProtocol) -> (v: Vec<RelayEndpoint>)
    ensures
        v@ == of_protocol(relays@, p, relays@.len() as int),
{
    let mut v: Vec<RelayEndpoint> = Vec::new();
    let mut i: usize = 0;
    while i < relays.len()
        invariant
            i <= relays@.len(),
            v@ == of_protocol(relays@, p, i as int),
        decreases relays.len() - i,
    {
        if relays[i].protocol == p {
            v.push(relays[i].clone());
        }
        i = i + 1;
    }
    v
}

/// A sorted list of ports with one more.
pub open spec fn with_port(v: Seq<u16>, p: u16) -> Seq<u16>
    decreases v.len(),
{
    if v.len() == 0 || v.last() < p {
        v.push(p)
    } else if v.last() == p {
        v
    } else {
        with_port(v.drop_last(), p).push(v.last())
    }
}

/// The ports of the direct endpoints among the first `n`, sorted, each once.
pub open spec fn direct_ports(relays: Seq<RelayEndpoint>, n: int) -> Seq<u16>
    decreases n,
{
    if n <= 0 {
        Seq::empty()
    } else {
        let before = direct_ports(relays, n - 1);
        if relays[n - 1].protocol == RelayProtocol::Direct {
            with_port(before, relays[n - 1].port)
        } else {
            before
        }
    }
}

fn add_port(v: &mut Vec<u16>, p: u16)
    ensures
        final(v)@ == with_port(old(v)@, p),
    decreases old(v)@.len(),
{
    let n: usize = v.len();
    if n == 0 || v[n - 1] < p {
        v.push(p);
        return;
    }
    let last: u16 = v[n - 1];
    if last == p {
        return;
    }
    let ghost before = v@;
    v.pop();
    assert(v@ =~= before.drop_last());
    add_port(v, p);
    v.push(last);
}

fn ports_of(relays: &Vec<RelayEndpoint>) -> (v: Vec<u16>)
    ensures
        v@ == direct_ports(relays@, relays@.len() as int),
{
    let mut v: Vec<u16> = Vec::new();
    let mut i: usize = 0;
    while i < relays.len()
        invariant
            i <= relays@.len(),
            v@ == direct_ports(relays@, i as int),
        decreases relays.len() - i,
    {
        if relays[i].protocol == RelayProtocol::Direct {
            add_port(&mut v, relays[i].port);
        }
        i = i + 1;
    }
    v
}

/// Ports with commas between them.
pub open spec fn port_list(v: Seq<u16>) -> Seq<char>
    decreases v.len(),
{
    if v.len() == 0 {
        Seq::empty()
    } else if v.len() == 1 {
        text::dec(v[0] as nat)
    } else {
        port_list(v.drop_last()) + ", "@ + text::dec(v.last() as nat)
    }
}

fn port_list_text(v: &Vec<u16>) -> (s: String)
    ensures
        s@ == port_list(v@),
{
    let mut s = String::new();
    let mut i: usize = 0;
    assert(s@ =~= port_list(v@.take(0)));
    while i < v.len()
        invariant
            i <= v@.len(),
            s@ == port_list(v@.take(i as int)),
        decreases v.len() - i,
    {
        assert(v@.take(i + 1).drop_last() =~= v@.take(i as int));
        if i > 0 {
            s.append(", ");
        }
        s.append(text::dec_text(v[i] as u64).as_str());
        assert(s@ =~= port_list(v@.take(i + 1)));
        i = i + 1;
    }
    assert(v@.take(i as int) =~= v@);
    s
}

/// The addresses of targets.
pub open spec fn target_addrs(v: Seq<resolve::Target>) -> Seq<SocketAddr> {
    Seq::new(v.len(), |i: int| v[i].0)
}

/// Whether a socket for both families is needed: for a relay over IPv6, or for
/// a direct endpoint that is no IPv4 literal.
pub open spec fn wants_v6(relays: Seq<RelayEndpoint>, register: Seq<SocketAddr>) -> bool {
    ||| exists|i: int| 0 <= i < register.len() && (#[trigger] register[i]).ip is V6
    ||| exists|i: int|
        0 <= i < relays.len() && (#[trigger] relays[i]).protocol == RelayProtocol::Direct
            && addr::v4_in(relays[i].host@) is None
}

fn needs_v6(relays: &Vec<RelayEndpoint>, register: &Vec<SocketAddr>) -> (r: bool)
    ensures
        r == wants_v6(relays@, register@),
{
    let mut i: usize = 0;
    while i < register.len()
        invariant
            i <= register@.len(),
            forall|j: int| 0 <= j < i ==> !((#[trigger] register@[j]).ip is V6),
        decreases register.len() - i,
    {
        if register[i].is_ipv6() {
            return true;
        }
        i = i + 1;
    }
    i = 0;
    while i < relays.len()
        invariant
            i <= relays@.len(),
            forall|j: int| 0 <= j < register@.len() ==> !((#[trigger] register@[j]).ip is V6),
            forall|j: int|
                0 <= j < i ==> !((#[trigger] relays@[j]).protocol == RelayProtocol::Direct
                    && addr::v4_in(relays@[j].host@) is None),
        decreases relays.len() - i,
    {
        if relays[i].protocol == RelayProtocol::Direct {
            match addr::parse_v4(&text::chars_of(relays[i].host.as_str())) {
                Some(_) => {},
                None => {
                    return true;
                },
            }
        }
        i = i + 1;
    }
    false
}

/// What sharing starts with: the addresses to register with, the port that
/// direct clients dial (zero for none), and whether a socket for both families
/// is needed.
#[derive(Debug, PartialEq, Eq)]
pub struct SharePlan {
    pub register: Vec<SocketAddr>,
    pub bind_port: u16,
    pub want_v6: bool,
}

/// The addresses to register with, where all is well.
pub open spec fn register_addrs(relays: Seq<RelayEndpoint>, dns: Seq<Lookup>) -> Seq<SocketAddr> {
    let udp = of_protocol(relays, RelayProtocol::UdpQuic, relays.len() as int);
    target_addrs(resolve::all_resolved(udp, dns, udp.len() as int))
}

/// What keeps sharing from starting.
pub open spec fn share_error(relays: Seq<RelayEndpoint>, dns: Seq<Lookup>) -> Option<Seq<char>> {
    let udp = of_protocol(relays, RelayProtocol::UdpQuic, relays.len() as int);
    let ports = direct_ports(relays, relays.len() as int);
    if relays.len() == 0 {
        Some("share: Config.relays is empty"@)
    } else if udp.len() > 0 && resolve::all_resolved(udp, dns, udp.len() as int).len() == 0 {
        Some(resolve::nothing_resolved().detail)
    } else if ports.len() > 1 {
        Some(
            "share: all direct endpoints must use one port (a single socket), got {"@ + port_list(
                ports,
            ) + "}"@,
        )
    } else {
        None
    }
}

/// What sharing starts with. `dns` holds what the name of each UDP relay
/// resolves to; the other endpoints are not looked up here.
pub fn share_plan(relays: &Vec<RelayEndpoint>, dns: &Vec<Lookup>) -> (r: Result<SharePlan, String>)
    requires
        dns@.len() == of_protocol(relays@, RelayProtocol::UdpQuic, relays@.len() as int).len(),
    ensures
        match r {
            Err(e) => share_error(relays@, dns@) == Some(e@),
            Ok(p) => {
                let ports = direct_ports(relays@, relays@.len() as int);
                &&& share_error(relays@, dns@) is None
                &&& p.register@ == register_addrs(relays@, dns@)
                &&& p.bind_port == (if ports.len() == 0 {
                    0
                } else {
                    ports[0]
                })
                &&& p.want_v6 == wants_v6(relays@, p.register@)
            },
        },
{
    if relays.len() == 0 {
        return Err(String::from_str("share: Config.relays is empty"));
    }
    let udp = relays_of(relays, RelayProtocol::UdpQuic);
    let mut register: Vec<SocketAddr> = Vec::new();
    if udp.len() > 0 {
        let found = match resolve_relays(&udp, dns) {
            Ok(v) => v,
            Err(f) => return Err(f.detail),
        };
        let mut i: usize = 0;
        while i < found.len()
            invariant
                i <= found@.len(),
                register@ == target_addrs(found@).take(i as int),
            decreases found.len() - i,
        {
            register.push(found[i].0);
            i = i + 1;
        }
        assert(target_addrs(found@).take(i as int) =~= target_addrs(found@));
    }
    assert(register@ =~= register_addrs(relays@, dns@));
    let ports = ports_of(relays);
    let bind_port: u16 = if ports.len() == 0 {
        0
    } else if ports.len() == 1 {
        ports[0]
    } else {
        return Err(
            String::from_str(
                "share: all direct endpoints must use one port (a single socket), got {",
            ).concat(port_list_text(&ports).as_str()).concat("}"),
        );
    };
    let want_v6: bool = needs_v6(relays, &register);
    Ok(SharePlan { register, bind_port, want_v6 })
}

/// What keeps a share from coming up.
#[derive(Debug, PartialEq, Eq)]
pub enum BootFailure {
    /// The socket that direct clients dial could not be bound.
    DirectBind(String),
    /// The listening socket could not be bound.
    ListenerBind(String),
    /// The connection log could not be opened.
    Storage(String),
}

/// How the record of a share that did not come up is closed, and what is
/// returned.
#[derive(Debug, PartialEq, Eq)]
pub struct BootEnd {
    pub outcome: Outcome,
    pub reason: Reason,
    pub detail: Option<String>,
    pub error: String,
}

/// How a share that did not come up ends.
pub fn boot_failed(f: BootFailure) -> (e: BootEnd)
    ensures
        e.outcome == Outcome::NeverConnected,
        match f {
            BootFailure::DirectBind(s) | BootFailure::ListenerBind(s) => e.reason
                == Reason::BindFailed && e.detail is None && e.error@ == s@,
            BootFailure::Storage(s) => e.reason == Reason::StorageError && (e.detail matches Some(d)
                && d@ == s@) && e.error@ == s@,
        },
{
    match f {
        BootFailure::DirectBind(s) | BootFailure::ListenerBind(s) => BootEnd {
            outcome: Outcome::NeverConnected,
            reason: Reason::BindFailed,
            detail: None,
            error: s,
        },
        BootFailure::Storage(s) => BootEnd {
            outcome: Outcome::NeverConnected,
            reason: Reason::StorageError,
            detail: Some(s.clone()),
            error: s,
        },
    }
}

/// What is recorded of a listening socket: the address that it is bound to,
/// where that is known, or why it is not bound. `direct` says whether it is the
/// one that direct clients dial.
pub open spec fn bind_reported(direct: bool, bound: Result<Option<SocketAddr>, String>) -> ReportView {
    let base = ReportView {
        path: if direct {
            Some(PathKind::DirectAdvertised)
        } else {
            None
        },
        ..report::done(StepKind::ListenerBind)
    };
    match bound {
        Ok(local) => ReportView { local, ..base },
        Err(e) => ReportView {
            ending: EndingView::Failed(fault::fault(Reason::BindFailed, e@)),
            ..base
        },
    }
}

/// What is recorded of a listening socket.
pub fn bind_report(direct: bool, bound: &Result<Option<SocketAddr>, String>) -> (s: StepReport)
    ensures
        s.view() == bind_reported(direct, *bound),
{
    let base = if direct {
        StepReport::new(StepKind::ListenerBind).path(PathKind::DirectAdvertised)
    } else {
        StepReport::new(StepKind::ListenerBind)
    };
    match bound {
        Ok(Some(a)) => base.local(*a),
        Ok(None) => base,
        Err(e) => base.fail(Reason::BindFailed, e.as_str()),
    }
}

/// What is recorded when a listener starts to announce itself. Relays do not
/// answer, so nothing is known of whether they accept it.
pub fn register_report(relays: usize, interval: u64) -> (s: StepReport)
    ensures
        s.view() == (ReportView {
            detail: Some(
                "announcing to "@ + text::dec(relays as nat) + " relay(s) every "@ + text::duration(
                    interval as nat,
                ) + "; relays do not acknowledge"@,
            ),
            ..report::done(StepKind::Register)
        }),
{
    let mut d = String::from_str("announcing to ");
    d.append(text::dec_text(relays as u64).as_str());
    d.append(" relay(s) every ");
    d.append(text::duration_text(interval).as_str());
    d.append("; relays do not acknowledge");
    StepReport::new(StepKind::Register).detail(d.as_str())
}

/// How an incoming connection ended.
#[derive(Debug, PartialEq, Eq)]
pub enum AcceptEnd {
    /// The share is stopping.
    Stopped,
    /// The client was authenticated; its address.
    Accepted(SocketAddr),
    Failed(Fault),
}

/// What is known of an incoming connection from the start.
pub open spec fn accept_view(direct: bool) -> ReportView {
    ReportView {
        carrier: Some(Carrier::Quic),
        path: Some(
            if direct {
                PathKind::DirectAdvertised
            } else {
                PathKind::Relay
            },
        ),
        ..report::done(StepKind::Accept)
    }
}

/// What is known of an incoming connection from the start: it came through a
/// relay, or on the port that direct clients dial.
pub fn accept_step(direct: bool) -> (s: StepReport)
    ensures
        s.view() == accept_view(direct),
{
    let path = if direct {
        PathKind::DirectAdvertised
    } else {
        PathKind::Relay
    };
    StepReport::new(StepKind::Accept).carrier(Carrier::Quic).path(path)
}

/// What is recorded of an incoming connection, which came through a relay or
/// on the port that direct clients dial.
pub fn accept_report(direct: bool, end: &AcceptEnd) -> (s: StepReport)
    ensures
        ({
            let base = accept_view(direct);
            s.view() == (match *end {
                AcceptEnd::Stopped => ReportView {
                    ending: EndingView::Skipped(
                        fault::fault(Reason::Cancelled, "share stopping"@),
                    ),
                    ..base
                },
                AcceptEnd::Accepted(a) => ReportView { peer: Some(a), ..base },
                AcceptEnd::Failed(f) => ReportView {
                    ending: EndingView::Failed(f.view()),
                    ..base
                },
            })
        }),
{
    let base = accept_step(direct);
    match end {
        AcceptEnd::Stopped => base.skip(Reason::Cancelled, "share stopping"),
        AcceptEnd::Accepted(a) => base.peer(*a),
        AcceptEnd::Failed(f) => base.failed(f),
    }
}

/// What the share loop knows: how many sessions came, which generation the
/// listener is, on which generation the session that is served came, which
/// generations were replaced and are still open, and whether a session is
/// served.
#[verifier::ext_equal]
pub struct LoopParts {
    pub iteration: u32,
    pub generation: u64,
    pub active: Option<u64>,
    pub demoted: Seq<u64>,
    pub serving: bool,
}

/// Whether a replaced generation stays open: a session on it is the new one, or
/// the one that is being replaced.
pub open spec fn stays_open(g: u64, new: Option<u64>, previous: Option<u64>) -> bool {
    Some(g) == new || Some(g) == previous
}

/// The generations that stay open, or those that do not.
pub open spec fn sorted_out(v: Seq<u64>, new: Option<u64>, previous: Option<u64>, open: bool) -> Seq<
    u64,
>
    decreases v.len(),
{
    if v.len() == 0 {
        v
    } else {
        let before = sorted_out(v.drop_last(), new, previous, open);
        if stays_open(v.last(), new, previous) == open {
            before.push(v.last())
        } else {
            before
        }
    }
}

/// The replaced generations once the new session has claimed the listener it
/// came on.
pub open spec fn demoted_with(p: LoopParts, rolled: bool) -> Seq<u64> {
    if rolled {
        p.demoted.push(p.generation)
    } else {
        p.demoted
    }
}

/// A share loop after a session came on a generation; `rolled` says whether a
/// new listener was opened for it.
pub open spec fn taken_over(p: LoopParts, from: Option<u64>, rolled: bool) -> LoopParts {
    LoopParts {
        iteration: (p.iteration + 1) as u32,
        generation: if rolled {
            (p.generation + 1) as u64
        } else {
            p.generation
        },
        active: from,
        demoted: sorted_out(demoted_with(p, rolled), from, p.active, true),
        serving: true,
    }
}

/// Whether the replaced generations are older than the listener and none
/// stands twice.
pub open spec fn loop_ok(p: LoopParts) -> bool {
    &&& p.demoted.no_duplicates()
    &&& forall|i: int| 0 <= i < p.demoted.len() ==> #[trigger] p.demoted[i] < p.generation
}

/// What is told when a session came, before anything is done about it.
pub fn arrival_event(session: &PeerSession) -> (e: TunnelEvent)
    ensures
        e == (TunnelEvent::RelaySessionEstablished { peer: session.remote_addr }),
{
    TunnelEvent::RelaySessionEstablished { peer: session.remote_addr }
}

/// What is to be done when a session came.
#[derive(Debug, PartialEq, Eq)]
pub struct Takeover {
    /// What is recorded of the new listener, where one was to be opened.
    pub roll: Option<StepReport>,
    /// The generations to close.
    pub close: Vec<u64>,
    /// Whether the session before is to be cancelled.
    pub cancel_previous: bool,
    /// The path that the session came on.
    pub path: PathKind,
    /// The number of the session.
    pub iteration: u32,
}

/// What is to be closed when a share stops.
#[derive(Debug, PartialEq, Eq)]
pub struct Stop {
    pub cancel_session: bool,
    pub close: Vec<u64>,
}

/// Serves one session at a time, each on a socket of its own.
pub struct ShareLoop {
    iteration: u32,
    generation: u64,
    active: Option<u64>,
    demoted: Vec<u64>,
    serving: bool,
}

/// What the peer is told when its session was replaced.
pub const REPLACED: &'static str = "session-replaced";

/// What the peer is told when sharing stops.
pub const CANCELLED: &'static str = "share-cancelled";

fn same_generation(g: u64, x: Option<u64>) -> (r: bool)
    ensures
        r == (Some(g) == x),
{
    match x {
        Some(y) => g == y,
        None => false,
    }
}

impl ShareLoop {
    pub closed spec fn view(&self) -> LoopParts {
        LoopParts {
            iteration: self.iteration,
            generation: self.generation,
            active: self.active,
            demoted: self.demoted@,
            serving: self.serving,
        }
    }

    /// A loop with its first listener and no session.
    pub fn new() -> (l: ShareLoop)
        ensures
            loop_ok(l@),
            l@ == (LoopParts {
                iteration: 0,
                generation: 0,
                active: None,
                demoted: Seq::empty(),
                serving: false,
            }),
    {
        ShareLoop { iteration: 0, generation: 0, active: None, demoted: Vec::new(), serving: false }
    }

    /// The generation of the listener.
    pub fn generation(&self) -> (g: u64)
        ensures
            g == self@.generation,
    {
        self.generation
    }

    /// Whether a session claims the listener it came on, so that another is to
    /// be opened.
    pub fn claims_listener(&self, from: Option<u64>) -> (r: bool)
        ensures
            r == (from == Some(self@.generation)),
    {
        same_generation(self.generation, from)
    }

    /// A session came. `from` is the generation that it came on, if it came on
    /// a listener; `roll` tells, where it claims the current one, whether
    /// another could be opened. If not, the current one is kept.
    pub fn on_session(
        &mut self,
        session: &PeerSession,
        from: Option<u64>,
        roll: Option<Result<(), String>>,
    ) -> (t: Takeover)
        requires
            loop_ok(old(self)@),
            roll is Some <==> from == Some(old(self)@.generation),
            old(self)@.iteration < u32::MAX,
            old(self)@.generation < u64::MAX,
        ensures
            loop_ok(final(self)@),
            ({
                let rolled = roll matches Some(Ok(_));
                &&& final(self)@ == taken_over(old(self)@, from, rolled)
                &&& t.close@ == sorted_out(
                    demoted_with(old(self)@, rolled),
                    from,
                    old(self)@.active,
                    false,
                )
                &&& t.cancel_previous == old(self)@.serving
                &&& t.iteration == old(self)@.iteration + 1
                &&& t.path == (if session.spec_carrier() == Carrier::Quic && from is None {
                    PathKind::DirectAdvertised
                } else {
                    PathKind::Relay
                })
                &&& t.roll is Some <==> roll is Some
                &&& t.roll matches Some(s) ==> s.view() == (match roll->0 {
                    Ok(_) => ReportView {
                        detail: Some(
                            "generation "@ + text::dec((old(self)@.generation + 1) as nat),
                        ),
                        ..report::done(StepKind::ListenerRoll)
                    },
                    Err(e) => ReportView {
                        ending: EndingView::Failed(fault::fault(Reason::BindFailed, e@)),
                        ..report::done(StepKind::ListenerRoll)
                    },
                })
            }),
    {
        self.iteration = self.iteration + 1;
        let ghost before = self.demoted@;
        let ghost rolled = roll matches Some(Ok(_));
        let report = match roll {
            Some(Ok(_)) => {
                self.demoted.push(self.generation);
                self.generation = self.generation + 1;
                Some(
                    StepReport::new(StepKind::ListenerRoll).detail(
                        String::from_str("generation ").concat(
                            text::dec_text(self.generation).as_str(),
                        ).as_str(),
                    ),
                )
            },
            Some(Err(e)) => Some(
                StepReport::new(StepKind::ListenerRoll).fail(Reason::BindFailed, e.as_str()),
            ),
            None => None,
        };
        let previous = self.active;
        self.active = from;
        let mut keep: Vec<u64> = Vec::new();
        let mut close: Vec<u64> = Vec::new();
        let mut i: usize = 0;
        let ghost all = self.demoted@;
        assert(all.take(0) =~= Seq::empty());
        while i < self.demoted.len()
            invariant
                i <= self.demoted@.len(),
                all == self.demoted@,
                keep@ == sorted_out(all.take(i as int), from, previous, true),
                close@ == sorted_out(all.take(i as int), from, previous, false),
            decreases self.demoted.len() - i,
        {
            assert(all.take(i + 1).drop_last() =~= all.take(i as int));
            let g: u64 = self.demoted[i];
            if same_generation(g, from) || same_generation(g, previous) {
                keep.push(g);
            } else {
                close.push(g);
            }
            i = i + 1;
        }
        assert(all.take(i as int) =~= all);
        proof {
            sorted_out_keeps(all, from, previous, true, self.generation);
        }
        self.demoted = keep;
        let cancel_previous: bool = self.serving;
        self.serving = true;
        let path = if session.carrier() == Carrier::Quic && from.is_none() {
            PathKind::DirectAdvertised
        } else {
            PathKind::Relay
        };
        Takeover {
            roll: report,
            close,
            cancel_previous,
            path,
            iteration: self.iteration,
        }
    }

    /// Sharing stops: the session, the listeners and every generation that is
    /// still open are closed.
    pub fn stop(&mut self) -> (s: Stop)
        requires
            loop_ok(old(self)@),
        ensures
            loop_ok(final(self)@),
            s.cancel_session == old(self)@.serving,
            s.close@ == old(self)@.demoted,
            final(self)@ == (LoopParts {
                demoted: Seq::empty(),
                serving: false,
                ..old(self)@
            }),
    {
        let mut close: Vec<u64> = Vec::new();
        close.append(&mut self.demoted);
        let cancel_session: bool = self.serving;
        self.serving = false;
        assert(close@ =~= old(self)@.demoted);
        Stop { cancel_session, close }
    }
}

proof fn sorted_out_holds(v: Seq<u64>, new: Option<u64>, previous: Option<u64>, open: bool, g: u64)
    ensures
        sorted_out(v, new, previous, open).contains(g) <==> v.contains(g) && stays_open(
            g,
            new,
            previous,
        ) == open,
    decreases v.len(),
{
    if v.len() > 0 {
        let init = v.drop_last();
        let before = sorted_out(init, new, previous, open);
        let after = sorted_out(v, new, previous, open);
        sorted_out_holds(init, new, previous, open, g);
        if v.contains(g) {
            let i = v.index_of(g);
            if i < init.len() {
                assert(init[i] == g);
            }
        }
        if init.contains(g) {
            assert(v[init.index_of(g)] == g);
        }
        if before.contains(g) {
            assert(after[before.index_of(g)] == g);
        }
        if g == v.last() && stays_open(g, new, previous) == open {
            assert(after.last() == g);
            assert(v[v.len() - 1] == g);
        }
        if after.contains(g) {
            let i = after.index_of(g);
            if i < before.len() {
                assert(before[i] == g);
            }
        }
    }
}

proof fn sorted_out_keeps(
    v: Seq<u64>,
    new: Option<u64>,
    previous: Option<u64>,
    open: bool,
    limit: u64,
)
    requires
        v.no_duplicates(),
        forall|i: int| 0 <= i < v.len() ==> #[trigger] v[i] < limit,
    ensures
        sorted_out(v, new, previous, open).no_duplicates(),
        forall|i: int|
            0 <= i < sorted_out(v, new, previous, open).len() ==> #[trigger] sorted_out(
                v,
                new,
                previous,
                open,
            )[i] < limit,
    decreases v.len(),
{
    if v.len() > 0 {
        let init = v.drop_last();
        assert forall|i: int| 0 <= i < init.len() implies #[trigger] init[i] < limit by {
            assert(v[i] < limit);
        }
        sorted_out_keeps(init, new, previous, open, limit);
        sorted_out_holds(init, new, previous, open, v.last());
        assert(v[v.len() - 1] < limit);
        if init.contains(v.last()) {
            let i = init.index_of(v.last());
            assert(v[i] == v[v.len() - 1]);
        }
    }
}

/// The socket of the session that is served is never closed: the generation
/// that a session came on is still open once it has taken over, as the listener
/// or as a replaced generation, if it was open before.
pub proof fn served_session_keeps_its_socket(p: LoopParts, from: u64, rolled: bool)
    requires
        loop_ok(p),
        rolled ==> from == p.generation,
        p.generation < u64::MAX,
        from == p.generation || p.demoted.contains(from),
    ensures
        ({
            let next = taken_over(p, Some(from), rolled);
            &&& next.active == Some(from)
            &&& next.generation == from || next.demoted.contains(from)
            &&& !sorted_out(demoted_with(p, rolled), Some(from), p.active, false).contains(from)
        }),
{
    let all = demoted_with(p, rolled);
    sorted_out_holds(all, Some(from), p.active, true, from);
    sorted_out_holds(all, Some(from), p.active, false, from);
    if rolled {
        assert(all.last() == from);
    }
}

/// The session that is being replaced keeps its socket until the next takeover.
pub proof fn replaced_session_keeps_its_socket(
    p: LoopParts,
    from: Option<u64>,
    rolled: bool,
    previous: u64,
)
    requires
        p.active == Some(previous),
        p.demoted.contains(previous),
    ensures
        taken_over(p, from, rolled).demoted.contains(previous),
{
    let all = demoted_with(p, rolled);
    let i = p.demoted.index_of(previous);
    assert(all[i] == previous);
    sorted_out_holds(all, from, p.active, true, previous);
}

proof fn few_stay(v: Seq<u64>, new: Option<u64>, previous: Option<u64>)
    requires
        v.no_duplicates(),
        forall|i: int| 0 <= i < v.len() ==> stays_open(#[trigger] v[i], new, previous),
    ensures
        v.len() <= 2,
{
    if v.len() > 2 {
        assert(stays_open(v[0], new, previous));
        assert(stays_open(v[1], new, previous));
        assert(stays_open(v[2], new, previous));
        assert(v[0] != v[1] && v[1] != v[2] && v[0] != v[2]);
    }
}

/// No more than two replaced generations are ever open, so sockets do not pile
/// up.
pub proof fn sockets_do_not_pile_up(p: LoopParts, from: Option<u64>, rolled: bool)
    requires
        loop_ok(p),
        p.generation < u64::MAX,
    ensures
        taken_over(p, from, rolled).demoted.len() <= 2,
{
    let all = demoted_with(p, rolled);
    let kept = taken_over(p, from, rolled).demoted;
    let limit = (p.generation + 1) as u64;
    assert forall|i: int| 0 <= i < all.len() implies #[trigger] all[i] < limit by {
        if i < p.demoted.len() {
            assert(all[i] == p.demoted[i]);
            assert(p.demoted[i] < p.generation);
        }
    }
    assert(all.no_duplicates()) by {
        assert forall|i: int, j: int| 0 <= i < all.len() && 0 <= j < all.len() && i
            != j implies all[i] != all[j] by {
            if i < p.demoted.len() {
                assert(p.demoted[i] < p.generation);
            }
            if j < p.demoted.len() {
                assert(p.demoted[j] < p.generation);
            }
        }
    }
    sorted_out_keeps(all, from, p.active, true, limit);
    assert forall|i: int| 0 <= i < kept.len() implies stays_open(
        #[trigger] kept[i],
        from,
        p.active,
    ) by {
        sorted_out_holds(all, from, p.active, true, kept[i]);
        assert(kept.contains(kept[i]));
    }
    few_stay(kept, from, p.active);
}

/// When the sharer probes a client, in milliseconds: how often, for how long
/// after the client was last heard from, and after which silence the client
/// counts as gone.
#[derive(Debug, Clone, Copy, PartialEq, Eq)]
pub struct KeepAlivePlan {
    pub interval: u64,
    pub active_window: u64,
    pub recv_timeout: u64,
}

/// When the sharer probes a client: every interval, until three have passed in
/// silence; and it waits at least that long before it counts the client as
/// gone.
pub open spec fn keepalive_of(t: Timings) -> KeepAlivePlan {
    let window = (t.quic_keep_alive * 3) as u64;
    KeepAlivePlan {
        interval: t.quic_keep_alive,
        active_window: window,
        recv_timeout: if t.quic_idle_timeout > window {
            t.quic_idle_timeout
        } else {
            window
        },
    }
}

/// How a session's packet size becomes known.
#[derive(Debug, Clone, Copy, PartialEq, Eq)]
pub enum MtuPlan {
    /// It is read after a while from the QUIC connection.
    Probe,
    /// It is declared.
    Declared(u16),
}

/// What a session on the sharer's side is set up with.
#[derive(Debug, PartialEq, Eq)]
pub struct ResponderPlan {
    /// What is recorded, in order.
    pub reports: Vec<StepReport>,
    pub carrier: Carrier,
    pub keepalive: KeepAlivePlan,
    /// Whether a direct path is tried.
    pub upgrade: bool,
    /// The family that a direct path is tried in first, where it is.
    pub path_ipv6: bool,
    pub mtu: MtuPlan,
}

/// Whether a direct path is tried: where that is wanted and there is a channel
/// beside the packets.
pub open spec fn tries_direct(enabled: bool, s: PeerSession) -> bool {
    enabled && s.signal is Some
}

/// Why no direct path is tried.
pub open spec fn no_direct_reason(enabled: bool) -> Reason {
    if enabled {
        Reason::UpgradeUnsupported
    } else {
        Reason::UpgradeDisabled
    }
}

/// What is recorded of a session that is up.
pub open spec fn up_report(s: PeerSession, carrier: Carrier, path: PathKind) -> ReportView {
    ReportView {
        peer: Some(s.remote_addr),
        carrier: Some(carrier),
        path: Some(path),
        ..report::done(StepKind::SessionUp)
    }
}

/// What is recorded where no direct path is tried.
pub open spec fn no_direct_report(enabled: bool, carrier: Carrier) -> ReportView {
    ReportView {
        carrier: Some(carrier),
        ending: EndingView::Skipped(
            fault::fault(no_direct_reason(enabled), "no direct upgrade attempted"@),
        ),
        ..report::done(StepKind::PathSwap)
    }
}

/// What is recorded of a packet size that is declared.
pub open spec fn declared_report(mtu: u16) -> ReportView {
    ReportView {
        detail: Some("declared "@ + text::dec(mtu as nat)),
        ..report::done(StepKind::Mtu)
    }
}

/// What is recorded of what takes the packets.
pub open spec fn exit_report(mode: ExitMode) -> ReportView {
    ReportView {
        detail: Some(
            match mode {
                ExitMode::Netstack => "netstack"@,
                ExitMode::Custom => "custom handler"@,
            },
        ),
        ..report::done(StepKind::ExitStart)
    }
}

/// What is recorded of a new session on the sharer's side, in order.
pub open spec fn responder_reports(s: PeerSession, path: PathKind, enabled: bool, mode: ExitMode) -> Seq<
    ReportView,
> {
    seq![up_report(s, s.spec_carrier(), path)] + (if tries_direct(enabled, s) {
        seq![]
    } else {
        seq![no_direct_report(enabled, s.spec_carrier())]
    }) + (if s.quic {
        seq![]
    } else {
        seq![declared_report(s.fixed_mtu)]
    }) + seq![exit_report(mode)]
}

/// What is recorded of a session that is up.
pub fn session_up(s: &PeerSession, carrier: Carrier, path: PathKind) -> (r: StepReport)
    ensures
        r.view() == up_report(*s, carrier, path),
{
    StepReport::new(StepKind::SessionUp).peer(s.remote_addr).carrier(carrier).path(path)
}

/// What is recorded where no direct path is tried.
pub fn no_direct(enabled: bool, carrier: Carrier) -> (r: StepReport)
    ensures
        r.view() == no_direct_report(enabled, carrier),
{
    let reason = if enabled {
        Reason::UpgradeUnsupported
    } else {
        Reason::UpgradeDisabled
    };
    StepReport::new(StepKind::PathSwap).carrier(carrier).skip(reason, "no direct upgrade attempted")
}

/// What is recorded of a packet size that is declared.
pub fn mtu_declared(mtu: u16) -> (r: StepReport)
    ensures
        r.view() == declared_report(mtu),
{
    StepReport::new(StepKind::Mtu).detail(
        String::from_str("declared ").concat(text::dec_text(mtu as u64).as_str()).as_str(),
    )
}

/// What is recorded of a packet size that was to be read, and the size to
/// report: its lower sixteen bits.
pub fn mtu_probed(size: Option<u64>) -> (r: (StepReport, Option<u16>))
    ensures
        match size {
            Some(n) => r.0.view() == (ReportView {
                detail: Some("discovered "@ + text::dec(n as nat)),
                ..report::done(StepKind::Mtu)
            }) && r.1 == Some((n % 65536) as u16),
            None => r.0.view() == (ReportView {
                ending: EndingView::Failed(
                    fault::fault(Reason::Unknown, "no datagram size after PMTUD"@),
                ),
                ..report::done(StepKind::Mtu)
            }) && r.1 is None,
        },
{
    match size {
        Some(n) => (
            StepReport::new(StepKind::Mtu).detail(
                String::from_str("discovered ").concat(text::dec_text(n).as_str()).as_str(),
            ),
            Some((n % 65536) as u16),
        ),
        None => (
            StepReport::new(StepKind::Mtu).fail(Reason::Unknown, "no datagram size after PMTUD"),
            None,
        ),
    }
}

/// What a session on the sharer's side is set up with.
pub fn responder_plan(s: &PeerSession, path: PathKind, cfg: &Config) -> (p: ResponderPlan)
    requires
        cfg.timings.quic_keep_alive * 3 <= u64::MAX,
    ensures
        report::reports(p.reports@) == responder_reports(
            *s,
            path,
            cfg.enable_direct_upgrade,
            cfg.exit_mode,
        ),
        p.carrier == s.spec_carrier(),
        p.keepalive == keepalive_of(cfg.timings),
        p.upgrade == tries_direct(cfg.enable_direct_upgrade, *s),
        p.path_ipv6 == s.remote_addr.ip is V6,
        p.mtu == (if s.quic {
            MtuPlan::Probe
        } else {
            MtuPlan::Declared(s.fixed_mtu)
        }),
{
    let carrier = s.carrier();
    let mut reports: Vec<StepReport> = Vec::new();
    reports.push(session_up(s, carrier, path));
    let upgrade: bool = cfg.enable_direct_upgrade && s.signal.is_some();
    if !upgrade {
        reports.push(no_direct(cfg.enable_direct_upgrade, carrier));
    }
    let mtu = if s.quic {
        MtuPlan::Probe
    } else {
        reports.push(mtu_declared(s.fixed_mtu));
        MtuPlan::Declared(s.fixed_mtu)
    };
    let mode = match cfg.exit_mode {
        ExitMode::Netstack => "netstack",
        ExitMode::Custom => "custom handler",
    };
    reports.push(StepReport::new(StepKind::ExitStart).detail(mode));
    assert(report::reports(reports@) =~= responder_reports(
        *s,
        path,
        cfg.enable_direct_upgrade,
        cfg.exit_mode,
    ));
    let window: u64 = cfg.timings.quic_keep_alive * 3;
    let recv_timeout: u64 = if cfg.timings.quic_idle_timeout > window {
        cfg.timings.quic_idle_timeout
    } else {
        window
    };
    ResponderPlan {
        reports,
        carrier,
        keepalive: KeepAlivePlan {
            interval: cfg.timings.quic_keep_alive,
            active_window: window,
            recv_timeout,
        },
        upgrade,
        path_ipv6: s.remote_addr.is_ipv6(),
        mtu,
    }
}

/// A client is not counted as gone before probing it has stopped.
pub proof fn client_is_not_given_up_early(t: Timings)
    requires
        t.quic_keep_alive * 3 <= u64::MAX,
    ensures
        keepalive_of(t).recv_timeout >= keepalive_of(t).active_window,
        keepalive_of(t).recv_timeout >= t.quic_idle_timeout,
{
}

/// How a session ended, in one word.
pub open spec fn end_word(cancelled: bool) -> Seq<char> {
    if cancelled {
        "cancelled"@
    } else {
        "transport_closed"@
    }
}

/// What follows on the end of a session: what is recorded, the word for the
/// connection log, and what is told. A session that was cancelled was replaced
/// by another.
pub fn session_ended(cancelled: bool, carrier: Carrier, path: PathKind) -> (r: (
    StepReport,
    &'static str,
    TunnelEvent,
))
    ensures
        r.0.view() == (ReportView {
            carrier: Some(carrier),
            path: Some(path),
            ending: EndingView::Failed(
                fault::fault(
                    if cancelled {
                        Reason::Replaced
                    } else {
                        Reason::TransportClosed
                    },
                    end_word(cancelled),
                ),
            ),
            ..report::done(StepKind::SessionEnd)
        }),
        r.1@ == end_word(cancelled),
        r.2 matches TunnelEvent::SessionEnded { reason } && reason@ == end_word(cancelled),
{
    let word: &'static str = if cancelled {
        "cancelled"
    } else {
        "transport_closed"
    };
    let reason = if cancelled {
        Reason::Replaced
    } else {
        Reason::TransportClosed
    };
    (
        StepReport::new(StepKind::SessionEnd).carrier(carrier).path(path).fail(reason, word),
        word,
        TunnelEvent::SessionEnded { reason: String::from_str(word) },
    )
}

/// The addresses to park connections at: each of a relay's addresses as often
/// as connections are kept there.
pub open spec fn parked(found: Seq<SocketAddr>, n: int) -> Seq<SocketAddr>
    decreases n,
{
    if n <= 0 {
        Seq::empty()
    } else {
        let a = found[n - 1];
        parked(found, n - 1) + seq![a, a, a, a]
    }
}

/// The addresses to park connections at, one for each worker.
pub fn park_workers(found: &Vec<SocketAddr>) -> (v: Vec<SocketAddr>)
    ensures
        v@ == parked(found@, found@.len() as int),
{
    let mut v: Vec<SocketAddr> = Vec::new();
    let mut i: usize = 0;
    while i < found.len()
        invariant
            i <= found@.len(),
            v@ == parked(found@, i as int),
        decreases found.len() - i,
    {
        let ghost before = v@;
        let a = found[i];
        v.push(a);
        v.push(a);
        v.push(a);
        v.push(a);
        assert(v@ =~= before + seq![a, a, a, a]);
        i = i + 1;
    }
    v
}

/// The part of parking a connection that failed.
#[derive(Debug, Clone, Copy, PartialEq, Eq, Structural)]
pub enum ParkStage {
    Connect,
    Preamble,
    Peek,
}

/// What the part of parking that failed is called.
pub open spec fn park_stage_words(stage: ParkStage) -> Seq<char> {
    match stage {
        ParkStage::Connect => "connect relay"@,
        ParkStage::Preamble => "register preamble"@,
        ParkStage::Peek => "park peek"@,
    }
}

/// The fault of parking a connection.
pub fn park_fault(stage: ParkStage, e: &IoFailure) -> (f: Fault)
    ensures
        f.view() == fault::fault(
            fault::io_reason(e.kind, e.os),
            park_stage_words(stage) + ": "@ + e.text@,
        ),
{
    let what = match stage {
        ParkStage::Connect => "connect relay",
        ParkStage::Preamble => "register preamble",
        ParkStage::Peek => "park peek",
    };
    Fault::from_io(e).context(what)
}

/// The fault of a connection that was given up while it was parked.
pub fn park_cancelled() -> (f: Fault)
    ensures
        f.view() == fault::fault(Reason::Cancelled, "cancelled while parked"@),
{
    Fault::new(Reason::Cancelled, "cancelled while parked")
}

/// How a parked connection ended.
#[derive(Debug, PartialEq, Eq)]
pub enum ParkEnd {
    /// A client came.
    Spliced,
    /// The relay closed it.
    Reaped,
    Failed(Fault),
}

/// What is known of a parked connection from the start.
pub open spec fn park_view(relay: SocketAddr) -> ReportView {
    ReportView {
        via: Some(relay.text()),
        carrier: Some(Carrier::TcpTls),
        ..report::done(StepKind::RelayPark)
    }
}

/// What is known of a parked connection from the start.
pub fn park_step(relay: &SocketAddr) -> (s: StepReport)
    ensures
        s.view() == park_view(*relay),
{
    StepReport::new(StepKind::RelayPark).via(relay.to_text().as_str()).carrier(Carrier::TcpTls)
}

/// What is recorded of a parked connection, and how long to wait before the
/// next is parked; not at all once a client came.
pub fn park_ended(relay: &SocketAddr, end: &ParkEnd) -> (r: (StepReport, Option<u64>))
    ensures
        ({
            let base = park_view(*relay);
            match *end {
                ParkEnd::Spliced => r.1 is None && r.0.view() == (ReportView {
                    detail: Some("a client was spliced in"@),
                    ..base
                }),
                ParkEnd::Reaped => r.1 == Some(REPARK_DELAY) && r.0.view() == (ReportView {
                    ending: EndingView::Failed(
                        fault::fault(
                            Reason::PeerClosed,
                            "the relay closed the parked connection (idle reap, or a refused token)"@,
                        ),
                    ),
                    ..base
                }),
                ParkEnd::Failed(f) => r.1 == Some(PARK_RETRY_DELAY) && r.0.view() == (ReportView {
                    ending: EndingView::Failed(f.view()),
                    ..base
                }),
            }
        }),
{
    let base = park_step(relay);
    match end {
        ParkEnd::Spliced => (base.detail("a client was spliced in"), None),
        ParkEnd::Reaped => (
            base.fail(
                Reason::PeerClosed,
                "the relay closed the parked connection (idle reap, or a refused token)",
            ),
            Some(REPARK_DELAY),
        ),
        ParkEnd::Failed(f) => (base.failed(f), Some(PARK_RETRY_DELAY)),
    }
}

/// What the Noise carrier of a share is to do.
#[derive(Debug, Clone, Copy, PartialEq, Eq)]
pub enum NoiseAction {
    /// There is nothing for it to do.
    End,
    /// Bind a socket; `want_v6` says whether for both families.
    Bind { want_v6: bool },
    /// Wait, and bind again.
    Wait { ms: u64 },
    /// Register the socket with the relays and serve it.
    Serve,
    /// Stop announcing the socket, which a session has claimed, and bind
    /// another.
    Roll { want_v6: bool },
}

/// What happens to the Noise carrier of a share.
#[derive(Debug, Clone, Copy, PartialEq, Eq, Structural)]
pub enum NoiseEvent {
    Bound,
    BindFailed,
    Waited,
    /// A session has claimed the socket.
    Claimed,
    Cancelled,
}

/// What the Noise carrier does on an event.
pub open spec fn noise_next(want_v6: bool, e: NoiseEvent) -> NoiseAction {
    match e {
        NoiseEvent::Bound => NoiseAction::Serve,
        NoiseEvent::BindFailed => NoiseAction::Wait { ms: REBIND_DELAY },
        NoiseEvent::Waited => NoiseAction::Bind { want_v6 },
        NoiseEvent::Claimed => NoiseAction::Roll { want_v6 },
        NoiseEvent::Cancelled => NoiseAction::End,
    }
}

/// Announces the share to the relays of the Noise carrier, one socket after
/// another.
#[derive(Debug, PartialEq, Eq)]
pub struct NoiseRegistrar {
    pub addrs: Vec<SocketAddr>,
    pub want_v6: bool,
}

/// Whether one of the addresses is an IPv6 address.
pub open spec fn any_v6(v: Seq<SocketAddr>) -> bool {
    exists|i: int| 0 <= i < v.len() && (#[trigger] v[i]).ip is V6
}

impl NoiseRegistrar {
    /// Starts the carrier where the endpoints name relays for it and one of
    /// them resolves. `dns` holds what the name of each of them resolves to.
    pub fn start(relays: &Vec<RelayEndpoint>, dns: &Vec<Lookup>) -> (r: Option<NoiseRegistrar>)
        requires
            dns@.len() == of_protocol(
                relays@,
                RelayProtocol::NoiseUdp,
                relays@.len() as int,
            ).len(),
        ensures
            ({
                let nz = of_protocol(relays@, RelayProtocol::NoiseUdp, relays@.len() as int);
                let found = target_addrs(resolve::all_resolved(nz, dns@, nz.len() as int));
                match r {
                    Some(n) => found.len() > 0 && n.addrs@ == found && n.want_v6 == any_v6(found),
                    None => found.len() == 0,
                }
            }),
    {
        let nz = relays_of(relays, RelayProtocol::NoiseUdp);
        let found = match resolve_relays(&nz, dns) {
            Ok(v) => v,
            Err(_) => return None,
        };
        let mut addrs: Vec<SocketAddr> = Vec::new();
        let mut want_v6: bool = false;
        let mut i: usize = 0;
        while i < found.len()
            invariant
                i <= found@.len(),
                addrs@ == target_addrs(found@).take(i as int),
                want_v6 == any_v6(addrs@),
            decreases found.len() - i,
        {
            let ghost before = addrs@;
            let a = found[i].0;
            addrs.push(a);
            proof {
                if any_v6(before) {
                    let k = choose|k: int| 0 <= k < before.len() && (#[trigger] before[k]).ip is V6;
                    assert(addrs@[k].ip is V6);
                }
                if a.ip is V6 {
                    assert(addrs@[i as int].ip is V6);
                }
                if any_v6(addrs@) {
                    let k = choose|k: int| 0 <= k < addrs@.len() && (#[trigger] addrs@[k]).ip is V6;
                    if k < before.len() {
                        assert(before[k].ip is V6);
                    }
                }
            }
            if a.is_ipv6() {
                want_v6 = true;
            }
            i = i + 1;
        }
        assert(target_addrs(found@).take(i as int) =~= target_addrs(found@));
        Some(NoiseRegistrar { addrs, want_v6 })
    }

    /// What to do first.
    pub fn first(&self) -> (a: NoiseAction)
        ensures
            a == (NoiseAction::Bind { want_v6: self.want_v6 }),
    {
        NoiseAction::Bind { want_v6: self.want_v6 }
    }

    /// What to do on an event. A socket that cannot be bound is tried again
    /// until it can be or the share stops.
    pub fn on(&self, e: NoiseEvent) -> (a: NoiseAction)
        ensures
            a == noise_next(self.want_v6, e),
    {
        match e {
            NoiseEvent::Bound => NoiseAction::Serve,
            NoiseEvent::BindFailed => NoiseAction::Wait { ms: REBIND_DELAY },
            NoiseEvent::Waited => NoiseAction::Bind { want_v6: self.want_v6 },
            NoiseEvent::Claimed => NoiseAction::Roll { want_v6: self.want_v6 },
            NoiseEvent::Cancelled => NoiseAction::End,
        }
    }
}

proof fn lemma_of_protocol(relays: Seq<RelayEndpoint>, p: RelayProtocol, n: int)
    requires
        0 <= n <= relays.len(),
    ensures
        of_protocol(relays, p, n) == relays.take(n).filter(|r: RelayEndpoint| r.protocol == p),
    decreases n,
{
    reveal(Seq::filter);
    if n > 0 {
        lemma_of_protocol(relays, p, n - 1);
        assert(relays.take(n).drop_last() =~= relays.take(n - 1));
    }
}

/// The endpoints of a protocol are those of the configured ones that have it,
/// in the order in which they are configured.
pub proof fn endpoints_are_told_apart_by_protocol(relays: Seq<RelayEndpoint>, p: RelayProtocol)
    ensures
        of_protocol(relays, p, relays.len() as int) == relays.filter(
            |r: RelayEndpoint| r.protocol == p,
        ),
{
    lemma_of_protocol(relays, p, relays.len() as int);
    assert(relays.take(relays.len() as int) =~= relays);
}

/// Whether ports stand in growing order.
pub open spec fn growing(v: Seq<u16>) -> bool {
    forall|i: int, j: int| 0 <= i < j < v.len() ==> v[i] < v[j]
}

proof fn lemma_with_port(v: Seq<u16>, p: u16, q: u16)
    requires
        growing(v),
    ensures
        growing(with_port(v, p)),
        with_port(v, p).contains(q) <==> v.contains(q) || p == q,
        with_port(v, p).len() > 0,
        v.len() > 0 && v.last() >= p ==> with_port(v, p).last() == v.last(),
        v.len() == 0 || v.last() < p ==> with_port(v, p).last() == p,
    decreases v.len(),
{
    let w = with_port(v, p);
    if v.len() == 0 || v.last() < p {
        assert(w.last() == p);
        if v.contains(q) {
            assert(w[v.index_of(q)] == q);
        }
        if w.contains(q) && p != q {
            assert(v[w.index_of(q)] == q);
        }
        if p == q {
            assert(w[w.len() - 1] == q);
        }
    } else if v.last() == p {
        if p == q {
            assert(v[v.len() - 1] == q);
        }
    } else {
        let init = v.drop_last();
        let most = with_port(init, p);
        assert(growing(init));
        lemma_with_port(init, p, q);
        assert(most.last() < v.last()) by {
            if init.len() > 0 {
                assert(init.last() == v[v.len() - 2]);
            }
        }
        assert forall|i: int, j: int| 0 <= i < j < w.len() implies w[i] < w[j] by {
            if j == w.len() - 1 {
                assert(most[i] <= most[most.len() - 1]);
            }
        }
        if v.contains(q) {
            let k = v.index_of(q);
            if k < init.len() {
                assert(init[k] == q);
            }
        }
        if init.contains(q) {
            assert(v[init.index_of(q)] == q);
        }
        if most.contains(q) {
            assert(w[most.index_of(q)] == q);
        }
        if v.last() == q {
            assert(w[w.len() - 1] == q);
            assert(v[v.len() - 1] == q);
        }
        if w.contains(q) {
            let k = w.index_of(q);
            if k < most.len() {
                assert(most[k] == q);
            }
        }
    }
}

proof fn lemma_direct_ports(relays: Seq<RelayEndpoint>, n: int, q: u16)
    requires
        0 <= n <= relays.len(),
    ensures
        growing(direct_ports(relays, n)),
        direct_ports(relays, n).contains(q) <==> exists|i: int|
            0 <= i < n && (#[trigger] relays[i]).protocol == RelayProtocol::Direct && relays[i].port
                == q,
    decreases n,
{
    if n > 0 {
        lemma_direct_ports(relays, n - 1, q);
        let before = direct_ports(relays, n - 1);
        if relays[n - 1].protocol == RelayProtocol::Direct {
            lemma_with_port(before, relays[n - 1].port, q);
        }
    }
}

/// The ports of the direct endpoints are told in growing order, each once, and
/// no other.
pub proof fn direct_ports_are_told(relays: Seq<RelayEndpoint>, q: u16)
    ensures
        growing(direct_ports(relays, relays.len() as int)),
        direct_ports(relays, relays.len() as int).contains(q) <==> exists|i: int|
            0 <= i < relays.len() && (#[trigger] relays[i]).protocol == RelayProtocol::Direct
                && relays[i].port == q,
{
    lemma_direct_ports(relays, relays.len() as int, q);
}

/// Sharing starts exactly where an endpoint is configured, the UDP relays, if
/// there are any, resolve to an address, and all direct endpoints have the same
/// port; that port is then the one that is bound.
pub proof fn sharing_starts_where_it_can(relays: Seq<RelayEndpoint>, dns: Seq<Lookup>)
    requires
        dns.len() == of_protocol(relays, RelayProtocol::UdpQuic, relays.len() as int).len(),
    ensures
        share_error(relays, dns) is None <==> {
            &&& relays.len() > 0
            &&& (forall|i: int|
                0 <= i < relays.len() ==> (#[trigger] relays[i]).protocol != RelayProtocol::UdpQuic)
                || register_addrs(relays, dns).len() > 0
            &&& forall|i: int, j: int|
                0 <= i < relays.len() && 0 <= j < relays.len() && (#[trigger] relays[i]).protocol
                    == RelayProtocol::Direct && (#[trigger] relays[j]).protocol
                    == RelayProtocol::Direct ==> relays[i].port == relays[j].port
        },
        forall|i: int|
            share_error(relays, dns) is None && 0 <= i < relays.len() && (
            #[trigger] relays[i]).protocol == RelayProtocol::Direct ==> direct_ports(
                relays,
                relays.len() as int,
            ).len() == 1 && direct_ports(relays, relays.len() as int)[0] == relays[i].port,
{
    let n = relays.len() as int;
    let udp = of_protocol(relays, RelayProtocol::UdpQuic, n);
    let ports = direct_ports(relays, n);
    let is_udp = |r: RelayEndpoint| r.protocol == RelayProtocol::UdpQuic;
    endpoints_are_told_apart_by_protocol(relays, RelayProtocol::UdpQuic);
    assert(udp == relays.filter(is_udp));
    if udp.len() > 0 {
        relays.lemma_filter_pred(is_udp, 0);
        relays.lemma_filter_contains_rev(is_udp, udp[0]);
        let k = relays.index_of(udp[0]);
        assert(relays[k].protocol == RelayProtocol::UdpQuic);
    }
    assert forall|i: int|
        0 <= i < n && (#[trigger] relays[i]).protocol == RelayProtocol::UdpQuic implies udp.len()
        > 0 by {
        relays.lemma_filter_contains(is_udp, i);
        assert(udp.contains(relays[i]));
    }
    assert forall|i: int|
        0 <= i < n && (#[trigger] relays[i]).protocol == RelayProtocol::Direct implies ports.contains(
        relays[i].port,
    ) by {
        lemma_direct_ports(relays, n, relays[i].port);
    }
    lemma_direct_ports(relays, n, 0);
    if ports.len() > 1 {
        lemma_direct_ports(relays, n, ports[0]);
        lemma_direct_ports(relays, n, ports[1]);
        assert(ports.contains(ports[0]) && ports.contains(ports[1]));
        let i = choose|i: int|
            0 <= i < n && (#[trigger] relays[i]).protocol == RelayProtocol::Direct && relays[i].port
                == ports[0];
        let j = choose|j: int|
            0 <= j < n && (#[trigger] relays[j]).protocol == RelayProtocol::Direct && relays[j].port
                == ports[1];
        assert(ports[0] < ports[1]);
        assert(relays[i].port != relays[j].port);
    }
}

/// A takeover closes exactly those of the replaced generations that neither the
/// new session nor the one before it came on; all of the others stay.
pub proof fn only_unused_sockets_are_closed(p: LoopParts, from: Option<u64>, rolled: bool, g: u64)
    requires
        loop_ok(p),
        p.iteration < u32::MAX,
        p.generation < u64::MAX,
    ensures
        ({
            let old_ones = p.demoted.contains(g) || rolled && g == p.generation;
            let next = taken_over(p, from, rolled);
            let closed = sorted_out(demoted_with(p, rolled), from, p.active, false);
            &&& closed.contains(g) <==> old_ones && from != Some(g) && p.active != Some(g)
            &&& next.demoted.contains(g) <==> old_ones && (from == Some(g) || p.active == Some(g))
            &&& next.active == from
            &&& next.serving
            &&& next.iteration == p.iteration + 1
            &&& next.generation == p.generation + if rolled {
                1int
            } else {
                0int
            }
        }),
{
    let all = demoted_with(p, rolled);
    sorted_out_holds(all, from, p.active, true, g);
    sorted_out_holds(all, from, p.active, false, g);
    if p.demoted.contains(g) {
        assert(all[p.demoted.index_of(g)] == g);
    }
    if rolled && g == p.generation {
        assert(all.last() == g);
    }
    if all.contains(g) && !(rolled && g == p.generation) {
        let k = all.index_of(g);
        assert(p.demoted[k] == g);
    }
}

/// A client is sent a sign of life at each interval, counts as active for three
/// of them, and is given up after three of them or the idle timeout, whichever
/// is longer.
pub proof fn keepalive_follows_the_timings(t: Timings)
    requires
        t.quic_keep_alive * 3 <= u64::MAX,
    ensures
        keepalive_of(t).interval == t.quic_keep_alive,
        keepalive_of(t).active_window == 3 * t.quic_keep_alive,
        keepalive_of(t).recv_timeout == t.quic_idle_timeout || keepalive_of(t).recv_timeout == 3
            * t.quic_keep_alive,
        keepalive_of(t).recv_timeout >= t.quic_idle_timeout,
        keepalive_of(t).recv_timeout >= 3 * t.quic_keep_alive,
{
}

/// Four connections wait at each relay, relay by relay.
pub proof fn four_connections_wait_at_each_relay(found: Seq<SocketAddr>, n: int)
    requires
        0 <= n <= found.len(),
    ensures
        parked(found, n).len() == 4 * n,
        forall|i: int| 0 <= i < 4 * n ==> #[trigger] parked(found, n)[i] == found[i / 4],
    decreases n,
{
    if n > 0 {
        four_connections_wait_at_each_relay(found, n - 1);
        let before = parked(found, n - 1);
        assert forall|i: int| 0 <= i < 4 * n implies #[trigger] parked(found, n)[i] == found[i
            / 4] by {
            if i < 4 * (n - 1) {
                assert(parked(found, n)[i] == before[i]);
            } else {
                assert(i / 4 == n - 1);
            }
        }
    }
}

/// A session is reported as up first and the exit as started last; in between
/// it is told that no direct path is tried, exactly where none is, and the
/// packet size, exactly where it is fixed.
pub proof fn served_session_is_reported(
    s: PeerSession,
    path: PathKind,
    enabled: bool,
    mode: ExitMode,
)
    ensures
        ({
            let reports = responder_reports(s, path, enabled, mode);
            let direct = enabled && s.signal is Some;
            &&& tries_direct(enabled, s) <==> direct
            &&& reports[0].kind == StepKind::SessionUp && reports[0].peer == Some(s.remote_addr)
                && reports[0].path == Some(path)
            &&& reports.last().kind == StepKind::ExitStart
            &&& reports.len() == 2 + (if direct {
                0int
            } else {
                1int
            }) + (if s.quic {
                0int
            } else {
                1int
            })
            &&& !direct ==> (reports[1].kind == StepKind::PathSwap && (
            reports[1].ending matches EndingView::Skipped(f) && f.reason == if enabled {
                Reason::UpgradeUnsupported
            } else {
                Reason::UpgradeDisabled
            }))
            &&& !s.quic ==> reports[reports.len() - 2].kind == StepKind::Mtu
        }),
{
}

/// A socket for both families is there for every address to register with that
/// is an IPv6 address and for every direct endpoint that a client may reach over
/// IPv6; without one all those addresses are IPv4 addresses, and all direct
/// endpoints IPv4 literals.
pub proof fn v6_peers_find_a_socket(
    relays: Seq<RelayEndpoint>,
    register: Seq<SocketAddr>,
    i: int,
    j: int,
)
    requires
        0 <= i < relays.len(),
        0 <= j < register.len(),
    ensures
        register[j].ip is V6 ==> wants_v6(relays, register) && any_v6(register),
        relays[i].protocol == RelayProtocol::Direct && addr::v6_in(relays[i].host@) is Some
            ==> wants_v6(relays, register),
        !wants_v6(relays, register) && relays[i].protocol == RelayProtocol::Direct
            ==> addr::v4_in(relays[i].host@) is Some,
        !wants_v6(relays, register) ==> register[j].ip is V4 && !any_v6(register),
        (forall|k: int| 0 <= k < register.len() ==> (#[trigger] register[k]).ip is V4) ==> !any_v6(
            register,
        ),
{
    addr::literal_has_one_family(relays[i].host@);
    assert(relays[i].protocol == RelayProtocol::Direct && addr::v4_in(relays[i].host@) is None
        ==> wants_v6(relays, register));
}

/// The Noise carrier serves a socket that was bound, and binds one again two
/// seconds after that failed; a socket that a client has claimed is replaced by
/// one of the same families, and only the end of the share ends it.
pub proof fn noise_carrier_is_kept_up(want_v6: bool, e: NoiseEvent)
    ensures
        noise_next(want_v6, e) is Serve <==> e is Bound,
        noise_next(want_v6, e) is Wait <==> e is BindFailed,
        noise_next(want_v6, e) matches NoiseAction::Wait { ms } ==> ms == 2000,
        noise_next(want_v6, e) is Bind <==> e is Waited,
        noise_next(want_v6, e) matches NoiseAction::Bind { want_v6: v } ==> v == want_v6,
        noise_next(want_v6, e) is Roll <==> e is Claimed,
        noise_next(want_v6, e) matches NoiseAction::Roll { want_v6: v } ==> v == want_v6,
        noise_next(want_v6, e) is End <==> e is Cancelled,
{
}

/// What is recorded of a connection that was accepted tells whether it came
/// straight from a client or through a relay; and what is recorded of one that
/// is parked tells at which relay.
pub proof fn connections_are_reported_where_they_come_in(direct: bool, relay: SocketAddr)
    ensures
        accept_view(direct).kind == StepKind::Accept,
        accept_view(direct).carrier == Some(Carrier::Quic),
        accept_view(direct).path == Some(PathKind::DirectAdvertised) <==> direct,
        accept_view(direct).path == Some(PathKind::Relay) <==> !direct,
        accept_view(direct).ending is Done,
        park_view(relay).kind == StepKind::RelayPark,
        park_view(relay).carrier == Some(Carrier::TcpTls),
        park_view(relay).via == Some(relay.text()),
        park_view(relay).ending is Done,
{
}

/// What is recorded of binding a listener: with the address it is bound to, or
/// that it failed, and whether direct clients dial it.
pub proof fn binding_is_reported(direct: bool, bound: Result<Option<SocketAddr>, String>)
    ensures
        ({
            let v = bind_reported(direct, bound);
            &&& v.kind == StepKind::ListenerBind
            &&& v.path is Some <==> direct
            &&& direct ==> v.path == Some(PathKind::DirectAdvertised)
            &&& v.ending is Done <==> bound is Ok
            &&& bound matches Ok(local) ==> v.local == local
            &&& bound matches Err(e) ==> (v.ending matches EndingView::Failed(f) && f.reason
                == Reason::BindFailed && f.detail == e@) && v.local is None
        }),
{
}

proof fn lemma_port_list(v: Seq<u16>, parts: Seq<Seq<char>>)
    requires
        v.len() > 0,
        parts.len() == v.len(),
        parts[0] == text::dec(v[0] as nat),
        forall|i: int| 0 < i < v.len() ==> #[trigger] parts[i] == seq![' '] + text::dec(v[i] as nat),
    ensures
        port_list(v) == text::join(parts, ','),
    decreases v.len(),
{
    if v.len() > 1 {
        let rest = parts.drop_last();
        lemma_port_list(v.drop_last(), rest);
        let last = seq![parts.last()];
        text::join_of_two(rest, last, ',');
        assert(rest + last =~= parts);
        reveal_strlit(", ");
        assert(port_list(v) =~= text::join(rest, ',').push(',') + text::join(last, ','));
    }
}

/// The ports that the direct endpoints use are listed in their order, each in
/// decimal, with a comma and a space between them.
pub proof fn ports_are_listed(v: Seq<u16>, i: int)
    requires
        0 <= i < v.len(),
    ensures
        text::split(port_list(v), ',').len() == v.len(),
        text::split(port_list(v), ',')[i] == if i == 0 {
            text::dec(v[0] as nat)
        } else {
            seq![' '] + text::dec(v[i] as nat)
        },
{
    let parts = Seq::new(
        v.len(),
        |k: int|
            if k == 0 {
                text::dec(v[0] as nat)
            } else {
                seq![' '] + text::dec(v[k] as nat)
            },
    );
    assert forall|k: int| 0 <= k < parts.len() implies !(#[trigger] parts[k]).contains(',') by {
        text::numeral_has_no(v[k] as nat, 10, ',');
        let d = text::dec(v[k] as nat);
        if parts[k].contains(',') {
            let at = choose|at: int| 0 <= at < parts[k].len() && parts[k][at] == ',';
            assert(k > 0 && d[at - 1] == ',');
        }
    }
    lemma_port_list(v, parts);
    text::split_of_join(parts, ',');
}

} // verus!
