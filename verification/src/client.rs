//! The client's side: from a share URL to a session, and from one session to
//! the next.

use vstd::prelude::*;
use vstd::string::*;
use crate::addr::SocketAddr;
use crate::carrier::PeerSession;
use crate::config::{Config, TunnelEvent};
use crate::fault;
use crate::fault::{Fault, FaultView};
use crate::identity;
use crate::identity::{RelayEndpoint, RelayProtocol, Token, Url};
use crate::punch;
use crate::record;
use crate::record::{Build, EndpointRef, Entry, RecordConfig, Recorder, SampleInput};
use crate::report;
use crate::report::{EndingView, ReportView, StepReport};
use crate::resolve;
use crate::resolve::{resolved_report, Target};
use crate::share;
use crate::share::{mtu_declared, no_direct, session_up, MtuPlan};
use crate::text;
use crate::vocab::{Carrier, MtuSource, Outcome, PathKind, Reason, Role, RttSource, StepKind};

verus! {

/// A client that never connected: what is recorded of it, what its record ends
/// with, and the error that is returned.
#[derive(Debug, PartialEq, Eq)]
pub struct ConnectFailure {
    pub report: Option<StepReport>,
    pub outcome: Outcome,
    pub reason: Reason,
    pub detail: Option<String>,
    pub error: String,
}

/// Reads the token of a share URL, and says what is recorded of that.
pub fn open_client(url: &Url) -> (r: Result<(Token, StepReport), ConnectFailure>)
    ensures
        match identity::token_in(url.path(), url.pairs()) {
            Ok(t) => r matches Ok((token, s)) && token@ == t && s.view() == report::done(
                StepKind::TokenParse,
            ),
            Err(e) => r matches Err(f) && f.error@ == e && f.report is Some
                && f.report->0.view() == (ReportView {
                ending: EndingView::Failed(fault::fault(Reason::BadToken, e)),
                ..report::done(StepKind::TokenParse)
            }) && f.outcome == Outcome::NeverConnected && f.reason == Reason::BadToken
                && f.detail is None,
        },
{
    match Token::from_url(url) {
        Ok(t) => Ok((t, StepReport::new(StepKind::TokenParse))),
        Err(e) => {
            let s = StepReport::new(StepKind::TokenParse).fail(Reason::BadToken, e.as_str());
            Err(
                ConnectFailure {
                    report: Some(s),
                    outcome: Outcome::NeverConnected,
                    reason: Reason::BadToken,
                    detail: None,
                    error: e,
                },
            )
        },
    }
}

/// The targets of the first dial, and what is recorded of finding them. Unlike
/// a later dial, this one has nothing to fall back to.
pub fn first_targets(found: Result<Vec<Target>, Fault>) -> (r: Result<
    (Vec<Target>, StepReport),
    ConnectFailure,
>)
    ensures
        match found {
            Ok(v) => r matches Ok((t, s)) && t == v && s.view() == (ReportView {
                detail: Some(resolve::to_try(v@.len())),
                ..report::done(StepKind::RelayResolve)
            }),
            Err(e) => r matches Err(f) && f.error@ == e.detail@ && f.report is Some
                && f.report->0.view() == (ReportView {
                ending: EndingView::Failed(e.view()),
                ..report::done(StepKind::RelayResolve)
            }) && f.outcome == Outcome::NeverConnected && f.reason == e.reason && f.detail is None,
        },
{
    match found {
        Ok(v) => {
            let s = resolved_report(v.len());
            Ok((v, s))
        },
        Err(e) => {
            let s = StepReport::new(StepKind::RelayResolve).failed(&e);
            Err(
                ConnectFailure {
                    report: Some(s),
                    outcome: Outcome::NeverConnected,
                    reason: e.reason,
                    detail: None,
                    error: e.detail,
                },
            )
        },
    }
}

/// What follows where the first dial fails.
pub fn first_dial_failed(e: Fault) -> (f: ConnectFailure)
    ensures
        f.report is None,
        f.outcome == Outcome::NeverConnected,
        f.reason == e.reason,
        f.detail is Some && f.detail->0@ == e.detail@,
        f.error@ == "initial dial: "@ + e.detail@,
{
    let error = String::from_str("initial dial: ").concat(e.detail.as_str());
    ConnectFailure {
        report: None,
        outcome: Outcome::NeverConnected,
        reason: e.reason,
        detail: Some(e.detail),
        error,
    }
}

/// What a later dial begins with.
#[derive(Debug, PartialEq, Eq)]
pub struct Redial {
    /// The number of the dial, which its steps are tagged with.
    pub cycle: u32,
    pub event: TunnelEvent,
    pub report: StepReport,
}

/// Begins a later dial, after `before` others; the first dial is not counted.
pub fn redial(before: u64) -> (r: Redial)
    ensures
        r.cycle == (before + 1) % 0x1_0000_0000,
        r.event == TunnelEvent::Reconnecting,
        r.report.view() == report::done(StepKind::Reconnect),
{
    let cycle: u64 = (before % 0x1_0000_0000 + 1) % 0x1_0000_0000;
    Redial {
        cycle: cycle as u32,
        event: TunnelEvent::Reconnecting,
        report: StepReport::new(StepKind::Reconnect),
    }
}

/// How dialing one target ended.
#[derive(Debug, PartialEq, Eq)]
pub enum DialEnd {
    /// A session is up.
    Up,
    Failed(Fault),
    /// It took longer than it may, in milliseconds.
    TimedOut(u64),
}

/// What went wrong with dialing a target.
pub open spec fn dial_fault(t: Target, end: DialEnd) -> Option<FaultView> {
    match end {
        DialEnd::Up => None,
        DialEnd::Failed(f) => Some(f.view()),
        DialEnd::TimedOut(ms) => Some(
            fault::fault(
                Reason::ConnectTimeout,
                "relay "@ + t.0.text() + " dial timed out after "@ + text::duration(ms as nat),
            ),
        ),
    }
}

/// What is recorded of dialing a target.
pub open spec fn dial_report(t: Target, end: DialEnd) -> ReportView {
    ReportView {
        via: Some(t.0.text()),
        carrier: Some(Carrier::of(t.1)),
        path: Some(PathKind::of(t.1)),
        ending: match dial_fault(t, end) {
            None => EndingView::Done,
            Some(f) => EndingView::Failed(f),
        },
        ..report::done(StepKind::RelayDial)
    }
}

/// The targets of a dial, how many were tried, and what went wrong last.
pub struct DialParts {
    pub targets: Seq<Target>,
    pub tried: nat,
    pub last: Option<FaultView>,
}

/// A dial under way: the targets are tried one after the other until one gives
/// a session.
#[derive(Debug, PartialEq, Eq)]
pub struct DialRun {
    targets: Vec<Target>,
    tried: usize,
    last: Option<Fault>,
}

/// What to do next in a dial.
#[derive(Debug, PartialEq, Eq)]
pub enum DialNext {
    Dial(SocketAddr, RelayProtocol),
    GiveUp(Fault),
}

/// The error of a dial in which no target gave a session.
pub open spec fn given_up(d: DialParts) -> FaultView {
    match d.last {
        Some(f) => f,
        None => fault::fault(Reason::NoRelays, "no relays to dial"@),
    }
}

/// The state of a dial after a target was tried in vain.
pub open spec fn tried(d: DialParts, end: DialEnd) -> DialParts {
    DialParts {
        tried: d.tried + 1,
        last: dial_fault(d.targets[d.tried as int], end),
        ..d
    }
}

impl DialRun {
    pub closed spec fn view(&self) -> DialParts {
        DialParts {
            targets: self.targets@,
            tried: self.tried as nat,
            last: punch::opt_fault(self.last),
        }
    }

    /// Begins a dial.
    pub fn new(targets: Vec<Target>) -> (d: DialRun)
        ensures
            d@ == (DialParts { targets: targets@, tried: 0, last: None }),
    {
        DialRun { targets, tried: 0, last: None }
    }

    /// The target to try next; where there is none left, what went wrong with
    /// the last one.
    pub fn next(&self) -> (n: DialNext)
        ensures
            match n {
                DialNext::Dial(a, p) => self@.tried < self@.targets.len() && (a, p)
                    == self@.targets[self@.tried as int],
                DialNext::GiveUp(f) => self@.tried >= self@.targets.len() && f.view() == given_up(
                    self@,
                ),
            },
    {
        if self.tried < self.targets.len() {
            let t: Target = self.targets[self.tried];
            return DialNext::Dial(t.0, t.1);
        }
        match &self.last {
            Some(f) => DialNext::GiveUp(f.clone()),
            None => DialNext::GiveUp(Fault::new(Reason::NoRelays, "no relays to dial")),
        }
    }

    /// What is recorded of the target that was tried; a failure passes on to
    /// the next one.
    pub fn ended(&mut self, end: DialEnd) -> (s: StepReport)
        requires
            old(self)@.tried < old(self)@.targets.len(),
        ensures
            s.view() == dial_report(old(self)@.targets[old(self)@.tried as int], end),
            final(self)@ == (if end is Up {
                old(self)@
            } else {
                tried(old(self)@, end)
            }),
    {
        let t: Target = self.targets[self.tried];
        let s = StepReport::new(StepKind::RelayDial).via(t.0.to_text().as_str()).carrier(
            Carrier::of_protocol(t.1),
        ).path(PathKind::of_protocol(t.1));
        let f = match end {
            DialEnd::Up => return s,
            DialEnd::Failed(f) => f,
            DialEnd::TimedOut(ms) => {
                let mut d = String::from_str("relay ");
                d.append(t.0.to_text().as_str());
                d.append(" dial timed out after ");
                d.append(text::duration_text(ms).as_str());
                Fault::new(Reason::ConnectTimeout, d.as_str())
            },
        };
        let s = s.failed(&f);
        assert(self.tried < self.targets.len());
        self.tried = self.tried + 1;
        self.last = Some(f);
        s
    }
}

/// The state of a dial after targets were tried in vain.
pub open spec fn dialed(targets: Seq<Target>, ends: Seq<DialEnd>) -> DialParts
    decreases ends.len(),
{
    if ends.len() == 0 {
        DialParts { targets, tried: 0, last: None }
    } else {
        tried(dialed(targets, ends.drop_last()), ends.last())
    }
}

/// Every target is tried, in order, before a dial is given up; and the error of
/// the dial is that of the last target.
pub proof fn every_target_is_tried(targets: Seq<Target>, ends: Seq<DialEnd>)
    requires
        ends.len() <= targets.len(),
        forall|i: int| 0 <= i < ends.len() ==> !(#[trigger] ends[i] is Up),
    ensures
        dialed(targets, ends).targets == targets,
        dialed(targets, ends).tried == ends.len(),
        ends.len() > 0 ==> Some(given_up(dialed(targets, ends))) == dial_fault(
            targets[ends.len() - 1],
            ends.last(),
        ),
        ends.len() == 0 ==> given_up(dialed(targets, ends)).reason == Reason::NoRelays,
    decreases ends.len(),
{
    if ends.len() > 0 {
        let init = ends.drop_last();
        assert forall|i: int| 0 <= i < init.len() implies !(#[trigger] init[i] is Up) by {
            assert(init[i] == ends[i]);
        }
        every_target_is_tried(targets, init);
        assert(!(ends[ends.len() - 1] is Up));
    }
}

/// What a session on the client's side is set up with.
#[derive(Debug, PartialEq, Eq)]
pub struct InitiatorPlan {
    pub event: TunnelEvent,
    /// What is recorded, in order.
    pub reports: Vec<StepReport>,
    pub carrier: Carrier,
    pub path: PathKind,
    pub mtu: MtuPlan,
    /// Whether a direct path is tried.
    pub upgrade: bool,
    /// The family that a direct path is tried in first.
    pub path_ipv6: bool,
    /// Whether the channel beside the packets is given up at once, so that the
    /// peer does not try a direct path either.
    pub drop_signal: bool,
}

/// Whether a client tries a direct path: where that is wanted, the session is
/// not direct already, and there is a channel beside the packets.
pub open spec fn client_tries_direct(enabled: bool, p: RelayProtocol, s: PeerSession) -> bool {
    enabled && p != RelayProtocol::Direct && s.signal is Some
}

/// What is recorded of a new session on the client's side, in order.
pub open spec fn initiator_reports(s: PeerSession, p: RelayProtocol, enabled: bool) -> Seq<
    ReportView,
> {
    seq![share::up_report(s, Carrier::of(p), PathKind::of(p))] + (if s.quic {
        seq![]
    } else {
        seq![share::declared_report(s.fixed_mtu)]
    }) + (if client_tries_direct(enabled, p, s) {
        seq![]
    } else {
        seq![share::no_direct_report(enabled, Carrier::of(p))]
    })
}

/// What the session of a dialed target is set up with.
pub fn initiator_plan(s: &PeerSession, target: &Target, cfg: &Config) -> (p: InitiatorPlan)
    ensures
        p.event == (TunnelEvent::RelaySessionEstablished { peer: s.remote_addr }),
        report::reports(p.reports@) == initiator_reports(*s, target.1, cfg.enable_direct_upgrade),
        p.carrier == Carrier::of(target.1),
        p.path == PathKind::of(target.1),
        p.mtu == (if s.quic {
            MtuPlan::Probe
        } else {
            MtuPlan::Declared(s.fixed_mtu)
        }),
        p.upgrade == client_tries_direct(cfg.enable_direct_upgrade, target.1, *s),
        p.path_ipv6 == (target.0.ip is V6),
        p.drop_signal == (target.1 == RelayProtocol::Direct),
{
    let carrier = Carrier::of_protocol(target.1);
    let path = PathKind::of_protocol(target.1);
    let mut reports: Vec<StepReport> = Vec::new();
    reports.push(session_up(s, carrier, path));
    let mtu = if s.quic {
        MtuPlan::Probe
    } else {
        reports.push(mtu_declared(s.fixed_mtu));
        MtuPlan::Declared(s.fixed_mtu)
    };
    let relayed: bool = target.1.is_relayed();
    let upgrade: bool = cfg.enable_direct_upgrade && relayed && s.signal.is_some();
    if !upgrade {
        reports.push(no_direct(cfg.enable_direct_upgrade, carrier));
    }
    assert(report::reports(reports@) =~= initiator_reports(*s, target.1, cfg.enable_direct_upgrade));
    InitiatorPlan {
        event: TunnelEvent::RelaySessionEstablished { peer: s.remote_addr },
        reports,
        carrier,
        path,
        mtu,
        upgrade,
        path_ipv6: target.0.is_ipv6(),
        drop_signal: !relayed,
    }
}

/// A direct session is not upgraded, and the peer is told so at once.
pub proof fn direct_sessions_stay(s: PeerSession, enabled: bool)
    ensures
        !client_tries_direct(enabled, RelayProtocol::Direct, s),
        initiator_reports(s, RelayProtocol::Direct, enabled).last() == share::no_direct_report(
            enabled,
            Carrier::of(RelayProtocol::Direct),
        ),
{
}

/// The configured endpoints, as a record describes them.
pub open spec fn refs_of(relays: Seq<RelayEndpoint>) -> Seq<EndpointRef> {
    Seq::new(
        relays.len(),
        |i: int|
            EndpointRef {
                host: relays[i].host,
                port: relays[i].port,
                carrier: Carrier::of(relays[i].protocol),
                path: PathKind::of(relays[i].protocol),
                addr: None,
            },
    )
}

/// The configured endpoints, as a record describes them.
pub fn endpoint_refs(relays: &Vec<RelayEndpoint>) -> (v: Vec<EndpointRef>)
    ensures
        v@ == refs_of(relays@),
{
    let mut v: Vec<EndpointRef> = Vec::new();
    let mut i: usize = 0;
    while i < relays.len()
        invariant
            i <= relays.len(),
            v@ == refs_of(relays@.take(i as int)),
        decreases relays.len() - i,
    {
        let r = &relays[i];
        v.push(
            EndpointRef {
                host: r.host.clone(),
                port: r.port,
                carrier: Carrier::of_protocol(r.protocol),
                path: PathKind::of_protocol(r.protocol),
                addr: None,
            },
        );
        assert(v@ =~= refs_of(relays@.take(i + 1)));
        i = i + 1;
    }
    assert(relays@.take(i as int) =~= relays@);
    v
}

/// Opens the record of a run, or one that records nothing where none is asked
/// for.
pub fn open_record(
    cfg: Option<&RecordConfig>,
    id: String,
    at_unix_ms: u64,
    build: Build,
    role: Role,
    routing_key: Option<&[u8]>,
    endpoints: Vec<EndpointRef>,
    upgrade_enabled: bool,
) -> (r: (Recorder, Option<Entry>))
    ensures
        record::recorder_ok(r.0@),
        r.0@.enabled == (cfg is Some),
        match cfg {
            Some(c) => {
                &&& r.1 is Some
                &&& r.1->0 is Open
                &&& r.1->0->Open_0@ == r.0@.open
                &&& r.0@ == record::started(*c, id, r.0@.open, r.1->0)
                &&& r.0@.open.v == record::FORMAT_VERSION
                &&& r.0@.open.id == id
                &&& r.0@.open.role == role
                &&& r.0@.open.at_unix_ms == at_unix_ms
                &&& r.0@.open.build == build
                &&& r.0@.open.endpoints == endpoints@
                &&& r.0@.open.upgrade_enabled == upgrade_enabled
                &&& r.0@.open.label == c.label
                &&& r.0@.open.correlation_id == c.correlation_id
                &&& match routing_key {
                    Some(k) => r.0@.open.routing_key is Some && r.0@.open.routing_key->0@
                        == record::hex_text(k@),
                    None => r.0@.open.routing_key is None,
                }
            },
            None => r.1 is None && record::records_nothing(r.0@),
        },
{
    match cfg {
        Some(c) => {
            let (rec, entry) = Recorder::start(
                c,
                id,
                at_unix_ms,
                build,
                role,
                routing_key,
                endpoints,
                upgrade_enabled,
            );
            (rec, Some(entry))
        },
        None => (Recorder::disabled(), None),
    }
}

/// How often a session is sampled, in milliseconds: not at all where nothing is
/// recorded or the interval is zero.
pub fn sampler_interval(rec: &Recorder) -> (r: Option<u64>)
    ensures
        match r {
            Some(ms) => rec@.enabled && ms == rec@.sample_interval && ms > 0,
            None => !rec@.enabled || rec@.sample_interval == 0,
        },
{
    let ms: u64 = rec.sample_interval();
    if !rec.is_enabled() || ms == 0 {
        None
    } else {
        Some(ms)
    }
}

/// What a link has counted; the round trip of its last probe is in
/// microseconds.
#[derive(Debug, Clone, Copy, PartialEq, Eq)]
pub struct LinkCounters {
    pub tx_bytes: u64,
    pub rx_bytes: u64,
    pub tx_pkts: u64,
    pub rx_pkts: u64,
    pub probes_sent: u64,
    pub probes_answered: u64,
    pub last_rtt_us: Option<u64>,
}

/// What a QUIC connection says of its path.
#[derive(Debug, Clone, Copy, PartialEq, Eq)]
pub struct QuicStats {
    pub rtt_us: u64,
    pub cwnd: u64,
    pub lost_packets: u64,
    pub max_datagram_size: Option<u64>,
}

/// What a live session is described by: where its packets go, and the packet
/// size where it is fixed.
#[derive(Debug, Clone, Copy, PartialEq, Eq)]
pub struct SessionMeters {
    pub carrier: Carrier,
    pub path: PathKind,
    pub fixed_mtu: Option<u16>,
}

/// A sample of a session. The carrier's own figures stand before those of the
/// probes, and a packet size is said to be discovered or declared.
pub open spec fn sample_of(m: SessionMeters, c: LinkCounters, quic: Option<QuicStats>) -> SampleInput {
    let base = SampleInput {
        path: m.path,
        carrier: m.carrier,
        rtt_us: c.last_rtt_us,
        rtt_src: match c.last_rtt_us {
            Some(_) => Some(RttSource::Keepalive),
            None => None,
        },
        tx_bytes: c.tx_bytes,
        rx_bytes: c.rx_bytes,
        tx_pkts: c.tx_pkts,
        rx_pkts: c.rx_pkts,
        lost_pkts: None,
        cwnd: None,
        mtu: m.fixed_mtu,
        mtu_src: match m.fixed_mtu {
            Some(_) => Some(MtuSource::Declared),
            None => None,
        },
        probes_sent: Some(c.probes_sent),
        probes_lost: Some(record::minus(c.probes_sent, c.probes_answered) as u64),
    };
    match quic {
        None => base,
        Some(q) => SampleInput {
            rtt_us: Some(q.rtt_us),
            rtt_src: Some(RttSource::Quic),
            cwnd: Some(q.cwnd),
            lost_pkts: Some(q.lost_packets),
            mtu: match q.max_datagram_size {
                Some(n) => Some((n % 65536) as u16),
                None => None,
            },
            mtu_src: Some(MtuSource::Discovered),
            ..base
        },
    }
}

impl SessionMeters {
    /// The meters of a new session; only one without a QUIC connection has a
    /// fixed packet size.
    pub fn new(carrier: Carrier, path: PathKind, quic: bool, fixed_mtu: u16) -> (m: SessionMeters)
        ensures
            m == (SessionMeters {
                carrier,
                path,
                fixed_mtu: if quic {
                    None
                } else {
                    Some(fixed_mtu)
                },
            }),
    {
        let fixed_mtu = if quic {
            None
        } else {
            Some(fixed_mtu)
        };
        SessionMeters { carrier, path, fixed_mtu }
    }

    /// A direct path has taken over.
    pub fn on_direct(&mut self, path: PathKind)
        ensures
            *final(self) == (SessionMeters { path, ..*old(self) }),
    {
        self.path = path;
    }

    /// A sample of the session.
    pub fn take_sample(&self, c: &LinkCounters, quic: Option<QuicStats>) -> (s: SampleInput)
        ensures
            s == sample_of(*self, *c, quic),
    {
        let rtt_src = match c.last_rtt_us {
            Some(_) => Some(RttSource::Keepalive),
            None => None,
        };
        let mtu_src = match self.fixed_mtu {
            Some(_) => Some(MtuSource::Declared),
            None => None,
        };
        let probes_lost: u64 = if c.probes_sent > c.probes_answered {
            c.probes_sent - c.probes_answered
        } else {
            0
        };
        let mut s = SampleInput {
            path: self.path,
            carrier: self.carrier,
            rtt_us: c.last_rtt_us,
            rtt_src,
            tx_bytes: c.tx_bytes,
            rx_bytes: c.rx_bytes,
            tx_pkts: c.tx_pkts,
            rx_pkts: c.rx_pkts,
            lost_pkts: None,
            cwnd: None,
            mtu: self.fixed_mtu,
            mtu_src,
            probes_sent: Some(c.probes_sent),
            probes_lost: Some(probes_lost),
        };
        match quic {
            None => {},
            Some(q) => {
                s.rtt_us = Some(q.rtt_us);
                s.rtt_src = Some(RttSource::Quic);
                s.cwnd = Some(q.cwnd);
                s.lost_pkts = Some(q.lost_packets);
                s.mtu =
                match q.max_datagram_size {
                    Some(n) => Some((n % 65536) as u16),
                    None => None,
                };
                s.mtu_src = Some(MtuSource::Discovered);
            },
        }
        s
    }
}

/// A client tries for a direct path exactly where it may, the session goes
/// through a relay and the peers can signal to each other; where it does not
/// try, the last thing that is reported of the session's start says so.
pub proof fn relayed_sessions_are_upgraded(enabled: bool, p: RelayProtocol, s: PeerSession)
    ensures
        client_tries_direct(enabled, p, s) <==> enabled && s.signal is Some && PathKind::of(p)
            == PathKind::Relay,
        ({
            let reports = initiator_reports(s, p, enabled);
            &&& reports[0].kind == StepKind::SessionUp
            &&& reports.len() == 1 + (if s.quic {
                0int
            } else {
                1int
            }) + (if client_tries_direct(enabled, p, s) {
                0int
            } else {
                1int
            })
            &&& !s.quic ==> reports[1].kind == StepKind::Mtu
            &&& !client_tries_direct(enabled, p, s) ==> reports.last().ending is Skipped
        }),
{
}

/// A dial is reported as done exactly where a session came up; otherwise the
/// report tells the failure, and a dial that took too long failed for that.
pub proof fn dials_are_reported(t: Target, end: DialEnd)
    ensures
        dial_report(t, end).kind == StepKind::RelayDial,
        dial_report(t, end).via == Some(t.0.text()),
        dial_report(t, end).ending is Done <==> end is Up,
        end matches DialEnd::Failed(f) ==> dial_report(t, end).ending == EndingView::Failed(f.view()),
        end is TimedOut ==> (dial_report(t, end).ending matches EndingView::Failed(f) && f.reason
            == Reason::ConnectTimeout),
{
}

/// A sample holds the counters of the link as they are. Of its probes, those
/// that were not answered are lost. With figures of the carrier's own, the
/// round trip and the packet size are the carrier's; otherwise they are the
/// last probe's and the declared one.
pub proof fn samples_hold_the_counters(m: SessionMeters, c: LinkCounters, quic: Option<QuicStats>)
    requires
        c.probes_answered <= c.probes_sent,
    ensures
        ({
            let s = sample_of(m, c, quic);
            &&& s.tx_bytes == c.tx_bytes && s.rx_bytes == c.rx_bytes
            &&& s.tx_pkts == c.tx_pkts && s.rx_pkts == c.rx_pkts
            &&& s.path == m.path && s.carrier == m.carrier
            &&& s.probes_sent == Some(c.probes_sent)
            &&& s.probes_lost is Some && s.probes_lost->0 + c.probes_answered == c.probes_sent
            &&& s.rtt_us is Some <==> s.rtt_src is Some
            &&& quic is None ==> s.rtt_us == c.last_rtt_us && s.mtu == m.fixed_mtu && s.lost_pkts is None
                && s.cwnd is None
            &&& quic matches Some(q) ==> s.rtt_us == Some(q.rtt_us) && s.lost_pkts == Some(
                q.lost_packets,
            ) && s.cwnd == Some(q.cwnd) && (s.mtu is Some <==> q.max_datagram_size is Some)
        }),
{
}

/// A record names the configured endpoints in their order, each with its host,
/// its port, and the carrier and the path that its protocol makes for.
pub proof fn endpoints_are_recorded_in_order(relays: Seq<RelayEndpoint>, i: int)
    requires
        0 <= i < relays.len(),
    ensures
        refs_of(relays).len() == relays.len(),
        refs_of(relays)[i].host == relays[i].host,
        refs_of(relays)[i].port == relays[i].port,
        refs_of(relays)[i].addr is None,
        relays[i].protocol == RelayProtocol::Direct <==> refs_of(relays)[i].path
            == PathKind::DirectAdvertised,
        relays[i].protocol != RelayProtocol::Direct <==> refs_of(relays)[i].path == PathKind::Relay,
        relays[i].protocol == RelayProtocol::NoiseUdp <==> refs_of(relays)[i].carrier
            == Carrier::NoiseUdp,
        relays[i].protocol == RelayProtocol::TcpTls <==> refs_of(relays)[i].carrier
            == Carrier::TcpTls,
{
}

} // verus!
