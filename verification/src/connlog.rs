//! The sharer's connection log: which client reached which destination, and
//! when.
//!
//! What happens in a session becomes events, and events become rows of a
//! database. A record that is left out is never left out silently: one that
//! the rate limit or a full queue drops, a failed write and a clock that
//! jumped each leave a mark.

use vstd::prelude::*;
use vstd::string::*;
use crate::addr::{IpAddr, SocketAddr};
use crate::outside;
use crate::record;
use crate::text;

verus! {

/// The version of the tables.
pub const FORMAT_VERSION: i64 = 1;

/// How many events wait for the writer before more are dropped.
pub const CHANNEL_CAPACITY: usize = 16384;

/// By how much the wall clock may leave the steady clock before that is
/// marked, in milliseconds.
pub const CLOCK_JUMP_THRESHOLD_MS: i64 = 2_000;

/// How often old records are looked for, in milliseconds.
pub const RETENTION_SWEEP_INTERVAL: u64 = 21_600_000;

/// How many addresses are recorded for a session.
pub const MAX_SESSION_ADDRS: usize = 64;

/// What is logged, and for how long. Durations are in milliseconds.
#[derive(Debug, Clone, PartialEq, Eq)]
pub struct ConnLogConfig {
    /// The directory that holds the database.
    pub dir: String,
    /// Records older than this are deleted, unless a hold covers them.
    pub retention: u64,
    /// Whether the destinations of flows are recorded.
    pub log_destinations: bool,
    /// Whether flows that were refused are recorded.
    pub log_blocked: bool,
    /// How often events are written at least.
    pub flush_interval: u64,
    /// How long a UDP flow may be idle.
    pub udp_idle: u64,
    /// How long a TCP flow may be idle.
    pub tcp_idle: u64,
    /// How many flows are recorded per second and session.
    pub max_flow_records_per_sec: u32,
    /// How many flows are recorded at once.
    pub flow_record_burst: u32,
}

impl ConnLogConfig {
    /// The defaults, for a directory.
    pub fn in_dir(dir: String) -> (c: ConnLogConfig)
        ensures
            c.dir == dir,
            c.retention == 90 * 24 * 60 * 60 * 1000,
            c.log_destinations && c.log_blocked,
            c.flush_interval == 1_000,
            c.udp_idle == 30_000,
            c.tcp_idle == 600_000,
            c.max_flow_records_per_sec == 25,
            c.flow_record_burst == 250,
    {
        ConnLogConfig {
            dir,
            retention: 7_776_000_000,
            log_destinations: true,
            log_blocked: true,
            flush_interval: 1_000,
            udp_idle: 30_000,
            tcp_idle: 600_000,
            max_flow_records_per_sec: 25,
            flow_record_burst: 250,
        }
    }
}

/// Where a recorded address comes from.
#[derive(Debug, Clone, Copy, PartialEq, Eq, Structural)]
pub enum AddrKind {
    /// The client has told it.
    Reported,
    /// The client's punch packets came from it.
    PunchVerified,
    /// The client's direct connection comes from it.
    Verified,
    /// The sharer's own public address.
    SharerPublic,
}

impl AddrKind {
    /// The code of the kind.
    pub open spec fn code(self) -> Seq<char> {
        match self {
            AddrKind::Reported => "reported"@,
            AddrKind::PunchVerified => "punch_verified"@,
            AddrKind::Verified => "verified"@,
            AddrKind::SharerPublic => "sharer_public"@,
        }
    }

    /// The code of the kind.
    pub fn as_str(self) -> (s: &'static str)
        ensures
            s@ == self.code(),
    {
        match self {
            AddrKind::Reported => "reported",
            AddrKind::PunchVerified => "punch_verified",
            AddrKind::Verified => "verified",
            AddrKind::SharerPublic => "sharer_public",
        }
    }
}

/// The number for a record that a random number gives: its upper 63 bits,
/// where they are not all zero.
pub open spec fn id_from(random: u64) -> Option<i64> {
    if random / 2 == 0 {
        None
    } else {
        Some((random / 2) as i64)
    }
}

/// The number for a record that a random number gives.
pub fn usable_id(random: u64) -> (id: Option<i64>)
    ensures
        id == id_from(random),
{
    let half: u64 = random / 2;
    if half == 0 {
        None
    } else {
        Some(half as i64)
    }
}

/// A random number for a record, which is positive. `None` where the draw
/// cannot be used, and another is to be made.
pub fn random_id() -> (id: Option<i64>)
    ensures
        id matches Some(n) ==> n > 0,
{
    usable_id(outside::random_u64())
}

/// The milliseconds since 1970 of a clock that may be before it.
pub fn now_ms(since_epoch_ms: Option<u64>) -> (ms: i64)
    ensures
        ms == (match since_epoch_ms {
            Some(n) => if n <= i64::MAX {
                n as int
            } else {
                n - 0x1_0000_0000_0000_0000
            },
            None => 0int,
        }),
{
    match since_epoch_ms {
        Some(n) => if n <= 0x7fff_ffff_ffff_ffff {
            n as i64
        } else {
            -((0xffff_ffff_ffff_ffff - n) as i64) - 1
        },
        None => 0,
    }
}

/// What happens that is logged.
#[derive(Debug, PartialEq, Eq)]
pub enum Ev {
    SessionStart { id: i64, ts_ms: i64, relay: SocketAddr },
    SessionAddr { session: i64, ts_ms: i64, addr_kind: AddrKind, addr: SocketAddr },
    SessionEnd { session: i64, ts_ms: i64, reason: &'static str },
    /// A flow was opened; `confirmed` says that its traffic has left the exit.
    FlowOpen {
        id: i64,
        session: i64,
        ts_ms: i64,
        proto: u8,
        src: SocketAddr,
        dst: SocketAddr,
        confirmed: bool,
    },
    /// A flow was refused.
    FlowBlocked { id: i64, session: i64, ts_ms: i64, proto: u8, src: SocketAddr, dst: SocketAddr },
    FlowEstablished { id: i64, egress: Option<SocketAddr> },
    FlowClose { id: i64, last_ms: i64, up: u64, down: u64, established: bool, reason: &'static str },
    Mark { ts_ms: i64, kind: &'static str, detail: String },
}

/// Whether an event is a mark of this kind with these words.
pub open spec fn is_mark(e: Ev, ts_ms: i64, kind: Seq<char>, detail: Seq<char>) -> bool {
    e matches Ev::Mark { ts_ms: t, kind: k, detail: d } && t == ts_ms && k@ == kind && d@ == detail
}

/// A bucket of tokens, counted in thousandths, that refills at a rate; and how
/// many records were left out since when, for want of a token.
#[derive(Debug, Clone, Copy, PartialEq, Eq)]
pub struct Throttle {
    pub rate_per_sec: u32,
    pub burst: u32,
    pub milli_tokens: u64,
    pub last_ms: i64,
    pub suppressed: u64,
    pub suppressed_from_ms: i64,
    pub suppressed_to_ms: i64,
}

/// A full bucket. A rate or a size of zero counts as one.
pub open spec fn full_bucket(rate_per_sec: u32, burst: u32) -> Throttle {
    let size: u32 = if burst == 0 {
        1
    } else {
        burst
    };
    Throttle {
        rate_per_sec: if rate_per_sec == 0 {
            1
        } else {
            rate_per_sec
        },
        burst: size,
        milli_tokens: (size * 1000) as u64,
        last_ms: 0,
        suppressed: 0,
        suppressed_from_ms: 0,
        suppressed_to_ms: 0,
    }
}

/// How many thousandths of a token a bucket holds at `now`.
pub open spec fn refilled(t: Throttle, now: i64) -> nat {
    let gone = if t.last_ms == 0 || now <= t.last_ms {
        0
    } else {
        now - t.last_ms
    };
    let full = t.milli_tokens + gone * t.rate_per_sec;
    if full < t.burst * 1000 {
        full as nat
    } else {
        (t.burst * 1000) as nat
    }
}

/// Since when, until when and how many records were left out.
pub open spec fn summary(t: Throttle) -> Option<(i64, i64, u64)> {
    if t.suppressed == 0 {
        None
    } else {
        Some((t.suppressed_from_ms, t.suppressed_to_ms, t.suppressed))
    }
}

/// A bucket after a record was asked for at `now`, whether it may be made, and
/// the account of what was left out before, once one may be made again.
pub open spec fn allowed(t: Throttle, now: i64) -> (Throttle, bool, Option<(i64, i64, u64)>) {
    let tokens = refilled(t, now);
    if tokens >= 1000 {
        (
            Throttle { milli_tokens: (tokens - 1000) as u64, last_ms: now, suppressed: 0, ..t },
            true,
            summary(t),
        )
    } else {
        (
            Throttle {
                milli_tokens: tokens as u64,
                last_ms: now,
                suppressed: if t.suppressed < u64::MAX {
                    (t.suppressed + 1) as u64
                } else {
                    t.suppressed
                },
                suppressed_from_ms: if t.suppressed == 0 {
                    now
                } else {
                    t.suppressed_from_ms
                },
                suppressed_to_ms: now,
                ..t
            },
            false,
            None,
        )
    }
}

impl Throttle {
    /// Whether the bucket holds no more than it can.
    pub open spec fn wf(&self) -> bool {
        &&& self.rate_per_sec > 0
        &&& self.burst > 0
        &&& self.milli_tokens <= self.burst * 1000
    }

    /// A full bucket.
    pub fn new(rate_per_sec: u32, burst: u32) -> (t: Throttle)
        ensures
            t.wf(),
            t == full_bucket(rate_per_sec, burst),
    {
        let rate: u32 = if rate_per_sec == 0 {
            1
        } else {
            rate_per_sec
        };
        let size: u32 = if burst == 0 {
            1
        } else {
            burst
        };
        Throttle {
            rate_per_sec: rate,
            burst: size,
            milli_tokens: size as u64 * 1000,
            last_ms: 0,
            suppressed: 0,
            suppressed_from_ms: 0,
            suppressed_to_ms: 0,
        }
    }

    /// Whether a record may be made at `now`; and, once one may be made again,
    /// since when, until when and how many were left out.
    pub fn allow(&mut self, now_ms: i64) -> (r: (bool, Option<(i64, i64, u64)>))
        requires
            old(self).wf(),
        ensures
            final(self).wf(),
            (*final(self), r.0, r.1) == allowed(*old(self), now_ms),
    {
        let gone: u128 = if self.last_ms == 0 || now_ms <= self.last_ms {
            0
        } else {
            (now_ms as i128 - self.last_ms as i128) as u128
        };
        let rate: u128 = self.rate_per_sec as u128;
        assert(gone <= 0xffff_ffff_ffff_ffff);
        assert(gone * rate <= 0xffff_ffff_ffff_ffff * 0xffff_ffff) by (nonlinear_arith)
            requires
                gone <= 0xffff_ffff_ffff_ffff,
                rate <= 0xffff_ffff,
        ;
        let full: u128 = self.milli_tokens as u128 + gone * rate;
        let cap: u128 = self.burst as u128 * 1000;
        let tokens: u64 = if full < cap {
            full as u64
        } else {
            self.burst as u64 * 1000
        };
        assert(tokens == refilled(*self, now_ms));
        self.last_ms = now_ms;
        if tokens >= 1000 {
            self.milli_tokens = tokens - 1000;
            let s = self.take_summary();
            (true, s)
        } else {
            self.milli_tokens = tokens;
            if self.suppressed == 0 {
                self.suppressed_from_ms = now_ms;
            }
            if self.suppressed < u64::MAX {
                self.suppressed = self.suppressed + 1;
            }
            self.suppressed_to_ms = now_ms;
            (false, None)
        }
    }

    /// Since when, until when and how many records were left out; the account
    /// starts anew.
    pub fn take_summary(&mut self) -> (s: Option<(i64, i64, u64)>)
        ensures
            s == summary(*old(self)),
            *final(self) == (Throttle { suppressed: 0, ..*old(self) }),
    {
        if self.suppressed == 0 {
            return None;
        }
        let s = (self.suppressed_from_ms, self.suppressed_to_ms, self.suppressed);
        self.suppressed = 0;
        Some(s)
    }
}

/// The words of a mark on records that were left out.
pub open spec fn throttle_detail(session: i64, s: (i64, i64, u64)) -> Seq<char> {
    "{\"session\":"@ + text::signed(session as int) + ",\"suppressed\":"@ + text::dec(s.2 as nat)
        + ",\"from_ms\":"@ + text::signed(s.0 as int) + ",\"to_ms\":"@ + text::signed(s.1 as int)
        + "}"@
}

fn throttle_mark(session: i64, now: i64, s: (i64, i64, u64)) -> (e: Ev)
    ensures
        is_mark(e, now, "flow_throttle"@, throttle_detail(session, s)),
{
    let mut d = String::from_str("{\"session\":");
    d.append(text::signed_text(session).as_str());
    d.append(",\"suppressed\":");
    d.append(text::dec_text(s.2).as_str());
    d.append(",\"from_ms\":");
    d.append(text::signed_text(s.0).as_str());
    d.append(",\"to_ms\":");
    d.append(text::signed_text(s.1).as_str());
    d.append("}");
    assert(d@ =~= throttle_detail(session, s));
    Ev::Mark { ts_ms: now, kind: "flow_throttle", detail: d }
}

/// The mark on records that were left out, as a sequence of at most one.
pub open spec fn throttle_marks(es: Seq<Ev>, session: i64, now: i64, s: Option<(i64, i64, u64)>) -> bool {
    match s {
        Some(x) => es.len() == 1 && is_mark(
            es[0],
            now,
            "flow_throttle"@,
            throttle_detail(session, x),
        ),
        None => es.len() == 0,
    }
}

/// The log of one session.
#[derive(Debug, PartialEq, Eq)]
pub struct SessionLog {
    pub id: i64,
    pub log_destinations: bool,
    pub log_blocked: bool,
    pub udp_idle: u64,
    pub tcp_idle: u64,
    pub throttle: Throttle,
    pub seen: Vec<(AddrKind, SocketAddr)>,
    pub ended: bool,
}

fn seen_before(v: &Vec<(AddrKind, SocketAddr)>, kind: AddrKind, a: &SocketAddr) -> (r: bool)
    ensures
        r == v@.contains((kind, *a)),
{
    let mut i: usize = 0;
    while i < v.len()
        invariant
            i <= v.len(),
            forall|j: int| 0 <= j < i ==> v@[j] != (kind, *a),
        decreases v.len() - i,
    {
        if v[i].0 == kind && v[i].1.same(a) {
            assert(v@[i as int] == (kind, *a));
            return true;
        }
        i = i + 1;
    }
    false
}

impl SessionLog {
    /// Whether the bucket is well-formed and no address was recorded twice,
    /// nor more than may be.
    pub open spec fn wf(&self) -> bool {
        &&& self.throttle.wf()
        &&& self.seen@.no_duplicates()
        &&& self.seen@.len() <= MAX_SESSION_ADDRS
    }

    /// The log of a new session, and the event that it starts with. `relay` is
    /// the address that the session came from.
    pub fn start(cfg: &ConnLogConfig, id: i64, now: i64, relay: SocketAddr) -> (r: (SessionLog, Ev))
        ensures
            r.0.wf(),
            r.0.id == id,
            r.0.log_destinations == cfg.log_destinations,
            r.0.log_blocked == cfg.log_blocked,
            r.0.udp_idle == cfg.udp_idle,
            r.0.tcp_idle == cfg.tcp_idle,
            r.0.seen@.len() == 0,
            !r.0.ended,
            r.0.throttle == full_bucket(cfg.max_flow_records_per_sec, cfg.flow_record_burst),
            r.1 == (Ev::SessionStart { id, ts_ms: now, relay }),
    {
        let log = SessionLog {
            id,
            log_destinations: cfg.log_destinations,
            log_blocked: cfg.log_blocked,
            udp_idle: cfg.udp_idle,
            tcp_idle: cfg.tcp_idle,
            throttle: Throttle::new(cfg.max_flow_records_per_sec, cfg.flow_record_burst),
            seen: Vec::new(),
            ended: false,
        };
        (log, Ev::SessionStart { id, ts_ms: now, relay })
    }

    /// Records an address once for each kind, up to a limit.
    pub fn addr(&mut self, kind: AddrKind, addr: SocketAddr, now: i64) -> (e: Option<Ev>)
        requires
            old(self).wf(),
        ensures
            final(self).wf(),
            e is Some <==> old(self).seen@.len() < MAX_SESSION_ADDRS && !old(self).seen@.contains(
                (kind, addr),
            ),
            e matches Some(ev) ==> ev == (Ev::SessionAddr {
                session: old(self).id,
                ts_ms: now,
                addr_kind: kind,
                addr,
            }) && final(self).seen@ == old(self).seen@.push((kind, addr)),
            e is None ==> final(self).seen@ == old(self).seen@,
            final(self).id == old(self).id,
            final(self).throttle == old(self).throttle,
            final(self).ended == old(self).ended,
            final(self).log_destinations == old(self).log_destinations,
            final(self).log_blocked == old(self).log_blocked,
            final(self).udp_idle == old(self).udp_idle,
            final(self).tcp_idle == old(self).tcp_idle,
    {
        if self.seen.len() >= MAX_SESSION_ADDRS || seen_before(&self.seen, kind, &addr) {
            return None;
        }
        self.seen.push((kind, addr));
        Some(Ev::SessionAddr { session: self.id, ts_ms: now, addr_kind: kind, addr })
    }

    /// Whether a flow may be recorded at `now`, and the mark on those that were
    /// left out before.
    fn allow_flow_record(&mut self, now: i64) -> (r: (bool, Vec<Ev>))
        requires
            old(self).wf(),
        ensures
            final(self).wf(),
            ({
                let (t, ok, s) = allowed(old(self).throttle, now);
                &&& r.0 == ok
                &&& throttle_marks(r.1@, old(self).id, now, s)
                &&& *final(self) == (SessionLog { throttle: t, ..*old(self) })
            }),
    {
        let mut marks: Vec<Ev> = Vec::new();
        let (ok, s) = self.throttle.allow(now);
        match s {
            Some(x) => {
                marks.push(throttle_mark(self.id, now, x));
            },
            None => {},
        }
        (ok, marks)
    }

    /// Opens the record of a flow under the number `id`, unless destinations
    /// are not recorded or the rate limit is reached. The events come with a
    /// mark on records that were left out before.
    pub fn flow_open(
        &mut self,
        id: i64,
        proto: u8,
        src: SocketAddr,
        dst: SocketAddr,
        confirmed: bool,
        now: i64,
    ) -> (r: (Vec<Ev>, Option<FlowGuard>))
        requires
            old(self).wf(),
        ensures
            final(self).wf(),
            !old(self).log_destinations ==> *final(self) == *old(self) && r.0@.len() == 0 && r.1 is None,
            old(self).log_destinations ==> ({
                let (t, ok, s) = allowed(old(self).throttle, now);
                &&& *final(self) == (SessionLog { throttle: t, ..*old(self) })
                &&& ok ==> r.1 == Some(new_flow(id)) && r.0@.len() > 0 && r.0@.last() == (
                Ev::FlowOpen { id, session: old(self).id, ts_ms: now, proto, src, dst, confirmed })
                    && throttle_marks(r.0@.drop_last(), old(self).id, now, s)
                &&& !ok ==> r.1 is None && r.0@.len() == 0
            }),
    {
        if !self.log_destinations {
            return (Vec::new(), None);
        }
        let (ok, marks) = self.allow_flow_record(now);
        let mut es = marks;
        if !ok {
            return (es, None);
        }
        let ghost before = es@;
        es.push(Ev::FlowOpen { id, session: self.id, ts_ms: now, proto, src, dst, confirmed });
        assert(es@.drop_last() =~= before);
        (es, Some(FlowGuard { id, up: 0, down: 0, established: false, closed: false }))
    }

    /// Records a flow that was refused, under the number `id`.
    pub fn flow_blocked(
        &mut self,
        id: i64,
        proto: u8,
        src: SocketAddr,
        dst: SocketAddr,
        now: i64,
    ) -> (r: Vec<Ev>)
        requires
            old(self).wf(),
        ensures
            final(self).wf(),
            !(old(self).log_destinations && old(self).log_blocked) ==> *final(self) == *old(self)
                && r@.len() == 0,
            old(self).log_destinations && old(self).log_blocked ==> ({
                let (t, ok, s) = allowed(old(self).throttle, now);
                &&& *final(self) == (SessionLog { throttle: t, ..*old(self) })
                &&& ok ==> r@.len() > 0 && r@.last() == (Ev::FlowBlocked {
                    id,
                    session: old(self).id,
                    ts_ms: now,
                    proto,
                    src,
                    dst,
                }) && throttle_marks(r@.drop_last(), old(self).id, now, s)
                &&& !ok ==> r@.len() == 0
            }),
    {
        if !self.log_destinations || !self.log_blocked {
            return Vec::new();
        }
        let (ok, marks) = self.allow_flow_record(now);
        let mut es = marks;
        if !ok {
            return es;
        }
        let ghost before = es@;
        es.push(Ev::FlowBlocked { id, session: self.id, ts_ms: now, proto, src, dst });
        assert(es@.drop_last() =~= before);
        es
    }

    /// Ends the session, once: later calls give nothing.
    pub fn end(&mut self, reason: &'static str, now: i64) -> (r: Vec<Ev>)
        requires
            old(self).wf(),
        ensures
            final(self).wf(),
            final(self).ended,
            old(self).ended ==> *final(self) == *old(self) && r@.len() == 0,
            !old(self).ended ==> {
                &&& *final(self) == (SessionLog {
                    ended: true,
                    throttle: Throttle { suppressed: 0, ..old(self).throttle },
                    ..*old(self)
                })
                &&& r@.len() > 0
                &&& r@.last() == (Ev::SessionEnd { session: old(self).id, ts_ms: now, reason })
                &&& throttle_marks(
                    r@.drop_last(),
                    old(self).id,
                    now,
                    summary(old(self).throttle),
                )
            },
    {
        let mut es: Vec<Ev> = Vec::new();
        if self.ended {
            return es;
        }
        self.ended = true;
        match self.throttle.take_summary() {
            Some(s) => {
                es.push(throttle_mark(self.id, now, s));
            },
            None => {},
        }
        let ghost before = es@;
        es.push(Ev::SessionEnd { session: self.id, ts_ms: now, reason });
        assert(es@.drop_last() =~= before);
        es
    }
}

/// The record of one flow: its number, the bytes each way, whether it was
/// established and whether it was closed.
#[derive(Debug, Clone, Copy, PartialEq, Eq)]
pub struct FlowGuard {
    pub id: i64,
    pub up: u64,
    pub down: u64,
    pub established: bool,
    pub closed: bool,
}

/// The record of a flow that was opened.
pub open spec fn new_flow(id: i64) -> FlowGuard {
    FlowGuard { id, up: 0, down: 0, established: false, closed: false }
}

/// A counter after `more`; it starts again after its largest value.
pub open spec fn counted(n: u64, more: u64) -> u64 {
    if n + more > u64::MAX {
        (n + more - 0x1_0000_0000_0000_0000) as u64
    } else {
        (n + more) as u64
    }
}

fn count(n: u64, more: u64) -> (m: u64)
    ensures
        m == counted(n, more),
{
    let room: u64 = u64::MAX - n;
    if more > room {
        more - room - 1
    } else {
        n + more
    }
}

impl FlowGuard {
    /// The flow is established; `egress` is the address that it left from,
    /// where that is known. Later calls give nothing.
    pub fn established(&mut self, egress: Option<SocketAddr>) -> (e: Option<Ev>)
        ensures
            *final(self) == (FlowGuard { established: true, ..*old(self) }),
            e == (if old(self).established {
                None
            } else {
                Some(Ev::FlowEstablished { id: old(self).id, egress })
            }),
    {
        if self.established {
            return None;
        }
        self.established = true;
        Some(Ev::FlowEstablished { id: self.id, egress })
    }

    /// Counts bytes from the client.
    pub fn add_up(&mut self, n: u64)
        ensures
            *final(self) == (FlowGuard { up: counted(old(self).up, n), ..*old(self) }),
    {
        self.up = count(self.up, n);
    }

    /// Counts bytes to the client.
    pub fn add_down(&mut self, n: u64)
        ensures
            *final(self) == (FlowGuard { down: counted(old(self).down, n), ..*old(self) }),
    {
        self.down = count(self.down, n);
    }

    /// Closes the flow, which was last used `idle_for` milliseconds ago. Later
    /// calls give nothing.
    pub fn close(&mut self, reason: &'static str, idle_for: u64, now: i64) -> (e: Option<Ev>)
        requires
            i64::MIN <= now - idle_for,
        ensures
            *final(self) == (FlowGuard { closed: true, ..*old(self) }),
            e == (if old(self).closed {
                None
            } else {
                Some(
                    Ev::FlowClose {
                        id: old(self).id,
                        last_ms: (now - idle_for) as i64,
                        up: old(self).up,
                        down: old(self).down,
                        established: old(self).established,
                        reason,
                    },
                )
            }),
    {
        if self.closed {
            return None;
        }
        self.closed = true;
        let last: i64 = (now as i128 - idle_for as i128) as i64;
        Some(
            Ev::FlowClose {
                id: self.id,
                last_ms: last,
                up: self.up,
                down: self.down,
                established: self.established,
                reason,
            },
        )
    }
}

/// How a run of requests for records ended.
pub struct ThrottleRun {
    pub throttle: Throttle,
    /// How many records were made.
    pub made: nat,
    /// How many were left out.
    pub left_out: nat,
    /// How many of those the accounts that were given have told of.
    pub told: nat,
}

/// A bucket after records were asked for at these times.
pub open spec fn throttled(t: Throttle, times: Seq<i64>) -> ThrottleRun
    decreases times.len(),
{
    if times.len() == 0 {
        ThrottleRun { throttle: t, made: 0, left_out: 0, told: 0 }
    } else {
        let before = throttled(t, times.drop_last());
        let (next, ok, s) = allowed(before.throttle, times.last());
        ThrottleRun {
            throttle: next,
            made: before.made + if ok {
                1nat
            } else {
                0nat
            },
            left_out: before.left_out + if ok {
                0nat
            } else {
                1nat
            },
            told: before.told + (match s {
                Some(x) => x.2 as nat,
                None => 0nat,
            }),
        }
    }
}

/// Whether times do not go backwards.
pub open spec fn in_order(times: Seq<i64>) -> bool {
    forall|i: int, j: int| 0 <= i <= j < times.len() ==> times[i] <= times[j]
}

/// In any stretch of time no more records are made than the bucket held and
/// the rate allows in that time.
pub proof fn rate_is_limited(t: Throttle, times: Seq<i64>)
    requires
        t.wf(),
        t.last_ms == 0,
        times.len() > 0,
        times[0] > 0,
        in_order(times),
    ensures
        throttled(t, times).throttle.wf(),
        throttled(t, times).throttle.last_ms == times.last(),
        throttled(t, times).throttle.rate_per_sec == t.rate_per_sec,
        throttled(t, times).made * 1000 + throttled(t, times).throttle.milli_tokens
            <= t.milli_tokens + (times.last() - times[0]) * t.rate_per_sec,
    decreases times.len(),
{
    let init = times.drop_last();
    let before = throttled(t, init);
    if init.len() > 0 {
        rate_is_limited(t, init);
        let a = times[0];
        let b = init.last();
        let c = times.last();
        let r = t.rate_per_sec;
        assert(b <= c);
        assert((b - a) * r + (c - b) * r == (c - a) * r) by (nonlinear_arith);
        assert(refilled(before.throttle, c) <= before.throttle.milli_tokens + (c - b) * r);
    } else {
        assert(throttled(t, init) == (ThrottleRun { throttle: t, made: 0, left_out: 0, told: 0 }));
        assert(times.last() == times[0]);
    }
}

/// Every record that was left out is told of: in an account that was given, or
/// in the one that is being kept.
pub proof fn nothing_is_left_out_silently(t: Throttle, times: Seq<i64>)
    requires
        t.wf(),
        t.suppressed == 0,
        times.len() < u64::MAX,
    ensures
        throttled(t, times).left_out == throttled(t, times).told + throttled(
            t,
            times,
        ).throttle.suppressed,
        throttled(t, times).made + throttled(t, times).left_out == times.len(),
    decreases times.len(),
{
    if times.len() > 0 {
        nothing_is_left_out_silently(t, times.drop_last());
    }
}

/// What the writer of the log keeps in mind: a moment on the wall clock and on
/// a steady clock, how many dropped events it has told of, when it last looked
/// for old records, and since when writing fails.
#[derive(Debug, Clone, Copy, PartialEq, Eq)]
pub struct WriterState {
    pub anchor_mono_ms: u64,
    pub anchor_wall_ms: i64,
    pub dropped_seen: u64,
    pub last_sweep: Option<u64>,
    pub degraded_since_ms: Option<i64>,
}

/// By how much the wall clock has left the steady clock.
pub open spec fn drift(s: WriterState, wall: i64, mono: u64) -> int {
    wall - (s.anchor_wall_ms + (mono - s.anchor_mono_ms))
}

/// Whether the wall clock has jumped.
pub open spec fn jumped(s: WriterState, wall: i64, mono: u64) -> bool {
    drift(s, wall, mono) > CLOCK_JUMP_THRESHOLD_MS || drift(s, wall, mono)
        < -CLOCK_JUMP_THRESHOLD_MS
}

/// The words of a mark on a clock that jumped.
pub open spec fn jump_detail(drift: int) -> Seq<char> {
    "{\"drift_ms\":"@ + text::signed(drift) + "}"@
}

/// How many events were dropped since `seen` of them were told of.
pub open spec fn newly_dropped(seen: u64, dropped: u64) -> nat {
    if dropped > seen {
        (dropped - seen) as nat
    } else {
        0
    }
}

/// How many dropped events have been told of once `dropped` were counted.
pub open spec fn seen_after(seen: u64, dropped: u64) -> u64 {
    if dropped > seen {
        dropped
    } else {
        seen
    }
}

/// How many dropped events the marks of some rounds tell of, with the counts
/// that the rounds found.
pub open spec fn told_in_marks(seen: u64, counts: Seq<u64>) -> nat
    decreases counts.len(),
{
    if counts.len() == 0 {
        0
    } else {
        newly_dropped(seen, counts[0]) + told_in_marks(seen_after(seen, counts[0]), counts.skip(1))
    }
}

/// The marks tell of every event that was dropped, and of none twice: after
/// any number of rounds they add up to what the counter has grown by.
pub proof fn every_drop_is_marked(seen: u64, counts: Seq<u64>)
    requires
        counts.len() > 0,
        seen <= counts[0],
        forall|i: int, j: int| 0 <= i <= j < counts.len() ==> counts[i] <= counts[j],
    ensures
        told_in_marks(seen, counts) == counts.last() - seen,
    decreases counts.len(),
{
    let rest = counts.skip(1);
    if rest.len() == 0 {
        assert(told_in_marks(seen_after(seen, counts[0]), rest) == 0);
    } else {
        assert(rest[0] == counts[1]);
        assert forall|i: int, j: int| 0 <= i <= j < rest.len() implies rest[i] <= rest[j] by {
            assert(rest[i] == counts[i + 1] && rest[j] == counts[j + 1]);
        }
        every_drop_is_marked(counts[0], rest);
        assert(rest.last() == counts.last());
    }
}

/// The words of a mark on events that were dropped.
pub open spec fn gap_detail(n: nat) -> Seq<char> {
    "{\"reason\":\"channel_full\",\"dropped\":"@ + text::dec(n) + "}"@
}

/// The words of a mark on a failure to write.
pub open spec fn failure_detail(since: i64) -> Seq<char> {
    "{\"reason\":\"write_error\",\"from_ms\":"@ + text::signed(since as int) + "}"@
}

/// What becomes of a batch of events after an attempt to write it.
#[derive(Debug, PartialEq, Eq)]
pub struct FlushOutcome {
    /// Whether the batch is done with.
    pub clear: bool,
    /// How many events are counted as dropped.
    pub dropped: u64,
    /// The mark to write at once.
    pub mark: Option<Ev>,
    /// Whether to report that writing fails.
    pub report: bool,
}

/// Whether it is time to look for old records: at first, and each time the
/// interval has passed.
pub open spec fn sweep_is_due(s: WriterState, mono: u64) -> bool {
    s.last_sweep matches Some(t) ==> mono - t >= RETENTION_SWEEP_INTERVAL
}

impl WriterState {
    /// A writer that starts now.
    pub fn new(wall: i64, mono: u64) -> (s: WriterState)
        ensures
            s == (WriterState {
                anchor_mono_ms: mono,
                anchor_wall_ms: wall,
                dropped_seen: 0,
                last_sweep: None,
                degraded_since_ms: None,
            }),
    {
        WriterState {
            anchor_mono_ms: mono,
            anchor_wall_ms: wall,
            dropped_seen: 0,
            last_sweep: None,
            degraded_since_ms: None,
        }
    }

    /// What is due at this time: marks on a clock that jumped and on events
    /// that were dropped, and whether to look for old records. `dropped` is how
    /// many events were dropped so far.
    pub fn housekeeping(&mut self, wall: i64, mono: u64, dropped: u64) -> (r: (Vec<Ev>, bool))
        requires
            old(self).anchor_mono_ms <= mono,
            i64::MIN <= drift(*old(self), wall, mono) <= i64::MAX,
        ensures
            ({
                let jump = jumped(*old(self), wall, mono);
                let gap = dropped > old(self).dropped_seen;
                let sweep = sweep_is_due(*old(self), mono);
                let at = if jump {
                    1int
                } else {
                    0int
                };
                &&& r.0@.len() == at + if gap {
                    1int
                } else {
                    0int
                }
                &&& jump ==> is_mark(
                    r.0@[0],
                    wall,
                    "clock_jump"@,
                    jump_detail(drift(*old(self), wall, mono)),
                )
                &&& gap ==> is_mark(
                    r.0@[at],
                    wall,
                    "log_gap"@,
                    gap_detail(newly_dropped(old(self).dropped_seen, dropped)),
                )
                &&& r.1 == sweep
                &&& *final(self) == (WriterState {
                    anchor_mono_ms: if jump {
                        mono
                    } else {
                        old(self).anchor_mono_ms
                    },
                    anchor_wall_ms: if jump {
                        wall
                    } else {
                        old(self).anchor_wall_ms
                    },
                    dropped_seen: seen_after(old(self).dropped_seen, dropped),
                    last_sweep: if sweep {
                        Some(mono)
                    } else {
                        old(self).last_sweep
                    },
                    ..*old(self)
                })
            }),
    {
        let mut es: Vec<Ev> = Vec::new();
        let expected: i128 = self.anchor_wall_ms as i128 + (mono - self.anchor_mono_ms) as i128;
        let off: i64 = (wall as i128 - expected) as i64;
        if off > CLOCK_JUMP_THRESHOLD_MS || off < -CLOCK_JUMP_THRESHOLD_MS {
            let d = String::from_str("{\"drift_ms\":").concat(
                text::signed_text(off).as_str(),
            ).concat("}");
            es.push(Ev::Mark { ts_ms: wall, kind: "clock_jump", detail: d });
            self.anchor_mono_ms = mono;
            self.anchor_wall_ms = wall;
        }
        if dropped > self.dropped_seen {
            let d = String::from_str("{\"reason\":\"channel_full\",\"dropped\":").concat(
                text::dec_text(dropped - self.dropped_seen).as_str(),
            ).concat("}");
            es.push(Ev::Mark { ts_ms: wall, kind: "log_gap", detail: d });
            self.dropped_seen = dropped;
        }
        let due: bool = match self.last_sweep {
            Some(t) => mono >= t && mono - t >= RETENTION_SWEEP_INTERVAL,
            None => true,
        };
        if due {
            self.last_sweep = Some(mono);
        }
        (es, due)
    }

    /// What follows on an attempt to write a batch of `len` events. A batch that
    /// failed is kept and tried again, unless it has grown too large; the first
    /// failure is reported, and the first success after it leaves a mark.
    pub fn flushed(&mut self, written: bool, len: usize, now: i64) -> (o: FlushOutcome)
        ensures
            written ==> {
                &&& o.clear && o.dropped == 0 && !o.report
                &&& o.mark is Some <==> old(self).degraded_since_ms is Some
                &&& o.mark matches Some(m) ==> is_mark(
                    m,
                    now,
                    "log_gap"@,
                    failure_detail(old(self).degraded_since_ms->0),
                )
                &&& *final(self) == (WriterState { degraded_since_ms: None, ..*old(self) })
            },
            !written ==> {
                &&& o.mark is None
                &&& o.report == (old(self).degraded_since_ms is None)
                &&& o.clear == (len >= CHANNEL_CAPACITY)
                &&& o.dropped == (if len >= CHANNEL_CAPACITY {
                    len as int
                } else {
                    0int
                })
                &&& *final(self) == (WriterState {
                    degraded_since_ms: match old(self).degraded_since_ms {
                        Some(t) => Some(t),
                        None => Some(now),
                    },
                    ..*old(self)
                })
            },
    {
        if written {
            let mark = match self.degraded_since_ms {
                Some(since) => {
                    let d = String::from_str(
                        "{\"reason\":\"write_error\",\"from_ms\":",
                    ).concat(text::signed_text(since).as_str()).concat("}");
                    Some(Ev::Mark { ts_ms: now, kind: "log_gap", detail: d })
                },
                None => None,
            };
            self.degraded_since_ms = None;
            return FlushOutcome { clear: true, dropped: 0, mark, report: false };
        }
        let report: bool = self.degraded_since_ms.is_none();
        if report {
            self.degraded_since_ms = Some(now);
        }
        let full: bool = len >= CHANNEL_CAPACITY;
        FlushOutcome {
            clear: full,
            dropped: if full {
                len as u64
            } else {
                0
            },
            mark: None,
            report,
        }
    }
}

/// How an event was handed to the writer.
#[derive(Debug, Clone, Copy, PartialEq, Eq, Structural)]
pub enum Handed {
    Taken,
    Full,
    Gone,
}

/// How many events were dropped, after one was handed over so.
pub fn dropped_after(dropped: u64, handed: Handed) -> (n: u64)
    ensures
        n == counted(
            dropped,
            if handed == Handed::Taken {
                0
            } else {
                1
            },
        ),
{
    match handed {
        Handed::Taken => dropped,
        Handed::Full | Handed::Gone => count(dropped, 1),
    }
}

/// A value that goes into a statement.
#[derive(Debug, PartialEq, Eq)]
pub enum Value {
    Int(i64),
    Size(u64),
    Flag(bool),
    Text(String),
    Null,
}

/// A value that goes into a statement.
pub enum ValueView {
    Int(i64),
    Size(u64),
    Flag(bool),
    Text(Seq<char>),
    Null,
}

impl Value {
    pub open spec fn view(&self) -> ValueView {
        match self {
            Value::Int(n) => ValueView::Int(*n),
            Value::Size(n) => ValueView::Size(*n),
            Value::Flag(b) => ValueView::Flag(*b),
            Value::Text(s) => ValueView::Text(s@),
            Value::Null => ValueView::Null,
        }
    }
}

/// A statement for the database, and the values that go into it.
#[derive(Debug, PartialEq, Eq)]
pub struct Statement {
    pub sql: String,
    pub params: Vec<Value>,
}

/// A statement for the database, and the values that go into it.
#[verifier::ext_equal]
pub struct StatementView {
    pub sql: Seq<char>,
    pub params: Seq<ValueView>,
}

/// The values that go into a statement.
pub open spec fn values(v: Seq<Value>) -> Seq<ValueView> {
    Seq::new(v.len(), |i: int| v[i].view())
}

impl Statement {
    pub open spec fn view(&self) -> StatementView {
        StatementView { sql: self.sql@, params: values(self.params@) }
    }
}

/// Statements in order.
pub open spec fn statements(v: Seq<Statement>) -> Seq<StatementView> {
    Seq::new(v.len(), |i: int| v[i].view())
}

fn statement(sql: &str, params: Vec<Value>) -> (s: Statement)
    ensures
        s.view() == (StatementView { sql: sql@, params: values(params@) }),
{
    Statement { sql: String::from_str(sql), params }
}

pub const INSERT_SESSION: &'static str =
    "INSERT OR IGNORE INTO sessions(id, start_ms, relay_addr) VALUES (?1, ?2, ?3)";

pub const INSERT_SESSION_ADDR: &'static str =
    "INSERT INTO session_addrs(session_id, ts_ms, kind, addr) VALUES (?1, ?2, ?3, ?4)";

pub const END_SESSION: &'static str =
    "UPDATE sessions SET end_ms=?2, end_reason=?3 WHERE id=?1 AND end_ms IS NULL";

pub const INSERT_FLOW: &'static str =
    "INSERT OR IGNORE INTO flows(id, session_id, proto, src_ip, src_port, dst_ip, dst_port, first_ms, confirmed) VALUES (?1, ?2, ?3, ?4, ?5, ?6, ?7, ?8, ?9)";

pub const SET_EGRESS: &'static str = "UPDATE flows SET egress_addr=?2 WHERE id=?1";

pub const INSERT_BLOCKED: &'static str =
    "INSERT OR IGNORE INTO flows(id, session_id, proto, src_ip, src_port, dst_ip, dst_port, first_ms, last_ms, end_reason, confirmed) VALUES (?1, ?2, ?3, ?4, ?5, ?6, ?7, ?8, ?8, 'blocked', 1)";

pub const ESTABLISH_FLOW: &'static str =
    "UPDATE flows SET established=1, egress_addr=COALESCE(?2, egress_addr) WHERE id=?1";

pub const CLOSE_FLOW: &'static str =
    "UPDATE flows SET last_ms=MAX(?2, first_ms), bytes_up=?3, bytes_down=?4, established=MAX(established, ?5), end_reason=?6 WHERE id=?1 AND end_reason IS NULL";

pub const INSERT_MARK: &'static str =
    "INSERT INTO marks(ts_ms, kind, detail) VALUES (?1, ?2, ?3)";

/// The statements that write an event. `egress` is the address that an
/// unconfirmed flow was found to leave from.
pub open spec fn written(ev: Ev, egress: Option<SocketAddr>) -> Seq<StatementView> {
    match ev {
        Ev::SessionStart { id, ts_ms, relay } => seq![
            StatementView {
                sql: INSERT_SESSION@,
                params: seq![
                    ValueView::Int(id),
                    ValueView::Int(ts_ms),
                    ValueView::Text(relay.text()),
                ],
            },
        ],
        Ev::SessionAddr { session, ts_ms, addr_kind, addr } => seq![
            StatementView {
                sql: INSERT_SESSION_ADDR@,
                params: seq![
                    ValueView::Int(session),
                    ValueView::Int(ts_ms),
                    ValueView::Text(addr_kind.code()),
                    ValueView::Text(addr.text()),
                ],
            },
        ],
        Ev::SessionEnd { session, ts_ms, reason } => seq![
            StatementView {
                sql: END_SESSION@,
                params: seq![
                    ValueView::Int(session),
                    ValueView::Int(ts_ms),
                    ValueView::Text(reason@),
                ],
            },
        ],
        Ev::FlowOpen { id, session, ts_ms, proto, src, dst, confirmed } => seq![
            StatementView {
                sql: INSERT_FLOW@,
                params: flow_values(id, session, proto, src, dst, ts_ms).push(
                    ValueView::Flag(confirmed),
                ),
            },
        ] + (match egress {
            Some(a) => if confirmed {
                seq![]
            } else {
                seq![
                    StatementView {
                        sql: SET_EGRESS@,
                        params: seq![ValueView::Int(id), ValueView::Text(a.text())],
                    },
                ]
            },
            None => seq![],
        }),
        Ev::FlowBlocked { id, session, ts_ms, proto, src, dst } => seq![
            StatementView {
                sql: INSERT_BLOCKED@,
                params: flow_values(id, session, proto, src, dst, ts_ms),
            },
        ],
        Ev::FlowEstablished { id, egress: e } => seq![
            StatementView {
                sql: ESTABLISH_FLOW@,
                params: seq![
                    ValueView::Int(id),
                    match e {
                        Some(a) => ValueView::Text(a.text()),
                        None => ValueView::Null,
                    },
                ],
            },
        ],
        Ev::FlowClose { id, last_ms, up, down, established, reason } => seq![
            StatementView {
                sql: CLOSE_FLOW@,
                params: seq![
                    ValueView::Int(id),
                    ValueView::Int(last_ms),
                    ValueView::Size(up),
                    ValueView::Size(down),
                    ValueView::Flag(established),
                    ValueView::Text(reason@),
                ],
            },
        ],
        Ev::Mark { ts_ms, kind, detail } => seq![
            StatementView {
                sql: INSERT_MARK@,
                params: seq![
                    ValueView::Int(ts_ms),
                    ValueView::Text(kind@),
                    ValueView::Text(detail@),
                ],
            },
        ],
    }
}

/// The values that a new flow starts with.
pub open spec fn flow_values(
    id: i64,
    session: i64,
    proto: u8,
    src: SocketAddr,
    dst: SocketAddr,
    ts_ms: i64,
) -> Seq<ValueView> {
    seq![
        ValueView::Int(id),
        ValueView::Int(session),
        ValueView::Int(proto as i64),
        ValueView::Text(src.ip.text()),
        ValueView::Int(src.port as i64),
        ValueView::Text(dst.ip.text()),
        ValueView::Int(dst.port as i64),
        ValueView::Int(ts_ms),
    ]
}

fn flow_params(
    id: i64,
    session: i64,
    proto: u8,
    src: &SocketAddr,
    dst: &SocketAddr,
    ts_ms: i64,
) -> (v: Vec<Value>)
    ensures
        values(v@) == flow_values(id, session, proto, *src, *dst, ts_ms),
{
    let v = vec![
        Value::Int(id),
        Value::Int(session),
        Value::Int(proto as i64),
        Value::Text(src.ip.to_text()),
        Value::Int(src.port as i64),
        Value::Text(dst.ip.to_text()),
        Value::Int(dst.port as i64),
        Value::Int(ts_ms),
    ];
    assert(values(v@) =~= flow_values(id, session, proto, *src, *dst, ts_ms));
    v
}

/// The flow whose egress address is to be looked up before its event is
/// written: its protocol, source and destination.
pub fn wants_egress(ev: &Ev) -> (r: Option<(u8, SocketAddr, SocketAddr)>)
    ensures
        r == (match *ev {
            Ev::FlowOpen { id, session, ts_ms, proto, src, dst, confirmed } => if confirmed {
                None
            } else {
                Some((proto, src, dst))
            },
            _ => None,
        }),
{
    match ev {
        Ev::FlowOpen { proto, src, dst, confirmed, .. } => if *confirmed {
            None
        } else {
            Some((*proto, *src, *dst))
        },
        _ => None,
    }
}

/// The statements that write an event.
pub fn write_event(ev: &Ev, egress: Option<SocketAddr>) -> (out: Vec<Statement>)
    ensures
        statements(out@) == written(*ev, egress),
{
    let mut out: Vec<Statement> = Vec::new();
    match ev {
        Ev::SessionStart { id, ts_ms, relay } => {
            let v = vec![Value::Int(*id), Value::Int(*ts_ms), Value::Text(relay.to_text())];
            assert(values(v@) =~= written(*ev, egress)[0].params);
            out.push(statement(INSERT_SESSION, v));
        },
        Ev::SessionAddr { session, ts_ms, addr_kind, addr } => {
            let v = vec![
                Value::Int(*session),
                Value::Int(*ts_ms),
                Value::Text(String::from_str(addr_kind.as_str())),
                Value::Text(addr.to_text()),
            ];
            assert(values(v@) =~= written(*ev, egress)[0].params);
            out.push(statement(INSERT_SESSION_ADDR, v));
        },
        Ev::SessionEnd { session, ts_ms, reason } => {
            let v = vec![
                Value::Int(*session),
                Value::Int(*ts_ms),
                Value::Text(String::from_str(reason)),
            ];
            assert(values(v@) =~= written(*ev, egress)[0].params);
            out.push(statement(END_SESSION, v));
        },
        Ev::FlowOpen { id, session, ts_ms, proto, src, dst, confirmed } => {
            let mut v = flow_params(*id, *session, *proto, src, dst, *ts_ms);
            let ghost before = v@;
            v.push(Value::Flag(*confirmed));
            assert(values(v@) =~= values(before).push(ValueView::Flag(*confirmed)));
            out.push(statement(INSERT_FLOW, v));
            if !*confirmed {
                match egress {
                    Some(a) => {
                        let v = vec![Value::Int(*id), Value::Text(a.to_text())];
                        assert(values(v@) =~= written(*ev, egress)[1].params);
                        out.push(statement(SET_EGRESS, v));
                    },
                    None => {},
                }
            }
        },
        Ev::FlowBlocked { id, session, ts_ms, proto, src, dst } => {
            out.push(
                statement(INSERT_BLOCKED, flow_params(*id, *session, *proto, src, dst, *ts_ms)),
            );
        },
        Ev::FlowEstablished { id, egress: e } => {
            let a = match e {
                Some(a) => Value::Text(a.to_text()),
                None => Value::Null,
            };
            let v = vec![Value::Int(*id), a];
            assert(values(v@) =~= written(*ev, egress)[0].params);
            out.push(statement(ESTABLISH_FLOW, v));
        },
        Ev::FlowClose { id, last_ms, up, down, established, reason } => {
            let v = vec![
                Value::Int(*id),
                Value::Int(*last_ms),
                Value::Size(*up),
                Value::Size(*down),
                Value::Flag(*established),
                Value::Text(String::from_str(reason)),
            ];
            assert(values(v@) =~= written(*ev, egress)[0].params);
            out.push(statement(CLOSE_FLOW, v));
        },
        Ev::Mark { ts_ms, kind, detail } => {
            let v = vec![
                Value::Int(*ts_ms),
                Value::Text(String::from_str(kind)),
                Value::Text(detail.clone()),
            ];
            assert(values(v@) =~= written(*ev, egress)[0].params);
            out.push(statement(INSERT_MARK, v));
        },
    }
    assert(statements(out@) =~= written(*ev, egress));
    out
}

/// The statements that write a batch of events, in order.
pub open spec fn batch_written(batch: Seq<Ev>, egress: Seq<Option<SocketAddr>>) -> Seq<
    StatementView,
>
    decreases batch.len(),
{
    if batch.len() == 0 {
        Seq::empty()
    } else {
        batch_written(batch.drop_last(), egress.drop_last()) + written(batch.last(), egress.last())
    }
}

/// The statements that write a batch of events, in order, to be run as one
/// transaction. `egress` holds, for each event, the address that was found for
/// it.
pub fn flush_batch(batch: &Vec<Ev>, egress: &Vec<Option<SocketAddr>>) -> (out: Vec<Statement>)
    requires
        batch@.len() == egress@.len(),
    ensures
        statements(out@) == batch_written(batch@, egress@),
{
    let mut out: Vec<Statement> = Vec::new();
    let mut i: usize = 0;
    assert(statements(out@) =~= Seq::empty());
    while i < batch.len()
        invariant
            i <= batch@.len() == egress@.len(),
            statements(out@) == batch_written(batch@.take(i as int), egress@.take(i as int)),
        decreases batch.len() - i,
    {
        assert(batch@.take(i + 1).drop_last() =~= batch@.take(i as int));
        assert(egress@.take(i + 1).drop_last() =~= egress@.take(i as int));
        let mut more = write_event(&batch[i], egress[i]);
        let ghost a = out@;
        let ghost b = more@;
        out.append(&mut more);
        assert(statements(out@) =~= statements(a) + statements(b));
        i = i + 1;
    }
    assert(batch@.take(i as int) =~= batch@);
    assert(egress@.take(i as int) =~= egress@);
    out
}

/// The tables of the log.
pub const SCHEMA: &'static str = "
CREATE TABLE IF NOT EXISTS meta (
    key   TEXT PRIMARY KEY,
    value TEXT NOT NULL
);
CREATE TABLE IF NOT EXISTS sessions (
    id         INTEGER PRIMARY KEY,
    start_ms   INTEGER NOT NULL,
    end_ms     INTEGER,
    end_reason TEXT,
    relay_addr TEXT NOT NULL
);
CREATE TABLE IF NOT EXISTS session_addrs (
    session_id INTEGER NOT NULL,
    ts_ms      INTEGER NOT NULL,
    kind       TEXT NOT NULL,
    addr       TEXT NOT NULL
);
CREATE INDEX IF NOT EXISTS session_addrs_session ON session_addrs(session_id);
CREATE TABLE IF NOT EXISTS flows (
    id          INTEGER PRIMARY KEY,
    session_id  INTEGER NOT NULL,
    proto       INTEGER NOT NULL,
    src_ip      TEXT NOT NULL,
    src_port    INTEGER NOT NULL,
    dst_ip      TEXT NOT NULL,
    dst_port    INTEGER NOT NULL,
    first_ms    INTEGER NOT NULL,
    last_ms     INTEGER,
    bytes_up    INTEGER NOT NULL DEFAULT 0,
    bytes_down  INTEGER NOT NULL DEFAULT 0,
    egress_addr TEXT,
    established INTEGER NOT NULL DEFAULT 0,
    confirmed   INTEGER NOT NULL DEFAULT 1,
    end_reason  TEXT
);
CREATE INDEX IF NOT EXISTS flows_dst  ON flows(dst_ip, first_ms);
CREATE INDEX IF NOT EXISTS flows_time ON flows(first_ms);
CREATE TABLE IF NOT EXISTS marks (
    seq    INTEGER PRIMARY KEY AUTOINCREMENT,
    ts_ms  INTEGER NOT NULL,
    kind   TEXT NOT NULL,
    detail TEXT
);
CREATE TABLE IF NOT EXISTS holds (
    id         INTEGER PRIMARY KEY AUTOINCREMENT,
    from_ms    INTEGER NOT NULL,
    to_ms      INTEGER NOT NULL,
    note       TEXT,
    created_ms INTEGER NOT NULL
);
";

pub const INSERT_META: &'static str =
    "INSERT OR IGNORE INTO meta(key, value) VALUES ('format_version', ?1), ('routing_key', ?2), ('created_ms', ?3)";

pub const SET_SOFTWARE: &'static str =
    "INSERT OR REPLACE INTO meta(key, value) VALUES ('software_version', ?1)";

pub const START_MARK: &'static str =
    "INSERT INTO marks(ts_ms, kind, detail) VALUES (?1, 'share_start', ?2)";

pub const STOP_MARK: &'static str =
    "INSERT INTO marks(ts_ms, kind, detail) VALUES (?1, 'share_stop', NULL)";

pub const STORED_IDENTITY: &'static str = "SELECT value FROM meta WHERE key='routing_key'";

/// Whether a database belongs to an identity: `stored` is the routing key that
/// it names, if it names one. Returns the identity's routing key as the
/// database names it. A refusal shows the first eight bytes of each key.
pub fn check_identity(path: &str, stored: Option<&str>, routing_key: &[u8; 20]) -> (r: Result<
    String,
    String,
>)
    requires
        stored matches Some(s) ==> s@ == record::hex_text(routing_key@) || text::cut_fits(s@, 8),
    ensures
        match r {
            Ok(hex) => hex@ == record::hex_text(routing_key@) && (stored matches Some(s) ==> s@
                == hex@),
            Err(e) => stored matches Some(s) && s@ != record::hex_text(routing_key@) && e@
                == "connlog: "@ + path@ + " belongs to identity "@ + text::first_bytes(s@, 8) + ", not "@
                + text::first_bytes(record::hex_text(routing_key@), 8)
                + " — use a per-identity directory"@,
        },
{
    let hex = record::hex(routing_key);
    match stored {
        Some(s) => {
            if !text::same_text(s, hex.as_str()) {
                proof {
                    record::hex_is_ascii(routing_key@);
                    text::ascii_is_cut_anywhere(hex@, 8);
                }
                let mut e = String::from_str("connlog: ");
                e.append(path);
                e.append(" belongs to identity ");
                e.append(text::first_bytes_of(s, 8).as_str());
                e.append(", not ");
                e.append(text::first_bytes_of(hex.as_str(), 8).as_str());
                e.append(" — use a per-identity directory");
                return Err(e);
            }
        },
        None => {},
    }
    Ok(hex)
}

/// The statements that a newly opened database starts with.
pub open spec fn opening(hex: Seq<char>, version: Seq<char>, now: i64) -> Seq<StatementView> {
    seq![
        StatementView {
            sql: INSERT_META@,
            params: seq![
                ValueView::Text("1"@),
                ValueView::Text(hex),
                ValueView::Text(text::signed(now as int)),
            ],
        },
        StatementView { sql: SET_SOFTWARE@, params: seq![ValueView::Text(version)] },
        StatementView {
            sql: START_MARK@,
            params: seq![
                ValueView::Int(now),
                ValueView::Text("{\"software\":\""@ + version + "\"}"@),
            ],
        },
    ]
}

/// The statements that a newly opened database starts with: what it is, who
/// wrote it, and a mark that sharing starts.
pub fn open_statements(hex: &str, version: &str, now: i64) -> (out: Vec<Statement>)
    ensures
        statements(out@) == opening(hex@, version@, now),
{
    let v1 = vec![
        Value::Text(String::from_str("1")),
        Value::Text(String::from_str(hex)),
        Value::Text(text::signed_text(now)),
    ];
    assert(values(v1@) =~= opening(hex@, version@, now)[0].params);
    let v2 = vec![Value::Text(String::from_str(version))];
    assert(values(v2@) =~= opening(hex@, version@, now)[1].params);
    let v3 = vec![
        Value::Int(now),
        Value::Text(String::from_str("{\"software\":\"").concat(version).concat("\"}")),
    ];
    assert(values(v3@) =~= opening(hex@, version@, now)[2].params);
    let out = vec![
        statement(INSERT_META, v1),
        statement(SET_SOFTWARE, v2),
        statement(START_MARK, v3),
    ];
    assert(statements(out@) =~= opening(hex@, version@, now));
    out
}

/// The time before which records are old.
pub fn retention_cutoff(now: i64, retention: u64) -> (cutoff: i64)
    requires
        i64::MIN <= now - retention,
    ensures
        cutoff == now - retention,
{
    (now as i128 - retention as i128) as i64
}

/// A flow as far as its age goes.
#[derive(Debug, Clone, Copy, PartialEq, Eq)]
pub struct FlowSpan {
    pub id: i64,
    pub session_id: i64,
    pub first_ms: i64,
    pub last_ms: Option<i64>,
}

/// A session as far as its age goes.
#[derive(Debug, Clone, Copy, PartialEq, Eq)]
pub struct SessionSpan {
    pub id: i64,
    pub start_ms: i64,
    pub end_ms: Option<i64>,
}

/// A record that belongs to a session.
#[derive(Debug, Clone, Copy, PartialEq, Eq)]
pub struct AddrSpan {
    pub id: i64,
    pub session_id: i64,
}

/// A mark as far as its age goes.
#[derive(Debug, Clone, Copy, PartialEq, Eq)]
pub struct MarkSpan {
    pub id: i64,
    pub ts_ms: i64,
}

/// A stretch of time of which nothing is deleted.
#[derive(Debug, Clone, Copy, PartialEq, Eq)]
pub struct Hold {
    pub from_ms: i64,
    pub to_ms: i64,
}

/// When something ended, or else when it began.
pub open spec fn end_of(begin: i64, end: Option<i64>) -> i64 {
    match end {
        Some(t) => t,
        None => begin,
    }
}

/// Whether a hold covers a part of a stretch of time.
pub open spec fn is_held(first: i64, last: i64, holds: Seq<Hold>) -> bool {
    exists|i: int|
        0 <= i < holds.len() && first <= (#[trigger] holds[i]).to_ms && last >= holds[i].from_ms
}

/// Whether there is a session under a number that is not old.
pub open spec fn young_session(id: i64, sessions: Seq<SessionSpan>, cutoff: i64) -> bool {
    exists|i: int|
        0 <= i < sessions.len() && (#[trigger] sessions[i]).id == id && end_of(
            sessions[i].start_ms,
            sessions[i].end_ms,
        ) >= cutoff
}

/// Whether a flow is to be deleted: it is old and not held, and, where it was
/// never closed, its session is old too.
pub open spec fn flow_goes(
    f: FlowSpan,
    sessions: Seq<SessionSpan>,
    holds: Seq<Hold>,
    cutoff: i64,
) -> bool {
    &&& end_of(f.first_ms, f.last_ms) < cutoff
    &&& !is_held(f.first_ms, end_of(f.first_ms, f.last_ms), holds)
    &&& f.last_ms is None ==> !young_session(f.session_id, sessions, cutoff)
}

/// Whether a session has a flow that stays.
pub open spec fn has_flow(
    id: i64,
    flows: Seq<FlowSpan>,
    sessions: Seq<SessionSpan>,
    holds: Seq<Hold>,
    cutoff: i64,
) -> bool {
    exists|i: int|
        0 <= i < flows.len() && (#[trigger] flows[i]).session_id == id && !flow_goes(
            flows[i],
            sessions,
            holds,
            cutoff,
        )
}

/// Whether a session is to be deleted: it is old and not held, and none of its
/// flows stays.
pub open spec fn session_goes(
    s: SessionSpan,
    flows: Seq<FlowSpan>,
    sessions: Seq<SessionSpan>,
    holds: Seq<Hold>,
    cutoff: i64,
) -> bool {
    &&& end_of(s.start_ms, s.end_ms) < cutoff
    &&& !has_flow(s.id, flows, sessions, holds, cutoff)
    &&& !is_held(s.start_ms, end_of(s.start_ms, s.end_ms), holds)
}

/// Whether there is a session under a number that stays.
pub open spec fn session_stays(
    id: i64,
    flows: Seq<FlowSpan>,
    sessions: Seq<SessionSpan>,
    holds: Seq<Hold>,
    cutoff: i64,
) -> bool {
    exists|i: int|
        0 <= i < sessions.len() && (#[trigger] sessions[i]).id == id && !session_goes(
            sessions[i],
            flows,
            sessions,
            holds,
            cutoff,
        )
}

/// Whether a mark is to be deleted: it is old and not held.
pub open spec fn mark_goes(m: MarkSpan, holds: Seq<Hold>, cutoff: i64) -> bool {
    m.ts_ms < cutoff && !is_held(m.ts_ms, m.ts_ms, holds)
}

/// The numbers of the first `n` flows that are to be deleted.
pub open spec fn flows_going(
    n: int,
    flows: Seq<FlowSpan>,
    sessions: Seq<SessionSpan>,
    holds: Seq<Hold>,
    cutoff: i64,
) -> Seq<i64>
    decreases n,
{
    if n <= 0 {
        Seq::empty()
    } else {
        let before = flows_going(n - 1, flows, sessions, holds, cutoff);
        if flow_goes(flows[n - 1], sessions, holds, cutoff) {
            before.push(flows[n - 1].id)
        } else {
            before
        }
    }
}

/// The numbers of the first `n` sessions that are to be deleted.
pub open spec fn sessions_going(
    n: int,
    flows: Seq<FlowSpan>,
    sessions: Seq<SessionSpan>,
    holds: Seq<Hold>,
    cutoff: i64,
) -> Seq<i64>
    decreases n,
{
    if n <= 0 {
        Seq::empty()
    } else {
        let before = sessions_going(n - 1, flows, sessions, holds, cutoff);
        if session_goes(sessions[n - 1], flows, sessions, holds, cutoff) {
            before.push(sessions[n - 1].id)
        } else {
            before
        }
    }
}

/// The numbers of the first `n` addresses whose session does not stay.
pub open spec fn addrs_going(
    n: int,
    addrs: Seq<AddrSpan>,
    flows: Seq<FlowSpan>,
    sessions: Seq<SessionSpan>,
    holds: Seq<Hold>,
    cutoff: i64,
) -> Seq<i64>
    decreases n,
{
    if n <= 0 {
        Seq::empty()
    } else {
        let before = addrs_going(n - 1, addrs, flows, sessions, holds, cutoff);
        if session_stays(addrs[n - 1].session_id, flows, sessions, holds, cutoff) {
            before
        } else {
            before.push(addrs[n - 1].id)
        }
    }
}

/// The numbers of the first `n` marks that are to be deleted.
pub open spec fn marks_going(n: int, marks: Seq<MarkSpan>, holds: Seq<Hold>, cutoff: i64) -> Seq<
    i64,
>
    decreases n,
{
    if n <= 0 {
        Seq::empty()
    } else {
        let before = marks_going(n - 1, marks, holds, cutoff);
        if mark_goes(marks[n - 1], holds, cutoff) {
            before.push(marks[n - 1].id)
        } else {
            before
        }
    }
}

/// The numbers of the records to delete.
#[derive(Debug, PartialEq, Eq)]
pub struct SweepPlan {
    pub flows: Vec<i64>,
    pub sessions: Vec<i64>,
    pub addrs: Vec<i64>,
    pub marks: Vec<i64>,
}

fn last_of(begin: i64, end: Option<i64>) -> (t: i64)
    ensures
        t == end_of(begin, end),
{
    match end {
        Some(t) => t,
        None => begin,
    }
}

fn held(first: i64, last: i64, holds: &Vec<Hold>) -> (r: bool)
    ensures
        r == is_held(first, last, holds@),
{
    let mut i: usize = 0;
    while i < holds.len()
        invariant
            i <= holds.len(),
            forall|j: int|
                0 <= j < i ==> !(first <= (#[trigger] holds@[j]).to_ms && last
                    >= holds@[j].from_ms),
        decreases holds.len() - i,
    {
        if first <= holds[i].to_ms && last >= holds[i].from_ms {
            return true;
        }
        i = i + 1;
    }
    false
}

fn in_young_session(id: i64, sessions: &Vec<SessionSpan>, cutoff: i64) -> (r: bool)
    ensures
        r == young_session(id, sessions@, cutoff),
{
    let mut i: usize = 0;
    while i < sessions.len()
        invariant
            i <= sessions.len(),
            forall|j: int|
                0 <= j < i ==> !((#[trigger] sessions@[j]).id == id && end_of(
                    sessions@[j].start_ms,
                    sessions@[j].end_ms,
                ) >= cutoff),
        decreases sessions.len() - i,
    {
        if sessions[i].id == id && last_of(sessions[i].start_ms, sessions[i].end_ms) >= cutoff {
            return true;
        }
        i = i + 1;
    }
    false
}

fn drop_flow(f: &FlowSpan, sessions: &Vec<SessionSpan>, holds: &Vec<Hold>, cutoff: i64) -> (r: bool)
    ensures
        r == flow_goes(*f, sessions@, holds@, cutoff),
{
    let last: i64 = last_of(f.first_ms, f.last_ms);
    if last >= cutoff || held(f.first_ms, last, holds) {
        return false;
    }
    match f.last_ms {
        Some(_) => true,
        None => !in_young_session(f.session_id, sessions, cutoff),
    }
}

fn keeps_flow(
    id: i64,
    flows: &Vec<FlowSpan>,
    sessions: &Vec<SessionSpan>,
    holds: &Vec<Hold>,
    cutoff: i64,
) -> (r: bool)
    ensures
        r == has_flow(id, flows@, sessions@, holds@, cutoff),
{
    let mut i: usize = 0;
    while i < flows.len()
        invariant
            i <= flows.len(),
            forall|j: int|
                0 <= j < i ==> !((#[trigger] flows@[j]).session_id == id && !flow_goes(
                    flows@[j],
                    sessions@,
                    holds@,
                    cutoff,
                )),
        decreases flows.len() - i,
    {
        if flows[i].session_id == id && !drop_flow(&flows[i], sessions, holds, cutoff) {
            return true;
        }
        i = i + 1;
    }
    false
}

fn drop_session(
    s: &SessionSpan,
    flows: &Vec<FlowSpan>,
    sessions: &Vec<SessionSpan>,
    holds: &Vec<Hold>,
    cutoff: i64,
) -> (r: bool)
    ensures
        r == session_goes(*s, flows@, sessions@, holds@, cutoff),
{
    let last: i64 = last_of(s.start_ms, s.end_ms);
    last < cutoff && !keeps_flow(s.id, flows, sessions, holds, cutoff) && !held(
        s.start_ms,
        last,
        holds,
    )
}

fn keeps_session(
    id: i64,
    flows: &Vec<FlowSpan>,
    sessions: &Vec<SessionSpan>,
    holds: &Vec<Hold>,
    cutoff: i64,
) -> (r: bool)
    ensures
        r == session_stays(id, flows@, sessions@, holds@, cutoff),
{
    let mut i: usize = 0;
    while i < sessions.len()
        invariant
            i <= sessions.len(),
            forall|j: int|
                0 <= j < i ==> !((#[trigger] sessions@[j]).id == id && !session_goes(
                    sessions@[j],
                    flows@,
                    sessions@,
                    holds@,
                    cutoff,
                )),
        decreases sessions.len() - i,
    {
        if sessions[i].id == id && !drop_session(&sessions[i], flows, sessions, holds, cutoff) {
            return true;
        }
        i = i + 1;
    }
    false
}

/// Decides which records are deleted: those that are older than `cutoff` and
/// that no hold covers. A session stays with its flows, and its addresses with
/// it.
pub fn retention_sweep(
    flows: &Vec<FlowSpan>,
    sessions: &Vec<SessionSpan>,
    addrs: &Vec<AddrSpan>,
    marks: &Vec<MarkSpan>,
    holds: &Vec<Hold>,
    cutoff: i64,
) -> (p: SweepPlan)
    ensures
        p.flows@ == flows_going(flows@.len() as int, flows@, sessions@, holds@, cutoff),
        p.sessions@ == sessions_going(sessions@.len() as int, flows@, sessions@, holds@, cutoff),
        p.addrs@ == addrs_going(
            addrs@.len() as int,
            addrs@,
            flows@,
            sessions@,
            holds@,
            cutoff,
        ),
        p.marks@ == marks_going(marks@.len() as int, marks@, holds@, cutoff),
{
    let mut p = SweepPlan {
        flows: Vec::new(),
        sessions: Vec::new(),
        addrs: Vec::new(),
        marks: Vec::new(),
    };
    let mut i: usize = 0;
    while i < flows.len()
        invariant
            i <= flows.len(),
            p.flows@ == flows_going(i as int, flows@, sessions@, holds@, cutoff),
            p.sessions@.len() == 0,
            p.addrs@.len() == 0,
            p.marks@.len() == 0,
        decreases flows.len() - i,
    {
        if drop_flow(&flows[i], sessions, holds, cutoff) {
            p.flows.push(flows[i].id);
        }
        i = i + 1;
    }
    i = 0;
    while i < sessions.len()
        invariant
            i <= sessions.len(),
            p.flows@ == flows_going(flows@.len() as int, flows@, sessions@, holds@, cutoff),
            p.sessions@ == sessions_going(i as int, flows@, sessions@, holds@, cutoff),
            p.addrs@.len() == 0,
            p.marks@.len() == 0,
        decreases sessions.len() - i,
    {
        if drop_session(&sessions[i], flows, sessions, holds, cutoff) {
            p.sessions.push(sessions[i].id);
        }
        i = i + 1;
    }
    i = 0;
    while i < addrs.len()
        invariant
            i <= addrs.len(),
            p.flows@ == flows_going(flows@.len() as int, flows@, sessions@, holds@, cutoff),
            p.sessions@ == sessions_going(
                sessions@.len() as int,
                flows@,
                sessions@,
                holds@,
                cutoff,
            ),
            p.addrs@ == addrs_going(i as int, addrs@, flows@, sessions@, holds@, cutoff),
            p.marks@.len() == 0,
        decreases addrs.len() - i,
    {
        if !keeps_session(addrs[i].session_id, flows, sessions, holds, cutoff) {
            p.addrs.push(addrs[i].id);
        }
        i = i + 1;
    }
    i = 0;
    while i < marks.len()
        invariant
            i <= marks.len(),
            p.flows@ == flows_going(flows@.len() as int, flows@, sessions@, holds@, cutoff),
            p.sessions@ == sessions_going(
                sessions@.len() as int,
                flows@,
                sessions@,
                holds@,
                cutoff,
            ),
            p.addrs@ == addrs_going(
                addrs@.len() as int,
                addrs@,
                flows@,
                sessions@,
                holds@,
                cutoff,
            ),
            p.marks@ == marks_going(i as int, marks@, holds@, cutoff),
        decreases marks.len() - i,
    {
        if marks[i].ts_ms < cutoff && !held(marks[i].ts_ms, marks[i].ts_ms, holds) {
            p.marks.push(marks[i].id);
        }
        i = i + 1;
    }
    p
}

proof fn going_flows_go(
    n: int,
    flows: Seq<FlowSpan>,
    sessions: Seq<SessionSpan>,
    holds: Seq<Hold>,
    cutoff: i64,
    id: i64,
)
    requires
        0 <= n <= flows.len(),
        flows_going(n, flows, sessions, holds, cutoff).contains(id),
    ensures
        exists|i: int|
            0 <= i < n && (#[trigger] flows[i]).id == id && flow_goes(
                flows[i],
                sessions,
                holds,
                cutoff,
            ),
    decreases n,
{
    if n > 0 {
        let before = flows_going(n - 1, flows, sessions, holds, cutoff);
        if before.contains(id) {
            going_flows_go(n - 1, flows, sessions, holds, cutoff, id);
        } else {
            let all = flows_going(n, flows, sessions, holds, cutoff);
            let k = all.index_of(id);
            if k < before.len() {
                assert(before[k] == id);
                assert(before.contains(id));
            }
            assert(flows[n - 1].id == id);
        }
    }
}

/// A flow of which a hold covers a part, or that is not old, is not deleted,
/// where no two flows have the same number.
pub proof fn held_and_young_flows_stay(
    flows: Seq<FlowSpan>,
    sessions: Seq<SessionSpan>,
    holds: Seq<Hold>,
    cutoff: i64,
    i: int,
)
    requires
        0 <= i < flows.len(),
        forall|j: int, k: int|
            0 <= j < k < flows.len() ==> (#[trigger] flows[j]).id != (#[trigger] flows[k]).id,
        is_held(flows[i].first_ms, end_of(flows[i].first_ms, flows[i].last_ms), holds) || end_of(
            flows[i].first_ms,
            flows[i].last_ms,
        ) >= cutoff,
    ensures
        !flows_going(flows.len() as int, flows, sessions, holds, cutoff).contains(flows[i].id),
{
    let id = flows[i].id;
    if flows_going(flows.len() as int, flows, sessions, holds, cutoff).contains(id) {
        going_flows_go(flows.len() as int, flows, sessions, holds, cutoff, id);
        let k = choose|k: int|
            0 <= k < flows.len() && (#[trigger] flows[k]).id == id && flow_goes(
                flows[k],
                sessions,
                holds,
                cutoff,
            );
        assert(k == i);
    }
}

/// A session of which a flow stays is not deleted.
pub proof fn sessions_stay_with_their_flows(
    s: SessionSpan,
    flows: Seq<FlowSpan>,
    sessions: Seq<SessionSpan>,
    holds: Seq<Hold>,
    cutoff: i64,
    i: int,
)
    requires
        0 <= i < flows.len(),
        flows[i].session_id == s.id,
        !flow_goes(flows[i], sessions, holds, cutoff),
    ensures
        !session_goes(s, flows, sessions, holds, cutoff),
{
}

/// One flow of the log.
#[derive(Debug, Clone, PartialEq, Eq)]
pub struct FlowRow {
    pub id: i64,
    pub session_id: i64,
    pub proto: u8,
    pub src: String,
    pub src_port: u16,
    pub dst: String,
    pub dst_port: u16,
    pub first_ms: i64,
    pub last_ms: Option<i64>,
    pub bytes_up: u64,
    pub bytes_down: u64,
    pub egress_addr: Option<String>,
    pub established: bool,
    pub confirmed: bool,
    pub end_reason: Option<String>,
}

/// One session of the log, with the addresses that are known of it: when each
/// was recorded, its kind and the address.
#[derive(Debug, Clone, PartialEq, Eq)]
pub struct SessionRow {
    pub id: i64,
    pub start_ms: i64,
    pub end_ms: Option<i64>,
    pub end_reason: Option<String>,
    pub relay_addr: String,
    pub addrs: Vec<(i64, String, String)>,
}

/// One mark of the log.
#[derive(Debug, Clone, PartialEq, Eq)]
pub struct MarkRow {
    pub ts_ms: i64,
    pub kind: String,
    pub detail: Option<String>,
}

/// Which flows are asked for: those to an address, to a port, of a session,
/// and in use between two times.
#[derive(Debug, Clone, Copy, PartialEq, Eq)]
pub struct FlowQuery {
    pub ip: Option<IpAddr>,
    pub port: Option<u16>,
    pub session: Option<i64>,
    pub from_ms: Option<i64>,
    pub to_ms: Option<i64>,
}

impl Default for FlowQuery {
    fn default() -> (q: FlowQuery)
        ensures
            q == (FlowQuery { ip: None, port: None, session: None, from_ms: None, to_ms: None }),
    {
        FlowQuery { ip: None, port: None, session: None, from_ms: None, to_ms: None }
    }
}

pub const SELECT_FLOWS: &'static str =
    "SELECT id, session_id, proto, src_ip, src_port, dst_ip, dst_port, first_ms, last_ms, bytes_up, bytes_down, egress_addr, established, confirmed, end_reason FROM flows WHERE 1=1";

/// A condition on flows: what stands before and behind the number of its
/// value, and the value.
pub struct Condition {
    pub before: Seq<char>,
    pub behind: Seq<char>,
    pub value: ValueView,
}

/// A condition, where there is one.
pub open spec fn condition_if(c: Option<ValueView>, before: Seq<char>, behind: Seq<char>) -> Seq<
    Condition,
> {
    match c {
        Some(value) => seq![Condition { before, behind, value }],
        None => seq![],
    }
}

/// The conditions of a query, in order. A flow is in use between two times if
/// it began before the later one and did not end before the earlier one.
pub open spec fn conditions(q: FlowQuery) -> Seq<Condition> {
    condition_if(
        match q.ip {
            Some(ip) => Some(ValueView::Text(ip.text())),
            None => None,
        },
        " AND dst_ip = ?"@,
        ""@,
    ) + condition_if(
        match q.port {
            Some(p) => Some(ValueView::Int(p as i64)),
            None => None,
        },
        " AND dst_port = ?"@,
        ""@,
    ) + condition_if(
        match q.session {
            Some(s) => Some(ValueView::Int(s)),
            None => None,
        },
        " AND session_id = ?"@,
        ""@,
    ) + condition_if(
        match q.to_ms {
            Some(t) => Some(ValueView::Int(t)),
            None => None,
        },
        " AND first_ms <= ?"@,
        ""@,
    ) + condition_if(
        match q.from_ms {
            Some(t) => Some(ValueView::Int(t)),
            None => None,
        },
        " AND (last_ms IS NULL OR last_ms >= ?"@,
        ")"@,
    )
}

/// The text of conditions, whose values are numbered from one.
pub open spec fn conditions_text(cs: Seq<Condition>) -> Seq<char>
    decreases cs.len(),
{
    if cs.len() == 0 {
        Seq::empty()
    } else {
        conditions_text(cs.drop_last()) + cs.last().before + text::dec(cs.len()) + cs.last().behind
    }
}

/// The values of conditions.
pub open spec fn condition_values(cs: Seq<Condition>) -> Seq<ValueView> {
    Seq::new(cs.len(), |i: int| cs[i].value)
}

fn push_condition(
    Ghost(cs): Ghost<Seq<Condition>>,
    sql: &mut String,
    params: &mut Vec<Value>,
    value: Option<Value>,
    before: &str,
    behind: &str,
) -> (r: Ghost<Seq<Condition>>)
    requires
        old(params)@.len() < 100,
        old(sql)@ == SELECT_FLOWS@ + conditions_text(cs),
        values(old(params)@) == condition_values(cs),
    ensures
        r@ == cs + condition_if(
            match value {
                Some(v) => Some(v.view()),
                None => None,
            },
            before@,
            behind@,
        ),
        final(sql)@ == SELECT_FLOWS@ + conditions_text(r@),
        values(final(params)@) == condition_values(r@),
        final(params)@.len() <= old(params)@.len() + 1,
{
    match value {
        Some(v) => {
            let ghost c = Condition { before: before@, behind: behind@, value: v.view() };
            let ghost next = cs.push(c);
            let ghost old_params = params@;
            let ghost old_sql = sql@;
            params.push(v);
            sql.append(before);
            sql.append(text::dec_text(params.len() as u64).as_str());
            sql.append(behind);
            proof {
                assert(old_params.len() == cs.len()) by {
                    assert(values(old_params).len() == old_params.len());
                }
                assert(next.drop_last() =~= cs);
                assert(sql@ =~= SELECT_FLOWS@ + conditions_text(next));
                assert(values(params@) =~= condition_values(next)) by {
                    assert forall|i: int| 0 <= i < old_params.len() implies old_params[i].view()
                        == cs[i].value by {
                        assert(values(old_params)[i] == condition_values(cs)[i]);
                    }
                }
                assert(next =~= cs + seq![c]);
            }
            Ghost(next)
        },
        None => {
            assert(cs =~= cs + seq![]);
            Ghost(cs)
        },
    }
}

/// The statement that gives the flows that are asked for, oldest first.
pub open spec fn flow_statement(q: FlowQuery) -> StatementView {
    StatementView {
        sql: SELECT_FLOWS@ + conditions_text(conditions(q)) + " ORDER BY first_ms"@,
        params: condition_values(conditions(q)),
    }
}

/// The statement that gives the flows that are asked for, oldest first.
pub fn query_flows(q: &FlowQuery) -> (s: Statement)
    ensures
        s.view() == flow_statement(*q),
{
    let mut sql = String::from_str(SELECT_FLOWS);
    let mut params: Vec<Value> = Vec::new();
    let ghost c0: Seq<Condition> = Seq::empty();
    assert(SELECT_FLOWS@ + conditions_text(c0) =~= SELECT_FLOWS@);
    assert(values(params@) =~= condition_values(c0));
    let ip = match q.ip {
        Some(ip) => Some(Value::Text(ip.to_text())),
        None => None,
    };
    let Ghost(c1) = push_condition(
        Ghost(c0),
        &mut sql,
        &mut params,
        ip,
        " AND dst_ip = ?",
        "",
    );
    let port = match q.port {
        Some(p) => Some(Value::Int(p as i64)),
        None => None,
    };
    let Ghost(c2) = push_condition(
        Ghost(c1),
        &mut sql,
        &mut params,
        port,
        " AND dst_port = ?",
        "",
    );
    let session = match q.session {
        Some(s) => Some(Value::Int(s)),
        None => None,
    };
    let Ghost(c3) = push_condition(
        Ghost(c2),
        &mut sql,
        &mut params,
        session,
        " AND session_id = ?",
        "",
    );
    let to = match q.to_ms {
        Some(t) => Some(Value::Int(t)),
        None => None,
    };
    let Ghost(c4) = push_condition(
        Ghost(c3),
        &mut sql,
        &mut params,
        to,
        " AND first_ms <= ?",
        "",
    );
    let from = match q.from_ms {
        Some(t) => Some(Value::Int(t)),
        None => None,
    };
    let Ghost(c5) = push_condition(
        Ghost(c4),
        &mut sql,
        &mut params,
        from,
        " AND (last_ms IS NULL OR last_ms >= ?",
        ")",
    );
    assert(c5 =~= conditions(*q));
    sql.append(" ORDER BY first_ms");
    Statement { sql, params }
}

/// Numbers with commas between them.
pub open spec fn number_list(ids: Seq<i64>) -> Seq<char>
    decreases ids.len(),
{
    if ids.len() == 0 {
        Seq::empty()
    } else if ids.len() == 1 {
        text::signed(ids[0] as int)
    } else {
        number_list(ids.drop_last()) + ","@ + text::signed(ids.last() as int)
    }
}

pub const SELECT_SESSIONS: &'static str =
    "SELECT id, start_ms, end_ms, end_reason, relay_addr FROM sessions";

pub const SELECT_SESSION_ADDRS: &'static str =
    "SELECT ts_ms, kind, addr FROM session_addrs WHERE session_id=?1 ORDER BY ts_ms";

/// The statement that gives sessions, oldest first: those with these numbers,
/// or all.
pub open spec fn session_statement(ids: Option<Seq<i64>>) -> StatementView {
    StatementView {
        sql: SELECT_SESSIONS@ + (match ids {
            Some(v) => " WHERE id IN ("@ + number_list(v) + ")"@,
            None => Seq::empty(),
        }) + " ORDER BY start_ms"@,
        params: Seq::empty(),
    }
}

/// The statement that gives sessions, oldest first: those with these numbers,
/// or all.
pub fn query_sessions(ids: Option<&Vec<i64>>) -> (s: Statement)
    ensures
        s.view() == session_statement(
            match ids {
                Some(v) => Some(v@),
                None => None,
            },
        ),
{
    let mut sql = String::from_str(SELECT_SESSIONS);
    match ids {
        Some(v) => {
            let mut list = String::new();
            let mut i: usize = 0;
            assert(list@ =~= number_list(v@.take(0)));
            while i < v.len()
                invariant
                    i <= v.len(),
                    list@ == number_list(v@.take(i as int)),
                decreases v.len() - i,
            {
                assert(v@.take(i + 1).drop_last() =~= v@.take(i as int));
                if i > 0 {
                    list.append(",");
                }
                list.append(text::signed_text(v[i]).as_str());
                assert(list@ =~= number_list(v@.take(i + 1)));
                i = i + 1;
            }
            assert(v@.take(i as int) =~= v@);
            sql.append(" WHERE id IN (");
            sql.append(list.as_str());
            sql.append(")");
        },
        None => {},
    }
    sql.append(" ORDER BY start_ms");
    let params: Vec<Value> = Vec::new();
    assert(values(params@) =~= Seq::empty());
    assert(sql@ =~= SELECT_SESSIONS@ + (match ids {
        Some(v) => " WHERE id IN ("@ + number_list(v@) + ")"@,
        None => Seq::empty(),
    }) + " ORDER BY start_ms"@);
    Statement { sql, params }
}

pub const SELECT_MARKS: &'static str =
    "SELECT ts_ms, kind, detail FROM marks WHERE ts_ms >= ?1 AND ts_ms <= ?2 ORDER BY seq";

/// The statement that gives the marks between two times: from zero and without
/// end, where no time is given.
pub open spec fn mark_statement(from_ms: Option<i64>, to_ms: Option<i64>) -> StatementView {
    StatementView {
        sql: SELECT_MARKS@,
        params: seq![
            ValueView::Int(
                match from_ms {
                    Some(t) => t,
                    None => 0,
                },
            ),
            ValueView::Int(
                match to_ms {
                    Some(t) => t,
                    None => i64::MAX,
                },
            ),
        ],
    }
}

/// The statement that gives the marks between two times.
pub fn query_marks(from_ms: Option<i64>, to_ms: Option<i64>) -> (s: Statement)
    ensures
        s.view() == mark_statement(from_ms, to_ms),
{
    let from: i64 = match from_ms {
        Some(t) => t,
        None => 0,
    };
    let to: i64 = match to_ms {
        Some(t) => t,
        None => i64::MAX,
    };
    let v = vec![Value::Int(from), Value::Int(to)];
    assert(values(v@) =~= seq![ValueView::Int(from), ValueView::Int(to)]);
    statement(SELECT_MARKS, v)
}

pub const INSERT_HOLD: &'static str =
    "INSERT INTO holds(from_ms, to_ms, note, created_ms) VALUES (?1, ?2, ?3, ?4)";

pub const SELECT_HOLDS: &'static str = "SELECT id, from_ms, to_ms, note FROM holds ORDER BY id";

pub const DELETE_HOLD: &'static str = "DELETE FROM holds WHERE id=?1";

/// The statement that keeps a stretch of time from being deleted.
pub fn add_hold(from_ms: i64, to_ms: i64, note: Option<&str>, now: i64) -> (s: Statement)
    ensures
        s.view() == (StatementView {
            sql: INSERT_HOLD@,
            params: seq![
                ValueView::Int(from_ms),
                ValueView::Int(to_ms),
                match note {
                    Some(n) => ValueView::Text(n@),
                    None => ValueView::Null,
                },
                ValueView::Int(now),
            ],
        }),
{
    let words = match note {
        Some(n) => Value::Text(String::from_str(n)),
        None => Value::Null,
    };
    let v = vec![Value::Int(from_ms), Value::Int(to_ms), words, Value::Int(now)];
    assert(values(v@) =~= seq![
        ValueView::Int(from_ms),
        ValueView::Int(to_ms),
        match note {
            Some(n) => ValueView::Text(n@),
            None => ValueView::Null,
        },
        ValueView::Int(now),
    ]);
    statement(INSERT_HOLD, v)
}

/// The statement that lists the holds, oldest first.
pub fn list_holds() -> (s: Statement)
    ensures
        s.view() == (StatementView { sql: SELECT_HOLDS@, params: seq![] }),
{
    let v: Vec<Value> = Vec::new();
    assert(values(v@) =~= seq![]);
    statement(SELECT_HOLDS, v)
}

/// The statement that gives up a hold.
pub fn remove_hold(id: i64) -> (s: Statement)
    ensures
        s.view() == (StatementView { sql: DELETE_HOLD@, params: seq![ValueView::Int(id)] }),
{
    let v = vec![Value::Int(id)];
    assert(values(v@) =~= seq![ValueView::Int(id)]);
    statement(DELETE_HOLD, v)
}

/// What a column of the table of flows holds of a flow; `None` for a name that
/// is no column.
pub open spec fn cell(r: FlowRow, column: Seq<char>) -> Option<ValueView> {
    if column == "id"@ {
        Some(ValueView::Int(r.id))
    } else if column == "session_id"@ {
        Some(ValueView::Int(r.session_id))
    } else if column == "proto"@ {
        Some(ValueView::Int(r.proto as i64))
    } else if column == "src_ip"@ {
        Some(ValueView::Text(r.src@))
    } else if column == "src_port"@ {
        Some(ValueView::Int(r.src_port as i64))
    } else if column == "dst_ip"@ {
        Some(ValueView::Text(r.dst@))
    } else if column == "dst_port"@ {
        Some(ValueView::Int(r.dst_port as i64))
    } else if column == "first_ms"@ {
        Some(ValueView::Int(r.first_ms))
    } else if column == "last_ms"@ {
        Some(
            match r.last_ms {
                Some(t) => ValueView::Int(t),
                None => ValueView::Null,
            },
        )
    } else {
        None
    }
}

/// Whether a comparison of a cell with a value holds. One with NULL never does.
pub open spec fn compares(c: Option<ValueView>, sign: Seq<char>, v: Option<ValueView>) -> bool {
    match (c, v) {
        (Some(ValueView::Int(a)), Some(ValueView::Int(b))) => {
            ||| sign == "="@ && a == b
            ||| sign == "<="@ && a <= b
            ||| sign == ">="@ && a >= b
        },
        (Some(ValueView::Text(a)), Some(ValueView::Text(b))) => sign == "="@ && a == b,
        _ => false,
    }
}

/// The value that a numbered placeholder stands for.
pub open spec fn placeholder(word: Seq<char>, params: Seq<ValueView>) -> Option<ValueView> {
    let n = text::number_in(word.skip(1), 10, 0xffff);
    if word.len() > 0 && word[0] == '?' && n is Some && 0 < n->0 <= params.len() {
        Some(params[n->0 - 1])
    } else {
        None
    }
}

/// Whether a flow meets the conditions that words spell, up to the order in
/// which the flows are to come: `AND column sign placeholder`, or
/// `AND (column IS NULL OR column sign placeholder)`.
pub open spec fn meets(r: FlowRow, words: Seq<Seq<char>>, params: Seq<ValueView>) -> bool
    decreases words.len(),
{
    if words.len() == 0 || words[0] == "ORDER"@ {
        true
    } else if words[0] != "AND"@ || words.len() < 4 {
        false
    } else if words[1].len() > 0 && words[1][0] == '(' {
        &&& words.len() >= 8
        &&& words[2] == "IS"@ && words[3] == "NULL"@ && words[4] == "OR"@
        &&& words[7].len() > 0 && words[7].last() == ')'
        &&& cell(r, words[1].skip(1)) == Some(ValueView::Null) || compares(
            cell(r, words[5]),
            words[6],
            placeholder(words[7].drop_last(), params),
        )
        &&& meets(r, words.skip(8), params)
    } else {
        &&& compares(cell(r, words[1]), words[2], placeholder(words[3], params))
        &&& meets(r, words.skip(4), params)
    }
}

/// The words of a statement behind the selection of all flows.
pub open spec fn asked(s: StatementView) -> Seq<Seq<char>> {
    text::split(s.sql.skip(SELECT_FLOWS@.len() as int), ' ').skip(1)
}

/// Whether a statement gives a flow of the log.
pub open spec fn gives(s: StatementView, r: FlowRow) -> bool {
    &&& SELECT_FLOWS@.len() <= s.sql.len()
    &&& s.sql.take(SELECT_FLOWS@.len() as int) == SELECT_FLOWS@
    &&& meets(r, asked(s), s.params)
}

/// The words of the `n`th condition.
spec fn condition_words(c: Condition, n: nat) -> Seq<Seq<char>> {
    text::split(c.before.skip(1) + text::dec(n) + c.behind, ' ')
}

/// The words of conditions.
spec fn all_words(cs: Seq<Condition>) -> Seq<Seq<char>>
    decreases cs.len(),
{
    if cs.len() == 0 {
        Seq::empty()
    } else {
        all_words(cs.drop_last()) + condition_words(cs.last(), cs.len())
    }
}

proof fn lemma_all_words(cs: Seq<Condition>)
    requires
        forall|i: int|
            0 <= i < cs.len() ==> (#[trigger] cs[i]).before.len() > 0 && cs[i].before[0] == ' ',
    ensures
        text::split(conditions_text(cs), ' ') == seq![Seq::<char>::empty()] + all_words(cs),
    decreases cs.len(),
{
    if cs.len() == 0 {
        text::place_of_is_first(Seq::empty(), ' ', 0);
        assert(text::split(Seq::empty(), ' ') =~= seq![Seq::<char>::empty()]);
    } else {
        let init = cs.drop_last();
        let c = cs.last();
        lemma_all_words(init);
        let rest = c.before.skip(1) + text::dec(cs.len()) + c.behind;
        assert(cs[cs.len() - 1].before[0] == ' ');
        assert(conditions_text(cs) =~= conditions_text(init).push(' ') + rest);
        text::split_of_two(conditions_text(init), ' ', rest);
        assert(seq![Seq::<char>::empty()] + all_words(init) + condition_words(c, cs.len())
            =~= seq![Seq::<char>::empty()] + all_words(cs));
    }
}

proof fn lemma_placeholder(n: nat, params: Seq<ValueView>)
    requires
        0 < n <= params.len(),
        n <= 0xffff,
    ensures
        placeholder("?"@ + text::dec(n), params) == Some(params[n - 1]),
        !("?"@ + text::dec(n)).contains(' '),
{
    reveal_strlit("?");
    text::numeral_reads_back(n, 10);
    text::numeral_has_no(n, 10, ' ');
    let word = "?"@ + text::dec(n);
    assert(word.skip(1) =~= text::dec(n));
    if word.contains(' ') {
        let i = word.index_of(' ');
        assert(text::dec(n)[i - 1] == ' ');
        assert(text::dec(n).contains(' '));
    }
}

proof fn lemma_four_words(a: Seq<char>, b: Seq<char>, c: Seq<char>, d: Seq<char>)
    requires
        !a.contains(' '),
        !b.contains(' '),
        !c.contains(' '),
        !d.contains(' '),
    ensures
        text::split(a.push(' ') + (b.push(' ') + (c.push(' ') + d)), ' ') == seq![a, b, c, d],
{
    text::split_of_two(a, ' ', b.push(' ') + (c.push(' ') + d));
    text::split_of_two(b, ' ', c.push(' ') + d);
    text::split_of_two(c, ' ', d);
    text::split_of_one(a, ' ');
    text::split_of_one(b, ' ');
    text::split_of_one(c, ' ');
    text::split_of_one(d, ' ');
}

/// A condition on one column is met by the flows whose cell compares so.
proof fn lemma_simple(
    c: Condition,
    column: Seq<char>,
    sign: Seq<char>,
    n: nat,
    params: Seq<ValueView>,
    tail: Seq<Seq<char>>,
    r: FlowRow,
)
    requires
        c.before == " AND "@ + column + " "@ + sign + " ?"@,
        c.behind == ""@,
        column.len() > 0,
        column[0] != '(',
        !column.contains(' '),
        !sign.contains(' '),
        0 < n <= params.len(),
        n <= 0xffff,
    ensures
        meets(r, condition_words(c, n) + tail, params) <==> compares(
            cell(r, column),
            sign,
            Some(params[n - 1]),
        ) && meets(r, tail, params),
{
    reveal_strlit(" AND ");
    reveal_strlit("AND");
    reveal_strlit(" ");
    reveal_strlit(" ?");
    reveal_strlit("?");
    reveal_strlit("");
    reveal_strlit("ORDER");
    lemma_placeholder(n, params);
    let last = "?"@ + text::dec(n);
    lemma_four_words("AND"@, column, sign, last);
    assert(c.before.skip(1) + text::dec(n) + c.behind =~= "AND"@.push(' ') + (column.push(' ') + (
    sign.push(' ') + last)));
    let words = condition_words(c, n) + tail;
    assert(words[0] == "AND"@ && words[1] == column && words[2] == sign && words[3] == last);
    assert(words.skip(4) =~= tail);
    assert("AND"@[0] != "ORDER"@[0]);
}

proof fn lemma_open_or_ends(
    c: Condition,
    n: nat,
    params: Seq<ValueView>,
    tail: Seq<Seq<char>>,
    r: FlowRow,
)
    requires
        c.before == spelled(5),
        c.behind == ")"@,
        0 < n <= params.len(),
        n <= 0xffff,
    ensures
        meets(r, condition_words(c, n) + tail, params) <==> (cell(r, "last_ms"@) == Some(
            ValueView::Null,
        ) || compares(cell(r, "last_ms"@), ">="@, Some(params[n - 1]))) && meets(r, tail, params),
{
    reveal_strlit(" AND (last_ms IS NULL OR last_ms >= ?");
    reveal_strlit("AND");
    reveal_strlit("(last_ms");
    reveal_strlit("last_ms");
    reveal_strlit("IS");
    reveal_strlit("NULL");
    reveal_strlit("OR");
    reveal_strlit(">=");
    reveal_strlit("?");
    reveal_strlit(")");
    reveal_strlit("ORDER");
    lemma_placeholder(n, params);
    let last = ("?"@ + text::dec(n)).push(')');
    assert(!last.contains(' ')) by {
        if last.contains(' ') {
            let i = last.index_of(' ');
            assert(("?"@ + text::dec(n))[i] == ' ');
            assert(("?"@ + text::dec(n)).contains(' '));
        }
    }
    let tail_text = "OR"@.push(' ') + ("last_ms"@.push(' ') + (">="@.push(' ') + last));
    lemma_four_words("OR"@, "last_ms"@, ">="@, last);
    text::split_of_two("AND"@, ' ', "(last_ms"@.push(' ') + ("IS"@.push(' ') + ("NULL"@.push(' ')
        + tail_text)));
    text::split_of_two("(last_ms"@, ' ', "IS"@.push(' ') + ("NULL"@.push(' ') + tail_text));
    text::split_of_two("IS"@, ' ', "NULL"@.push(' ') + tail_text);
    text::split_of_two("NULL"@, ' ', tail_text);
    text::split_of_one("AND"@, ' ');
    text::split_of_one("(last_ms"@, ' ');
    text::split_of_one("IS"@, ' ');
    text::split_of_one("NULL"@, ' ');
    assert(c.before.skip(1) + text::dec(n) + c.behind =~= "AND"@.push(' ') + ("(last_ms"@.push(' ')
        + ("IS"@.push(' ') + ("NULL"@.push(' ') + tail_text))));
    let words = condition_words(c, n) + tail;
    assert(words[0] == "AND"@ && words[1] == "(last_ms"@ && words[2] == "IS"@ && words[3] == "NULL"@
        && words[4] == "OR"@ && words[5] == "last_ms"@ && words[6] == ">="@ && words[7] == last);
    assert(words.skip(8) =~= tail);
    assert("(last_ms"@.skip(1) =~= "last_ms"@);
    assert(last.drop_last() =~= "?"@ + text::dec(n));
    assert("AND"@[0] != "ORDER"@[0]);
}

/// The words that a condition adds as the `n`th, where there is one.
spec fn words_if(v: Option<ValueView>, before: Seq<char>, behind: Seq<char>, n: nat) -> Seq<
    Seq<char>,
> {
    match v {
        Some(value) => condition_words(Condition { before, behind, value }, n),
        None => Seq::empty(),
    }
}

proof fn lemma_words_if(
    cs: Seq<Condition>,
    v: Option<ValueView>,
    before: Seq<char>,
    behind: Seq<char>,
)
    ensures
        all_words(cs + condition_if(v, before, behind)) == all_words(cs) + words_if(
            v,
            before,
            behind,
            cs.len() + 1,
        ),
{
    match v {
        Some(value) => {
            let c = Condition { before, behind, value };
            let next = cs + condition_if(v, before, behind);
            assert(next.drop_last() =~= cs);
            assert(next.last() == c);
        },
        None => {
            assert(cs + condition_if(v, before, behind) =~= cs);
            assert(all_words(cs) + Seq::empty() =~= all_words(cs));
        },
    }
}

proof fn lemma_column_cells(r: FlowRow)
    ensures
        cell(r, "dst_ip"@) == Some(ValueView::Text(r.dst@)),
        cell(r, "dst_port"@) == Some(ValueView::Int(r.dst_port as i64)),
        cell(r, "session_id"@) == Some(ValueView::Int(r.session_id)),
        cell(r, "first_ms"@) == Some(ValueView::Int(r.first_ms)),
        cell(r, "last_ms"@) == Some(
            match r.last_ms {
                Some(t) => ValueView::Int(t),
                None => ValueView::Null,
            },
        ),
{
    reveal_strlit("id");
    reveal_strlit("session_id");
    reveal_strlit("proto");
    reveal_strlit("src_ip");
    reveal_strlit("src_port");
    reveal_strlit("dst_ip");
    reveal_strlit("dst_port");
    reveal_strlit("first_ms");
    reveal_strlit("last_ms");
    assert("src_ip"@[0] == 's' && "src_port"@[0] == 's' && "dst_ip"@[0] == 'd' && "dst_port"@[0]
        == 'd' && "first_ms"@[0] == 'f' && "last_ms"@[0] == 'l');
    assert("id"@.len() == 2 && "session_id"@.len() == 10 && "proto"@.len() == 5);
    assert("dst_ip"@.len() == 6 && "dst_port"@.len() == 8 && "first_ms"@.len() == 8
        && "last_ms"@.len() == 7);
}

proof fn lemma_comparisons(a: ValueView, b: ValueView)
    ensures
        compares(Some(a), "="@, Some(b)) <==> {
            ||| a matches ValueView::Int(x) && b matches ValueView::Int(y) && x == y
            ||| a matches ValueView::Text(x) && b matches ValueView::Text(y) && x == y
        },
        compares(Some(a), "<="@, Some(b)) <==> (a matches ValueView::Int(x) && b matches
            ValueView::Int(y) && x <= y),
        compares(Some(a), ">="@, Some(b)) <==> (a matches ValueView::Int(x) && b matches
            ValueView::Int(y) && x >= y),
{
    reveal_strlit("=");
    reveal_strlit("<=");
    reveal_strlit(">=");
    assert("="@.len() == 1 && "<="@.len() == 2 && ">="@.len() == 2);
    assert("<="@[0] == '<' && ">="@[0] == '>');
}

/// What stands before the number in the `k`th condition that there can be.
spec fn spelled(k: int) -> Seq<char> {
    if k == 1 {
        " AND dst_ip = ?"@
    } else if k == 2 {
        " AND dst_port = ?"@
    } else if k == 3 {
        " AND session_id = ?"@
    } else if k == 4 {
        " AND first_ms <= ?"@
    } else {
        " AND (last_ms IS NULL OR last_ms >= ?"@
    }
}

/// The conditions of a query as SQL spells them.
proof fn lemma_spelled()
    ensures
        " AND dst_ip = ?"@ == " AND "@ + "dst_ip"@ + " "@ + "="@ + " ?"@,
        " AND dst_port = ?"@ == " AND "@ + "dst_port"@ + " "@ + "="@ + " ?"@,
        " AND session_id = ?"@ == " AND "@ + "session_id"@ + " "@ + "="@ + " ?"@,
        " AND first_ms <= ?"@ == " AND "@ + "first_ms"@ + " "@ + "<="@ + " ?"@,
{
    reveal_strlit(" AND dst_ip = ?");
    reveal_strlit(" AND dst_port = ?");
    reveal_strlit(" AND session_id = ?");
    reveal_strlit(" AND first_ms <= ?");
    reveal_strlit(" AND ");
    reveal_strlit("dst_ip");
    reveal_strlit("dst_port");
    reveal_strlit("session_id");
    reveal_strlit("first_ms");
    reveal_strlit(" ");
    reveal_strlit("=");
    reveal_strlit("<=");
    reveal_strlit(" ?");
    assert(" AND dst_ip = ?"@ =~= " AND "@ + "dst_ip"@ + " "@ + "="@ + " ?"@);
    assert(" AND dst_port = ?"@ =~= " AND "@ + "dst_port"@ + " "@ + "="@ + " ?"@);
    assert(" AND session_id = ?"@ =~= " AND "@ + "session_id"@ + " "@ + "="@ + " ?"@);
    assert(" AND first_ms <= ?"@ =~= " AND "@ + "first_ms"@ + " "@ + "<="@ + " ?"@);
}

/// Of the flows of the log, the statement of a query gives exactly those to the
/// address and the port that are asked for, of the session that is asked for,
/// and whose stretch of time overlaps the one that is asked for, where a flow
/// without an end goes on. What is not asked for excludes no flow.
pub proof fn query_gives_what_is_asked_for(q: FlowQuery, r: FlowRow)
    ensures
        gives(flow_statement(q), r) <==> {
            &&& q.ip matches Some(ip) ==> r.dst@ == ip.text()
            &&& q.port matches Some(p) ==> r.dst_port == p
            &&& q.session matches Some(n) ==> r.session_id == n
            &&& q.to_ms matches Some(t) ==> r.first_ms <= t
            &&& q.from_ms matches Some(t) ==> r.last_ms is None || t <= r.last_ms->0
        },
{
    let s = flow_statement(q);
    let order = seq!["ORDER"@, "BY"@, "first_ms"@];
    let t5 = words_if(wanted(q, 5), spelled(5), ")"@, number(q, 5))
        + order;
    let t4 = words_if(wanted(q, 4), spelled(4), ""@, number(q, 4)) + t5;
    let t3 = words_if(wanted(q, 3), spelled(3), ""@, number(q, 3)) + t4;
    let t2 = words_if(wanted(q, 2), spelled(2), ""@, number(q, 2)) + t3;
    lemma_query_words(q);
    lemma_query_values(q);
    lemma_column_cells(r);
    lemma_spelled();
    lemma_meets_one(
        wanted(q, 1),
        spelled(1),
        "dst_ip"@,
        "="@,
        number(q, 1),
        s.params,
        t2,
        r,
    );
    lemma_meets_one(
        wanted(q, 2),
        spelled(2),
        "dst_port"@,
        "="@,
        number(q, 2),
        s.params,
        t3,
        r,
    );
    lemma_meets_one(
        wanted(q, 3),
        spelled(3),
        "session_id"@,
        "="@,
        number(q, 3),
        s.params,
        t4,
        r,
    );
    lemma_meets_one(
        wanted(q, 4),
        spelled(4),
        "first_ms"@,
        "<="@,
        number(q, 4),
        s.params,
        t5,
        r,
    );
    lemma_meets_end(wanted(q, 5), number(q, 5), s.params, order, r);
    assert(meets(r, order, s.params));
    assert(s.sql.take(SELECT_FLOWS@.len() as int) =~= SELECT_FLOWS@);
    if q.ip is Some {
        lemma_comparisons(ValueView::Text(r.dst@), wanted(q, 1)->0);
    }
    if q.port is Some {
        lemma_comparisons(ValueView::Int(r.dst_port as i64), wanted(q, 2)->0);
    }
    if q.session is Some {
        lemma_comparisons(ValueView::Int(r.session_id), wanted(q, 3)->0);
    }
    if q.to_ms is Some {
        lemma_comparisons(ValueView::Int(r.first_ms), wanted(q, 4)->0);
    }
}

/// The value of the `k`th thing that can be asked for.
spec fn wanted(q: FlowQuery, k: int) -> Option<ValueView> {
    if k == 1 {
        match q.ip {
            Some(ip) => Some(ValueView::Text(ip.text())),
            None => None,
        }
    } else if k == 2 {
        match q.port {
            Some(p) => Some(ValueView::Int(p as i64)),
            None => None,
        }
    } else {
        match (if k == 3 {
            q.session
        } else if k == 4 {
            q.to_ms
        } else {
            q.from_ms
        }) {
            Some(n) => Some(ValueView::Int(n)),
            None => None,
        }
    }
}

/// The number of the placeholder of the `k`th thing that can be asked for.
spec fn number(q: FlowQuery, k: int) -> nat
    decreases k,
{
    if k <= 1 {
        1
    } else {
        number(q, k - 1) + if wanted(q, k - 1) is Some {
            1nat
        } else {
            0
        }
    }
}

proof fn lemma_query_words(q: FlowQuery)
    ensures
        asked(flow_statement(q)) == words_if(wanted(q, 1), spelled(1), ""@, number(q, 1)) + (
        words_if(wanted(q, 2), spelled(2), ""@, number(q, 2)) + (words_if(
            wanted(q, 3),
            spelled(3),
            ""@,
            number(q, 3),
        ) + (words_if(wanted(q, 4), spelled(4), ""@, number(q, 4)) + (words_if(
            wanted(q, 5),
            spelled(5),
            ")"@,
            number(q, 5),
        ) + seq!["ORDER"@, "BY"@, "first_ms"@])))),
{
    let cs = conditions(q);
    let b1 = " AND dst_ip = ?"@;
    let b2 = " AND dst_port = ?"@;
    let b3 = " AND session_id = ?"@;
    let b4 = " AND first_ms <= ?"@;
    let b5 = " AND (last_ms IS NULL OR last_ms >= ?"@;
    let c0 = Seq::<Condition>::empty();
    let c1 = condition_if(wanted(q, 1), b1, ""@);
    let c2 = c1 + condition_if(wanted(q, 2), b2, ""@);
    let c3 = c2 + condition_if(wanted(q, 3), b3, ""@);
    let c4 = c3 + condition_if(wanted(q, 4), b4, ""@);
    reveal_with_fuel(number, 5);
    assert(number(q, 2) == c1.len() + 1);
    assert(number(q, 3) == c2.len() + 1);
    assert(number(q, 4) == c3.len() + 1);
    assert(number(q, 5) == c4.len() + 1);
    assert(cs == c4 + condition_if(wanted(q, 5), b5, ")"@));
    assert(c0 + c1 =~= c1);
    lemma_words_if(c0, wanted(q, 1), b1, ""@);
    lemma_words_if(c1, wanted(q, 2), b2, ""@);
    lemma_words_if(c2, wanted(q, 3), b3, ""@);
    lemma_words_if(c3, wanted(q, 4), b4, ""@);
    lemma_words_if(c4, wanted(q, 5), b5, ")"@);
    let w1 = words_if(wanted(q, 1), b1, ""@, number(q, 1));
    let w2 = words_if(wanted(q, 2), b2, ""@, number(q, 2));
    let w3 = words_if(wanted(q, 3), b3, ""@, number(q, 3));
    let w4 = words_if(wanted(q, 4), b4, ""@, number(q, 4));
    let w5 = words_if(wanted(q, 5), b5, ")"@, number(q, 5));
    let order = seq!["ORDER"@, "BY"@, "first_ms"@];
    lemma_conditions_start(q);
    lemma_all_words(cs);
    lemma_ordered(cs);
    assert(all_words(c0) + w1 =~= w1);
    assert(all_words(cs) == w1 + w2 + w3 + w4 + w5);
    assert(w1 + w2 + w3 + w4 + w5 + order =~= w1 + (w2 + (w3 + (w4 + (w5 + order)))));
}

proof fn lemma_conditions_start(q: FlowQuery)
    ensures
        forall|i: int|
            0 <= i < conditions(q).len() ==> (#[trigger] conditions(q)[i]).before.len() > 0
                && conditions(q)[i].before[0] == ' ',
{
    reveal_strlit(" AND dst_ip = ?");
    reveal_strlit(" AND dst_port = ?");
    reveal_strlit(" AND session_id = ?");
    reveal_strlit(" AND first_ms <= ?");
    reveal_strlit(" AND (last_ms IS NULL OR last_ms >= ?");
}

proof fn lemma_query_values(q: FlowQuery)
    ensures
        forall|k: int|
            1 <= k <= 5 && #[trigger] wanted(q, k) is Some ==> 0 < number(q, k) <= flow_statement(
                q,
            ).params.len() && number(q, k) <= 5 && flow_statement(q).params[number(q, k) - 1]
                == wanted(q, k)->0,
{
    reveal_with_fuel(number, 5);
    let params = flow_statement(q).params;
    assert forall|k: int| 1 <= k <= 5 && #[trigger] wanted(q, k) is Some implies 0 < number(q, k)
        <= params.len() && number(q, k) <= 5 && params[number(q, k) - 1] == wanted(q, k)->0 by {
        if k == 1 {
        } else if k == 2 {
        } else if k == 3 {
        } else if k == 4 {
        } else {
        }
    }
}

proof fn lemma_meets_end(
    v: Option<ValueView>,
    n: nat,
    params: Seq<ValueView>,
    tail: Seq<Seq<char>>,
    r: FlowRow,
)
    requires
        v is Some ==> 0 < n <= params.len() && n <= 0xffff && params[n - 1] == v->0,
        v matches Some(w) ==> w is Int,
    ensures
        meets(
            r,
            words_if(v, spelled(5), ")"@, n) + tail,
            params,
        ) <==> (v is Some ==> r.last_ms is None || v->0->Int_0 <= r.last_ms->0) && meets(
            r,
            tail,
            params,
        ),
{
    let before = " AND (last_ms IS NULL OR last_ms >= ?"@;
    lemma_column_cells(r);
    match v {
        Some(value) => {
            lemma_open_or_ends(Condition { before, behind: ")"@, value }, n, params, tail, r);
            lemma_comparisons(
                match r.last_ms {
                    Some(t) => ValueView::Int(t),
                    None => ValueView::Null,
                },
                value,
            );
        },
        None => {
            assert(words_if(v, before, ")"@, n) + tail =~= tail);
        },
    }
}

proof fn lemma_meets_one(
    v: Option<ValueView>,
    before: Seq<char>,
    column: Seq<char>,
    sign: Seq<char>,
    n: nat,
    params: Seq<ValueView>,
    tail: Seq<Seq<char>>,
    r: FlowRow,
)
    requires
        before == " AND "@ + column + " "@ + sign + " ?"@,
        column == "dst_ip"@ || column == "dst_port"@ || column == "session_id"@ || column
            == "first_ms"@,
        sign == "="@ || sign == "<="@,
        v is Some ==> 0 < n <= params.len() && n <= 0xffff && params[n - 1] == v->0,
    ensures
        meets(r, words_if(v, before, ""@, n) + tail, params) <==> (v is Some ==> compares(
            cell(r, column),
            sign,
            v,
        )) && meets(r, tail, params),
{
    reveal_strlit("dst_ip");
    reveal_strlit("dst_port");
    reveal_strlit("session_id");
    reveal_strlit("first_ms");
    reveal_strlit("=");
    reveal_strlit("<=");
    match v {
        Some(value) => {
            assert(column[0] != '(');
            assert(!column.contains(' '));
            assert(!sign.contains(' '));
            lemma_simple(
                Condition { before, behind: ""@, value },
                column,
                sign,
                n,
                params,
                tail,
                r,
            );
        },
        None => {
            assert(words_if(v, before, ""@, n) + tail =~= tail);
        },
    }
}

/// The flows come in the order in which they began.
pub proof fn flows_come_oldest_first(q: FlowQuery)
    ensures
        ({
            let words = asked(flow_statement(q));
            let n = words.len() as int;
            n >= 3 && words.skip(n - 3) == seq!["ORDER"@, "BY"@, "first_ms"@]
        }),
{
    let cs = conditions(q);
    let order = seq!["ORDER"@, "BY"@, "first_ms"@];
    lemma_conditions_start(q);
    lemma_all_words(cs);
    lemma_ordered(cs);
    let words = asked(flow_statement(q));
    assert(words.skip(words.len() - 3) =~= order);
}

proof fn lemma_ordered(cs: Seq<Condition>)
    requires
        text::split(conditions_text(cs), ' ') == seq![Seq::<char>::empty()] + all_words(cs),
    ensures
        ({
            let sql = SELECT_FLOWS@ + conditions_text(cs) + " ORDER BY first_ms"@;
            text::split(sql.skip(SELECT_FLOWS@.len() as int), ' ').skip(1) == all_words(cs) + seq![
                "ORDER"@,
                "BY"@,
                "first_ms"@,
            ]
        }),
{
    reveal_strlit(" ORDER BY first_ms");
    reveal_strlit("ORDER");
    reveal_strlit("BY");
    reveal_strlit("first_ms");
    let sql = SELECT_FLOWS@ + conditions_text(cs) + " ORDER BY first_ms"@;
    let order = "ORDER"@.push(' ') + ("BY"@.push(' ') + "first_ms"@);
    assert(sql.skip(SELECT_FLOWS@.len() as int) =~= conditions_text(cs).push(' ') + order);
    text::split_of_two(conditions_text(cs), ' ', order);
    text::split_of_two("ORDER"@, ' ', "BY"@.push(' ') + "first_ms"@);
    text::split_of_two("BY"@, ' ', "first_ms"@);
    text::split_of_one("ORDER"@, ' ');
    text::split_of_one("BY"@, ' ');
    text::split_of_one("first_ms"@, ' ');
    assert(text::split(sql.skip(SELECT_FLOWS@.len() as int), ' ').skip(1) =~= all_words(cs) + seq![
        "ORDER"@,
        "BY"@,
        "first_ms"@,
    ]);
}

/// A record may be made while the bucket holds a token, and as soon as enough
/// time has passed since the last one was asked for to fill one in; otherwise
/// it may not. The bucket never fills past its size.
pub proof fn tokens_let_records_pass(t: Throttle, now: i64)
    requires
        t.wf(),
    ensures
        t.milli_tokens >= 1000 ==> allowed(t, now).1,
        t.last_ms != 0 && now > t.last_ms && (now - t.last_ms) * t.rate_per_sec >= 1000 ==> allowed(
            t,
            now,
        ).1,
        t.milli_tokens < 1000 && (t.last_ms == 0 || now <= t.last_ms) ==> !allowed(t, now).1,
        t.last_ms != 0 && now > t.last_ms && t.milli_tokens + (now - t.last_ms) * t.rate_per_sec
            < 1000 ==> !allowed(t, now).1,
        allowed(t, now).0.milli_tokens <= t.burst * 1000,
        allowed(t, now).0.last_ms == now,
        allowed(t, now).2 is Some <==> allowed(t, now).1 && t.suppressed > 0,
{
    if t.last_ms != 0 && now > t.last_ms {
        let gone = now - t.last_ms;
        let rate = t.rate_per_sec as int;
        assert(gone * rate >= 0) by (nonlinear_arith)
            requires
                gone >= 0,
                rate >= 0,
        ;
    }
}

/// A bucket that is new lets as many records pass as it is large, and then no
/// more at the same time.
pub proof fn burst_passes(rate: u32, burst: u32, n: nat, now: i64)
    requires
        burst > 0,
    ensures
        ({
            let run = throttled(full_bucket(rate, burst), Seq::new(n, |i: int| now));
            &&& run.made == if n <= burst {
                n as int
            } else {
                burst as int
            }
            &&& run.throttle.milli_tokens == (burst - run.made) * 1000
            &&& run.throttle.burst == burst
        }),
    decreases n,
{
    let times = Seq::new(n, |i: int| now);
    if n > 0 {
        burst_passes(rate, burst, (n - 1) as nat, now);
        assert(times.drop_last() =~= Seq::new((n - 1) as nat, |i: int| now));
        if n > 1 {
            lemma_last_asked(full_bucket(rate, burst), times.drop_last());
        }
    }
}

proof fn lemma_last_asked(t: Throttle, times: Seq<i64>)
    requires
        times.len() > 0,
    ensures
        throttled(t, times).throttle.last_ms == times.last(),
{
}

/// What is told of the records that were left out: the time of the first and
/// of the last of them, and how many there were.
pub proof fn left_out_records_are_told(t: Throttle, times: Seq<i64>)
    requires
        t.suppressed == 0,
        0 < times.len() < u64::MAX,
        throttled(t, times).made == 0,
    ensures
        summary(throttled(t, times).throttle) == Some((times[0], times.last(), times.len() as u64)),
    decreases times.len(),
{
    let init = times.drop_last();
    if init.len() > 0 {
        left_out_records_are_told(t, init);
        assert(init[0] == times[0]);
    } else {
        assert(throttled(t, init) == (ThrottleRun { throttle: t, made: 0, left_out: 0, told: 0 }));
    }
}

/// The clock of the day has jumped exactly if it went on by over two seconds
/// more, or less, than the steady clock did.
pub proof fn jumps_are_over_two_seconds(s: WriterState, wall: i64, mono: u64)
    requires
        s.anchor_mono_ms <= mono,
    ensures
        jumped(s, wall, mono) <==> {
            let day = wall - s.anchor_wall_ms;
            let steady = mono - s.anchor_mono_ms;
            day > steady + 2_000 || day + 2_000 < steady
        },
{
}

/// A counter of traffic goes on after its largest value at zero.
pub proof fn counters_wrap(n: u64, more: u64)
    ensures
        counted(n, more) == (n + more) % 0x1_0000_0000_0000_0000,
{
}

/// Whether nothing that is on hold touches a stretch of time.
pub open spec fn free_of_holds(first: i64, last: i64, holds: Seq<Hold>) -> bool {
    forall|h: int|
        0 <= h < holds.len() ==> last < (#[trigger] holds[h]).from_ms || holds[h].to_ms < first
}

proof fn lemma_free(first: i64, last: i64, holds: Seq<Hold>)
    ensures
        is_held(first, last, holds) <==> !free_of_holds(first, last, holds),
{
    if !is_held(first, last, holds) {
        assert forall|h: int| 0 <= h < holds.len() implies last < (#[trigger] holds[h]).from_ms
            || holds[h].to_ms < first by {}
    }
}

proof fn lemma_flows_going(
    n: int,
    flows: Seq<FlowSpan>,
    sessions: Seq<SessionSpan>,
    holds: Seq<Hold>,
    cutoff: i64,
    i: int,
)
    requires
        0 <= i < n <= flows.len(),
        flow_goes(flows[i], sessions, holds, cutoff),
    ensures
        flows_going(n, flows, sessions, holds, cutoff).contains(flows[i].id),
    decreases n,
{
    let all = flows_going(n, flows, sessions, holds, cutoff);
    let before = flows_going(n - 1, flows, sessions, holds, cutoff);
    if i < n - 1 {
        lemma_flows_going(n - 1, flows, sessions, holds, cutoff, i);
        let k = before.index_of(flows[i].id);
        assert(all[k] == flows[i].id);
    } else {
        assert(all.last() == flows[i].id);
    }
}

/// Retention deletes a flow exactly if it ended, or where it has no end began,
/// before the cutoff, no hold touches it, and, where it has no end, its session
/// is not one that ended or began since.
pub proof fn retention_deletes_old_flows(
    flows: Seq<FlowSpan>,
    sessions: Seq<SessionSpan>,
    holds: Seq<Hold>,
    cutoff: i64,
    i: int,
)
    requires
        0 <= i < flows.len(),
        forall|j: int, k: int|
            0 <= j < k < flows.len() ==> (#[trigger] flows[j]).id != (#[trigger] flows[k]).id,
    ensures
        flows_going(flows.len() as int, flows, sessions, holds, cutoff).contains(flows[i].id) <==> {
            let f = flows[i];
            let last = if f.last_ms is Some {
                f.last_ms->0
            } else {
                f.first_ms
            };
            &&& last < cutoff
            &&& free_of_holds(f.first_ms, last, holds)
            &&& f.last_ms is Some || forall|k: int|
                0 <= k < sessions.len() && (#[trigger] sessions[k]).id == f.session_id
                    ==> if sessions[k].end_ms is Some {
                    sessions[k].end_ms->0 < cutoff
                } else {
                    sessions[k].start_ms < cutoff
                }
        },
{
    let f = flows[i];
    let n = flows.len() as int;
    lemma_free(f.first_ms, end_of(f.first_ms, f.last_ms), holds);
    if flow_goes(f, sessions, holds, cutoff) {
        lemma_flows_going(n, flows, sessions, holds, cutoff, i);
    }
    if flows_going(n, flows, sessions, holds, cutoff).contains(f.id) {
        going_flows_go(n, flows, sessions, holds, cutoff, f.id);
        let k = choose|k: int|
            0 <= k < n && (#[trigger] flows[k]).id == f.id && flow_goes(
                flows[k],
                sessions,
                holds,
                cutoff,
            );
        assert(k == i);
    }
}

proof fn lemma_sessions_going(
    n: int,
    flows: Seq<FlowSpan>,
    sessions: Seq<SessionSpan>,
    holds: Seq<Hold>,
    cutoff: i64,
    id: i64,
)
    requires
        0 <= n <= sessions.len(),
    ensures
        sessions_going(n, flows, sessions, holds, cutoff).contains(id) <==> exists|k: int|
            0 <= k < n && (#[trigger] sessions[k]).id == id && session_goes(
                sessions[k],
                flows,
                sessions,
                holds,
                cutoff,
            ),
    decreases n,
{
    if n > 0 {
        let all = sessions_going(n, flows, sessions, holds, cutoff);
        let before = sessions_going(n - 1, flows, sessions, holds, cutoff);
        lemma_sessions_going(n - 1, flows, sessions, holds, cutoff, id);
        if before.contains(id) {
            let k = before.index_of(id);
            assert(all[k] == id);
        }
        if session_goes(sessions[n - 1], flows, sessions, holds, cutoff) {
            assert(all.last() == sessions[n - 1].id);
        }
        if all.contains(id) && !before.contains(id) {
            let k = all.index_of(id);
            if k < before.len() {
                assert(before[k] == id);
            }
            assert(sessions[n - 1].id == id);
        }
    }
}

/// Retention deletes a session exactly if it ended, or where it has no end
/// began, before the cutoff, no hold touches it, and all of its flows are
/// deleted.
pub proof fn retention_deletes_old_sessions(
    flows: Seq<FlowSpan>,
    sessions: Seq<SessionSpan>,
    holds: Seq<Hold>,
    cutoff: i64,
    i: int,
)
    requires
        0 <= i < sessions.len(),
        forall|j: int, k: int|
            0 <= j < k < sessions.len() ==> (#[trigger] sessions[j]).id != (
            #[trigger] sessions[k]).id,
        forall|j: int, k: int|
            0 <= j < k < flows.len() ==> (#[trigger] flows[j]).id != (#[trigger] flows[k]).id,
    ensures
        sessions_going(sessions.len() as int, flows, sessions, holds, cutoff).contains(
            sessions[i].id,
        ) <==> {
            let s = sessions[i];
            let last = if s.end_ms is Some {
                s.end_ms->0
            } else {
                s.start_ms
            };
            &&& last < cutoff
            &&& free_of_holds(s.start_ms, last, holds)
            &&& forall|k: int|
                0 <= k < flows.len() && (#[trigger] flows[k]).session_id == s.id ==> flows_going(
                    flows.len() as int,
                    flows,
                    sessions,
                    holds,
                    cutoff,
                ).contains(flows[k].id)
        },
{
    let s = sessions[i];
    let going = flows_going(flows.len() as int, flows, sessions, holds, cutoff);
    lemma_free(s.start_ms, end_of(s.start_ms, s.end_ms), holds);
    lemma_sessions_going(sessions.len() as int, flows, sessions, holds, cutoff, s.id);
    assert forall|k: int| 0 <= k < flows.len() implies going.contains((#[trigger] flows[k]).id)
        == flow_goes(flows[k], sessions, holds, cutoff) by {
        if flow_goes(flows[k], sessions, holds, cutoff) {
            lemma_flows_going(flows.len() as int, flows, sessions, holds, cutoff, k);
        }
        if going.contains(flows[k].id) {
            going_flows_go(flows.len() as int, flows, sessions, holds, cutoff, flows[k].id);
            let j = choose|j: int|
                0 <= j < flows.len() && (#[trigger] flows[j]).id == flows[k].id && flow_goes(
                    flows[j],
                    sessions,
                    holds,
                    cutoff,
                );
            assert(j == k);
        }
    }
    assert(has_flow(s.id, flows, sessions, holds, cutoff) <==> !(forall|k: int|
        0 <= k < flows.len() && (#[trigger] flows[k]).session_id == s.id ==> going.contains(
            flows[k].id,
        ))) by {
        if has_flow(s.id, flows, sessions, holds, cutoff) {
            let k = choose|k: int|
                0 <= k < flows.len() && (#[trigger] flows[k]).session_id == s.id && !flow_goes(
                    flows[k],
                    sessions,
                    holds,
                    cutoff,
                );
            assert(!going.contains(flows[k].id));
        }
    }
    if session_goes(s, flows, sessions, holds, cutoff) {
        assert(sessions[i].id == s.id);
    }
}

/// Retention deletes a mark exactly if it is from before the cutoff and no hold
/// covers it.
pub proof fn retention_deletes_old_marks(
    marks: Seq<MarkSpan>,
    holds: Seq<Hold>,
    cutoff: i64,
    i: int,
)
    requires
        0 <= i < marks.len(),
        forall|j: int, k: int|
            0 <= j < k < marks.len() ==> (#[trigger] marks[j]).id != (#[trigger] marks[k]).id,
    ensures
        marks_going(marks.len() as int, marks, holds, cutoff).contains(marks[i].id)
            <==> marks[i].ts_ms < cutoff && forall|h: int|
            0 <= h < holds.len() ==> !((#[trigger] holds[h]).from_ms <= marks[i].ts_ms
                <= holds[h].to_ms),
{
    let m = marks[i];
    lemma_free(m.ts_ms, m.ts_ms, holds);
    lemma_marks_going(marks.len() as int, marks, holds, cutoff, m.id);
    if mark_goes(m, holds, cutoff) {
        assert(marks[i].id == m.id);
    }
}

proof fn lemma_marks_going(n: int, marks: Seq<MarkSpan>, holds: Seq<Hold>, cutoff: i64, id: i64)
    requires
        0 <= n <= marks.len(),
    ensures
        marks_going(n, marks, holds, cutoff).contains(id) <==> exists|k: int|
            0 <= k < n && (#[trigger] marks[k]).id == id && mark_goes(marks[k], holds, cutoff),
    decreases n,
{
    if n > 0 {
        let all = marks_going(n, marks, holds, cutoff);
        let before = marks_going(n - 1, marks, holds, cutoff);
        lemma_marks_going(n - 1, marks, holds, cutoff, id);
        if before.contains(id) {
            let k = before.index_of(id);
            assert(all[k] == id);
        }
        if mark_goes(marks[n - 1], holds, cutoff) {
            assert(all.last() == marks[n - 1].id);
        }
        if all.contains(id) && !before.contains(id) {
            let k = all.index_of(id);
            if k < before.len() {
                assert(before[k] == id);
            }
            assert(marks[n - 1].id == id);
        }
    }
}

/// Retention deletes an address exactly if no session under its number stays.
pub proof fn retention_deletes_addresses_of_gone_sessions(
    addrs: Seq<AddrSpan>,
    flows: Seq<FlowSpan>,
    sessions: Seq<SessionSpan>,
    holds: Seq<Hold>,
    cutoff: i64,
    i: int,
)
    requires
        0 <= i < addrs.len(),
        forall|j: int, k: int|
            0 <= j < k < addrs.len() ==> (#[trigger] addrs[j]).id != (#[trigger] addrs[k]).id,
        forall|j: int, k: int|
            0 <= j < k < sessions.len() ==> (#[trigger] sessions[j]).id != (
            #[trigger] sessions[k]).id,
    ensures
        addrs_going(addrs.len() as int, addrs, flows, sessions, holds, cutoff).contains(addrs[i].id)
            <==> forall|k: int|
            0 <= k < sessions.len() && (#[trigger] sessions[k]).id == addrs[i].session_id
                ==> sessions_going(sessions.len() as int, flows, sessions, holds, cutoff).contains(
                sessions[k].id,
            ),
{
    let a = addrs[i];
    lemma_addrs_going(addrs.len() as int, addrs, flows, sessions, holds, cutoff, a.id);
    lemma_sessions_going(sessions.len() as int, flows, sessions, holds, cutoff, a.session_id);
    let going = sessions_going(sessions.len() as int, flows, sessions, holds, cutoff);
    if session_stays(a.session_id, flows, sessions, holds, cutoff) {
        let k = choose|k: int|
            0 <= k < sessions.len() && (#[trigger] sessions[k]).id == a.session_id && !session_goes(
                sessions[k],
                flows,
                sessions,
                holds,
                cutoff,
            );
        assert(!going.contains(sessions[k].id)) by {
            if going.contains(sessions[k].id) {
                let j = choose|j: int|
                    0 <= j < sessions.len() && (#[trigger] sessions[j]).id == a.session_id
                        && session_goes(sessions[j], flows, sessions, holds, cutoff);
                assert(j == k);
            }
        }
    } else {
        assert(addrs[i].id == a.id);
        assert forall|k: int|
            0 <= k < sessions.len() && (#[trigger] sessions[k]).id == a.session_id implies going.contains(
            sessions[k].id,
        ) by {
            assert(session_goes(sessions[k], flows, sessions, holds, cutoff));
        }
    }
}

proof fn lemma_addrs_going(
    n: int,
    addrs: Seq<AddrSpan>,
    flows: Seq<FlowSpan>,
    sessions: Seq<SessionSpan>,
    holds: Seq<Hold>,
    cutoff: i64,
    id: i64,
)
    requires
        0 <= n <= addrs.len(),
    ensures
        addrs_going(n, addrs, flows, sessions, holds, cutoff).contains(id) <==> exists|k: int|
            0 <= k < n && (#[trigger] addrs[k]).id == id && !session_stays(
                addrs[k].session_id,
                flows,
                sessions,
                holds,
                cutoff,
            ),
    decreases n,
{
    if n > 0 {
        let all = addrs_going(n, addrs, flows, sessions, holds, cutoff);
        let before = addrs_going(n - 1, addrs, flows, sessions, holds, cutoff);
        lemma_addrs_going(n - 1, addrs, flows, sessions, holds, cutoff, id);
        if before.contains(id) {
            let k = before.index_of(id);
            assert(all[k] == id);
        }
        if !session_stays(addrs[n - 1].session_id, flows, sessions, holds, cutoff) {
            assert(all.last() == addrs[n - 1].id);
        }
        if all.contains(id) && !before.contains(id) {
            let k = all.index_of(id);
            if k < before.len() {
                assert(before[k] == id);
            }
            assert(addrs[n - 1].id == id);
        }
    }
}

/// A word of a statement without a bracket or what stands before it, and
/// without the comma or bracket at its end.
pub open spec fn bare_word(w: Seq<char>) -> Seq<char> {
    let at = text::place_of(w, '(', 0);
    let t = if at < w.len() {
        w.skip(at + 1)
    } else {
        w
    };
    if t.len() > 0 && (t.last() == ',' || t.last() == ')') {
        t.drop_last()
    } else {
        t
    }
}

/// Whether a statement `INSERT .. INTO table(column, ..) VALUES (placeholder,
/// ..)`, whose columns are named from word `first` on, gives a column of the new
/// row a value.
pub open spec fn gives_column(
    s: StatementView,
    column: Seq<char>,
    value: ValueView,
    first: int,
    k: int,
    at: int,
) -> bool {
    let words = text::split(s.sql, ' ');
    &&& 1 <= first <= k < at
    &&& at + 1 + k - first < words.len()
    &&& words[0] == "INSERT"@
    &&& words[first - 1] == "INTO"@
    &&& words[at] == "VALUES"@
    &&& bare_word(words[k]) == column
    &&& placeholder(bare_word(words[at + 1 + k - first]), s.params) == Some(value)
}

/// Whether a statement puts a row into a table in which a column has a value.
pub open spec fn puts(s: StatementView, column: Seq<char>, value: ValueView) -> bool {
    exists|first: int, k: int, at: int| #[trigger]
        gives_column(s, column, value, first, k, at)
}

proof fn flow_words()
    ensures
        text::split(INSERT_FLOW@, ' ') == seq![
            "INSERT"@,
            "OR"@,
            "IGNORE"@,
            "INTO"@,
            "flows(id,"@,
            "session_id,"@,
            "proto,"@,
            "src_ip,"@,
            "src_port,"@,
            "dst_ip,"@,
            "dst_port,"@,
            "first_ms,"@,
            "confirmed)"@,
            "VALUES"@,
            "(?1,"@,
            "?2,"@,
            "?3,"@,
            "?4,"@,
            "?5,"@,
            "?6,"@,
            "?7,"@,
            "?8,"@,
            "?9)"@,
        ],
{
    let c0 = "INSERT OR IGNORE INTO flows(id, session_id, proto,"@;
    lemma_flow_words_0();
    let c1 = "src_ip, src_port, dst_ip, dst_port, first_ms, confirmed)"@;
    lemma_flow_words_1();
    let c2 = "VALUES (?1, ?2, ?3, ?4,"@;
    lemma_flow_words_2();
    let c3 = "?5, ?6, ?7, ?8, ?9)"@;
    lemma_flow_words_3();
    reveal_strlit("INSERT OR IGNORE INTO flows(id, session_id, proto, src_ip, src_port, dst_ip, dst_port, first_ms, confirmed) VALUES (?1, ?2, ?3, ?4, ?5, ?6, ?7, ?8, ?9)");
    reveal_strlit("INSERT OR IGNORE INTO flows(id, session_id, proto,");
    reveal_strlit("src_ip, src_port, dst_ip, dst_port, first_ms, confirmed)");
    reveal_strlit("VALUES (?1, ?2, ?3, ?4,");
    reveal_strlit("?5, ?6, ?7, ?8, ?9)");
    assert(INSERT_FLOW@ =~= c0.push(' ') + (c1.push(' ') + (c2.push(' ') + c3)));
    text::split_of_two(c0, ' ', c1.push(' ') + (c2.push(' ') + (c3)));
    text::split_of_two(c1, ' ', c2.push(' ') + (c3));
    text::split_of_two(c2, ' ', c3);
    assert(text::split(INSERT_FLOW@, ' ') =~= seq![
        "INSERT"@,
        "OR"@,
        "IGNORE"@,
        "INTO"@,
        "flows(id,"@,
        "session_id,"@,
        "proto,"@,
        "src_ip,"@,
        "src_port,"@,
        "dst_ip,"@,
        "dst_port,"@,
        "first_ms,"@,
        "confirmed)"@,
        "VALUES"@,
        "(?1,"@,
        "?2,"@,
        "?3,"@,
        "?4,"@,
        "?5,"@,
        "?6,"@,
        "?7,"@,
        "?8,"@,
        "?9)"@,
    ]);
}

proof fn lemma_flow_words_0()
    ensures
        text::split("INSERT OR IGNORE INTO flows(id, session_id, proto,"@, ' ') == seq!["INSERT"@, "OR"@, "IGNORE"@, "INTO"@, "flows(id,"@, "session_id,"@, "proto,"@],
{
    reveal_strlit("INSERT OR IGNORE INTO flows(id, session_id, proto,");
    reveal_strlit("INSERT");
    reveal_strlit("OR");
    reveal_strlit("IGNORE");
    reveal_strlit("INTO");
    reveal_strlit("flows(id,");
    reveal_strlit("session_id,");
    reveal_strlit("proto,");
    text::split_of_one("INSERT"@, ' ');
    text::split_of_one("OR"@, ' ');
    text::split_of_one("IGNORE"@, ' ');
    text::split_of_one("INTO"@, ' ');
    text::split_of_one("flows(id,"@, ' ');
    text::split_of_one("session_id,"@, ' ');
    text::split_of_one("proto,"@, ' ');
    assert("INSERT OR IGNORE INTO flows(id, session_id, proto,"@ =~= "INSERT"@.push(' ') + ("OR"@.push(' ') + ("IGNORE"@.push(' ') + ("INTO"@.push(' ') + ("flows(id,"@.push(' ') + ("session_id,"@.push(' ') + "proto,"@))))));
    text::split_of_two("INSERT"@, ' ', "OR"@.push(' ') + ("IGNORE"@.push(' ') + ("INTO"@.push(' ') + ("flows(id,"@.push(' ') + ("session_id,"@.push(' ') + "proto,"@)))));
    text::split_of_two("OR"@, ' ', "IGNORE"@.push(' ') + ("INTO"@.push(' ') + ("flows(id,"@.push(' ') + ("session_id,"@.push(' ') + "proto,"@))));
    text::split_of_two("IGNORE"@, ' ', "INTO"@.push(' ') + ("flows(id,"@.push(' ') + ("session_id,"@.push(' ') + "proto,"@)));
    text::split_of_two("INTO"@, ' ', "flows(id,"@.push(' ') + ("session_id,"@.push(' ') + "proto,"@));
    text::split_of_two("flows(id,"@, ' ', "session_id,"@.push(' ') + "proto,"@);
    text::split_of_two("session_id,"@, ' ', "proto,"@);
}

proof fn lemma_flow_words_1()
    ensures
        text::split("src_ip, src_port, dst_ip, dst_port, first_ms, confirmed)"@, ' ') == seq!["src_ip,"@, "src_port,"@, "dst_ip,"@, "dst_port,"@, "first_ms,"@, "confirmed)"@],
{
    reveal_strlit("src_ip, src_port, dst_ip, dst_port, first_ms, confirmed)");
    reveal_strlit("src_ip,");
    reveal_strlit("src_port,");
    reveal_strlit("dst_ip,");
    reveal_strlit("dst_port,");
    reveal_strlit("first_ms,");
    reveal_strlit("confirmed)");
    text::split_of_one("src_ip,"@, ' ');
    text::split_of_one("src_port,"@, ' ');
    text::split_of_one("dst_ip,"@, ' ');
    text::split_of_one("dst_port,"@, ' ');
    text::split_of_one("first_ms,"@, ' ');
    text::split_of_one("confirmed)"@, ' ');
    assert("src_ip, src_port, dst_ip, dst_port, first_ms, confirmed)"@ =~= "src_ip,"@.push(' ') + ("src_port,"@.push(' ') + ("dst_ip,"@.push(' ') + ("dst_port,"@.push(' ') + ("first_ms,"@.push(' ') + "confirmed)"@)))));
    text::split_of_two("src_ip,"@, ' ', "src_port,"@.push(' ') + ("dst_ip,"@.push(' ') + ("dst_port,"@.push(' ') + ("first_ms,"@.push(' ') + "confirmed)"@))));
    text::split_of_two("src_port,"@, ' ', "dst_ip,"@.push(' ') + ("dst_port,"@.push(' ') + ("first_ms,"@.push(' ') + "confirmed)"@)));
    text::split_of_two("dst_ip,"@, ' ', "dst_port,"@.push(' ') + ("first_ms,"@.push(' ') + "confirmed)"@));
    text::split_of_two("dst_port,"@, ' ', "first_ms,"@.push(' ') + "confirmed)"@);
    text::split_of_two("first_ms,"@, ' ', "confirmed)"@);
}

proof fn lemma_flow_words_2()
    ensures
        text::split("VALUES (?1, ?2, ?3, ?4,"@, ' ') == seq!["VALUES"@, "(?1,"@, "?2,"@, "?3,"@, "?4,"@],
{
    reveal_strlit("VALUES (?1, ?2, ?3, ?4,");
    reveal_strlit("VALUES");
    reveal_strlit("(?1,");
    reveal_strlit("?2,");
    reveal_strlit("?3,");
    reveal_strlit("?4,");
    text::split_of_one("VALUES"@, ' ');
    text::split_of_one("(?1,"@, ' ');
    text::split_of_one("?2,"@, ' ');
    text::split_of_one("?3,"@, ' ');
    text::split_of_one("?4,"@, ' ');
    assert("VALUES (?1, ?2, ?3, ?4,"@ =~= "VALUES"@.push(' ') + ("(?1,"@.push(' ') + ("?2,"@.push(' ') + ("?3,"@.push(' ') + "?4,"@))));
    text::split_of_two("VALUES"@, ' ', "(?1,"@.push(' ') + ("?2,"@.push(' ') + ("?3,"@.push(' ') + "?4,"@)));
    text::split_of_two("(?1,"@, ' ', "?2,"@.push(' ') + ("?3,"@.push(' ') + "?4,"@));
    text::split_of_two("?2,"@, ' ', "?3,"@.push(' ') + "?4,"@);
    text::split_of_two("?3,"@, ' ', "?4,"@);
}

proof fn lemma_flow_words_3()
    ensures
        text::split("?5, ?6, ?7, ?8, ?9)"@, ' ') == seq!["?5,"@, "?6,"@, "?7,"@, "?8,"@, "?9)"@],
{
    reveal_strlit("?5, ?6, ?7, ?8, ?9)");
    reveal_strlit("?5,");
    reveal_strlit("?6,");
    reveal_strlit("?7,");
    reveal_strlit("?8,");
    reveal_strlit("?9)");
    text::split_of_one("?5,"@, ' ');
    text::split_of_one("?6,"@, ' ');
    text::split_of_one("?7,"@, ' ');
    text::split_of_one("?8,"@, ' ');
    text::split_of_one("?9)"@, ' ');
    assert("?5, ?6, ?7, ?8, ?9)"@ =~= "?5,"@.push(' ') + ("?6,"@.push(' ') + ("?7,"@.push(' ') + ("?8,"@.push(' ') + "?9)"@))));
    text::split_of_two("?5,"@, ' ', "?6,"@.push(' ') + ("?7,"@.push(' ') + ("?8,"@.push(' ') + "?9)"@)));
    text::split_of_two("?6,"@, ' ', "?7,"@.push(' ') + ("?8,"@.push(' ') + "?9)"@));
    text::split_of_two("?7,"@, ' ', "?8,"@.push(' ') + "?9)"@);
    text::split_of_two("?8,"@, ' ', "?9)"@);
}

proof fn blocked_words()
    ensures
        text::split(INSERT_BLOCKED@, ' ') == seq![
            "INSERT"@,
            "OR"@,
            "IGNORE"@,
            "INTO"@,
            "flows(id,"@,
            "session_id,"@,
            "proto,"@,
            "src_ip,"@,
            "src_port,"@,
            "dst_ip,"@,
            "dst_port,"@,
            "first_ms,"@,
            "last_ms,"@,
            "end_reason,"@,
            "confirmed)"@,
            "VALUES"@,
            "(?1,"@,
            "?2,"@,
            "?3,"@,
            "?4,"@,
            "?5,"@,
            "?6,"@,
            "?7,"@,
            "?8,"@,
            "?8,"@,
            "'blocked',"@,
            "1)"@,
        ],
{
    let c0 = "INSERT OR IGNORE INTO flows(id, session_id, proto,"@;
    lemma_blocked_words_0();
    let c1 = "src_ip, src_port, dst_ip, dst_port, first_ms, last_ms, end_reason, confirmed)"@;
    lemma_blocked_words_1();
    let c2 = "VALUES (?1, ?2, ?3, ?4, ?5,"@;
    lemma_blocked_words_2();
    let c3 = "?6, ?7, ?8, ?8, 'blocked', 1)"@;
    lemma_blocked_words_3();
    reveal_strlit("INSERT OR IGNORE INTO flows(id, session_id, proto, src_ip, src_port, dst_ip, dst_port, first_ms, last_ms, end_reason, confirmed) VALUES (?1, ?2, ?3, ?4, ?5, ?6, ?7, ?8, ?8, 'blocked', 1)");
    reveal_strlit("INSERT OR IGNORE INTO flows(id, session_id, proto,");
    reveal_strlit("src_ip, src_port, dst_ip, dst_port, first_ms, last_ms, end_reason, confirmed)");
    reveal_strlit("VALUES (?1, ?2, ?3, ?4, ?5,");
    reveal_strlit("?6, ?7, ?8, ?8, 'blocked', 1)");
    assert(INSERT_BLOCKED@ =~= c0.push(' ') + (c1.push(' ') + (c2.push(' ') + c3)));
    text::split_of_two(c0, ' ', c1.push(' ') + (c2.push(' ') + (c3)));
    text::split_of_two(c1, ' ', c2.push(' ') + (c3));
    text::split_of_two(c2, ' ', c3);
    assert(text::split(INSERT_BLOCKED@, ' ') =~= seq![
        "INSERT"@,
        "OR"@,
        "IGNORE"@,
        "INTO"@,
        "flows(id,"@,
        "session_id,"@,
        "proto,"@,
        "src_ip,"@,
        "src_port,"@,
        "dst_ip,"@,
        "dst_port,"@,
        "first_ms,"@,
        "last_ms,"@,
        "end_reason,"@,
        "confirmed)"@,
        "VALUES"@,
        "(?1,"@,
        "?2,"@,
        "?3,"@,
        "?4,"@,
        "?5,"@,
        "?6,"@,
        "?7,"@,
        "?8,"@,
        "?8,"@,
        "'blocked',"@,
        "1)"@,
    ]);
}

proof fn lemma_blocked_words_0()
    ensures
        text::split("INSERT OR IGNORE INTO flows(id, session_id, proto,"@, ' ') == seq!["INSERT"@, "OR"@, "IGNORE"@, "INTO"@, "flows(id,"@, "session_id,"@, "proto,"@],
{
    reveal_strlit("INSERT OR IGNORE INTO flows(id, session_id, proto,");
    reveal_strlit("INSERT");
    reveal_strlit("OR");
    reveal_strlit("IGNORE");
    reveal_strlit("INTO");
    reveal_strlit("flows(id,");
    reveal_strlit("session_id,");
    reveal_strlit("proto,");
    text::split_of_one("INSERT"@, ' ');
    text::split_of_one("OR"@, ' ');
    text::split_of_one("IGNORE"@, ' ');
    text::split_of_one("INTO"@, ' ');
    text::split_of_one("flows(id,"@, ' ');
    text::split_of_one("session_id,"@, ' ');
    text::split_of_one("proto,"@, ' ');
    assert("INSERT OR IGNORE INTO flows(id, session_id, proto,"@ =~= "INSERT"@.push(' ') + ("OR"@.push(' ') + ("IGNORE"@.push(' ') + ("INTO"@.push(' ') + ("flows(id,"@.push(' ') + ("session_id,"@.push(' ') + "proto,"@))))));
    text::split_of_two("INSERT"@, ' ', "OR"@.push(' ') + ("IGNORE"@.push(' ') + ("INTO"@.push(' ') + ("flows(id,"@.push(' ') + ("session_id,"@.push(' ') + "proto,"@)))));
    text::split_of_two("OR"@, ' ', "IGNORE"@.push(' ') + ("INTO"@.push(' ') + ("flows(id,"@.push(' ') + ("session_id,"@.push(' ') + "proto,"@))));
    text::split_of_two("IGNORE"@, ' ', "INTO"@.push(' ') + ("flows(id,"@.push(' ') + ("session_id,"@.push(' ') + "proto,"@)));
    text::split_of_two("INTO"@, ' ', "flows(id,"@.push(' ') + ("session_id,"@.push(' ') + "proto,"@));
    text::split_of_two("flows(id,"@, ' ', "session_id,"@.push(' ') + "proto,"@);
    text::split_of_two("session_id,"@, ' ', "proto,"@);
}

proof fn lemma_blocked_words_1()
    ensures
        text::split("src_ip, src_port, dst_ip, dst_port, first_ms, last_ms, end_reason, confirmed)"@, ' ') == seq!["src_ip,"@, "src_port,"@, "dst_ip,"@, "dst_port,"@, "first_ms,"@, "last_ms,"@, "end_reason,"@, "confirmed)"@],
{
    reveal_strlit("src_ip, src_port, dst_ip, dst_port, first_ms, last_ms, end_reason, confirmed)");
    reveal_strlit("src_ip,");
    reveal_strlit("src_port,");
    reveal_strlit("dst_ip,");
    reveal_strlit("dst_port,");
    reveal_strlit("first_ms,");
    reveal_strlit("last_ms,");
    reveal_strlit("end_reason,");
    reveal_strlit("confirmed)");
    text::split_of_one("src_ip,"@, ' ');
    text::split_of_one("src_port,"@, ' ');
    text::split_of_one("dst_ip,"@, ' ');
    text::split_of_one("dst_port,"@, ' ');
    text::split_of_one("first_ms,"@, ' ');
    text::split_of_one("last_ms,"@, ' ');
    text::split_of_one("end_reason,"@, ' ');
    text::split_of_one("confirmed)"@, ' ');
    assert("src_ip, src_port, dst_ip, dst_port, first_ms, last_ms, end_reason, confirmed)"@ =~= "src_ip,"@.push(' ') + ("src_port,"@.push(' ') + ("dst_ip,"@.push(' ') + ("dst_port,"@.push(' ') + ("first_ms,"@.push(' ') + ("last_ms,"@.push(' ') + ("end_reason,"@.push(' ') + "confirmed)"@)))))));
    text::split_of_two("src_ip,"@, ' ', "src_port,"@.push(' ') + ("dst_ip,"@.push(' ') + ("dst_port,"@.push(' ') + ("first_ms,"@.push(' ') + ("last_ms,"@.push(' ') + ("end_reason,"@.push(' ') + "confirmed)"@))))));
    text::split_of_two("src_port,"@, ' ', "dst_ip,"@.push(' ') + ("dst_port,"@.push(' ') + ("first_ms,"@.push(' ') + ("last_ms,"@.push(' ') + ("end_reason,"@.push(' ') + "confirmed)"@)))));
    text::split_of_two("dst_ip,"@, ' ', "dst_port,"@.push(' ') + ("first_ms,"@.push(' ') + ("last_ms,"@.push(' ') + ("end_reason,"@.push(' ') + "confirmed)"@))));
    text::split_of_two("dst_port,"@, ' ', "first_ms,"@.push(' ') + ("last_ms,"@.push(' ') + ("end_reason,"@.push(' ') + "confirmed)"@)));
    text::split_of_two("first_ms,"@, ' ', "last_ms,"@.push(' ') + ("end_reason,"@.push(' ') + "confirmed)"@));
    text::split_of_two("last_ms,"@, ' ', "end_reason,"@.push(' ') + "confirmed)"@);
    text::split_of_two("end_reason,"@, ' ', "confirmed)"@);
}

proof fn lemma_blocked_words_2()
    ensures
        text::split("VALUES (?1, ?2, ?3, ?4, ?5,"@, ' ') == seq!["VALUES"@, "(?1,"@, "?2,"@, "?3,"@, "?4,"@, "?5,"@],
{
    reveal_strlit("VALUES (?1, ?2, ?3, ?4, ?5,");
    reveal_strlit("VALUES");
    reveal_strlit("(?1,");
    reveal_strlit("?2,");
    reveal_strlit("?3,");
    reveal_strlit("?4,");
    reveal_strlit("?5,");
    text::split_of_one("VALUES"@, ' ');
    text::split_of_one("(?1,"@, ' ');
    text::split_of_one("?2,"@, ' ');
    text::split_of_one("?3,"@, ' ');
    text::split_of_one("?4,"@, ' ');
    text::split_of_one("?5,"@, ' ');
    assert("VALUES (?1, ?2, ?3, ?4, ?5,"@ =~= "VALUES"@.push(' ') + ("(?1,"@.push(' ') + ("?2,"@.push(' ') + ("?3,"@.push(' ') + ("?4,"@.push(' ') + "?5,"@)))));
    text::split_of_two("VALUES"@, ' ', "(?1,"@.push(' ') + ("?2,"@.push(' ') + ("?3,"@.push(' ') + ("?4,"@.push(' ') + "?5,"@))));
    text::split_of_two("(?1,"@, ' ', "?2,"@.push(' ') + ("?3,"@.push(' ') + ("?4,"@.push(' ') + "?5,"@)));
    text::split_of_two("?2,"@, ' ', "?3,"@.push(' ') + ("?4,"@.push(' ') + "?5,"@));
    text::split_of_two("?3,"@, ' ', "?4,"@.push(' ') + "?5,"@);
    text::split_of_two("?4,"@, ' ', "?5,"@);
}

proof fn lemma_blocked_words_3()
    ensures
        text::split("?6, ?7, ?8, ?8, 'blocked', 1)"@, ' ') == seq!["?6,"@, "?7,"@, "?8,"@, "?8,"@, "'blocked',"@, "1)"@],
{
    reveal_strlit("?6, ?7, ?8, ?8, 'blocked', 1)");
    reveal_strlit("?6,");
    reveal_strlit("?7,");
    reveal_strlit("?8,");
    reveal_strlit("'blocked',");
    reveal_strlit("1)");
    text::split_of_one("?6,"@, ' ');
    text::split_of_one("?7,"@, ' ');
    text::split_of_one("?8,"@, ' ');
    text::split_of_one("'blocked',"@, ' ');
    text::split_of_one("1)"@, ' ');
    assert("?6, ?7, ?8, ?8, 'blocked', 1)"@ =~= "?6,"@.push(' ') + ("?7,"@.push(' ') + ("?8,"@.push(' ') + ("?8,"@.push(' ') + ("'blocked',"@.push(' ') + "1)"@)))));
    text::split_of_two("?6,"@, ' ', "?7,"@.push(' ') + ("?8,"@.push(' ') + ("?8,"@.push(' ') + ("'blocked',"@.push(' ') + "1)"@))));
    text::split_of_two("?7,"@, ' ', "?8,"@.push(' ') + ("?8,"@.push(' ') + ("'blocked',"@.push(' ') + "1)"@)));
    text::split_of_two("?8,"@, ' ', "?8,"@.push(' ') + ("'blocked',"@.push(' ') + "1)"@));
    text::split_of_two("?8,"@, ' ', "'blocked',"@.push(' ') + "1)"@);
    text::split_of_two("'blocked',"@, ' ', "1)"@);
}

proof fn lemma_bare_words()
    ensures
        bare_word("flows(id,"@) == "id"@,
        bare_word("session_id,"@) == "session_id"@,
        bare_word("proto,"@) == "proto"@,
        bare_word("src_ip,"@) == "src_ip"@,
        bare_word("src_port,"@) == "src_port"@,
        bare_word("dst_ip,"@) == "dst_ip"@,
        bare_word("dst_port,"@) == "dst_port"@,
        bare_word("first_ms,"@) == "first_ms"@,
        bare_word("(?1,"@) == "?"@ + text::dec(1),
        bare_word("?2,"@) == "?"@ + text::dec(2),
        bare_word("?3,"@) == "?"@ + text::dec(3),
        bare_word("?4,"@) == "?"@ + text::dec(4),
        bare_word("?5,"@) == "?"@ + text::dec(5),
        bare_word("?6,"@) == "?"@ + text::dec(6),
        bare_word("?7,"@) == "?"@ + text::dec(7),
        bare_word("?8,"@) == "?"@ + text::dec(8),
{
    reveal_strlit("?");
    reveal_strlit("flows(id,");
    reveal_strlit("id");
    reveal_strlit("session_id,");
    reveal_strlit("session_id");
    reveal_strlit("proto,");
    reveal_strlit("proto");
    reveal_strlit("src_ip,");
    reveal_strlit("src_ip");
    reveal_strlit("src_port,");
    reveal_strlit("src_port");
    reveal_strlit("dst_ip,");
    reveal_strlit("dst_ip");
    reveal_strlit("dst_port,");
    reveal_strlit("dst_port");
    reveal_strlit("first_ms,");
    reveal_strlit("first_ms");
    reveal_strlit("(?1,");
    reveal_strlit("?2,");
    reveal_strlit("?3,");
    reveal_strlit("?4,");
    reveal_strlit("?5,");
    reveal_strlit("?6,");
    reveal_strlit("?7,");
    reveal_strlit("?8,");
    let first = "flows(id,"@;
    reveal_strlit("flows");
    reveal_strlit("id,");
    text::place_after("flows"@, '(', "id,"@);
    assert(first =~= "flows"@.push('(') + "id,"@);
    assert(first.skip(6) =~= "id,"@);
    assert(bare_word(first) =~= "id"@);
    let empty = Seq::<char>::empty();
    text::place_after(empty, '(', "?1,"@);
    reveal_strlit("?1,");
    assert("(?1,"@ =~= empty.push('(') + "?1,"@);
    assert("(?1,"@.skip(1) =~= "?1,"@);
    lemma_comma("session_id"@, "session_id,"@);
    lemma_comma("proto"@, "proto,"@);
    lemma_comma("src_ip"@, "src_ip,"@);
    lemma_comma("src_port"@, "src_port,"@);
    lemma_comma("dst_ip"@, "dst_ip,"@);
    lemma_comma("dst_port"@, "dst_port,"@);
    lemma_comma("first_ms"@, "first_ms,"@);
    assert(text::dec(1) =~= seq![text::digit_char(1)]);
    assert(text::dec(2) =~= seq![text::digit_char(2)]);
    assert(text::dec(3) =~= seq![text::digit_char(3)]);
    assert(text::dec(4) =~= seq![text::digit_char(4)]);
    assert(text::dec(5) =~= seq![text::digit_char(5)]);
    assert(text::dec(6) =~= seq![text::digit_char(6)]);
    assert(text::dec(7) =~= seq![text::digit_char(7)]);
    assert(text::dec(8) =~= seq![text::digit_char(8)]);
    assert("?1,"@.drop_last() =~= "?"@ + text::dec(1));
    assert(bare_word("(?1,"@) =~= "?"@ + text::dec(1));
    lemma_comma("?"@ + text::dec(2), "?2,"@);
    lemma_comma("?"@ + text::dec(3), "?3,"@);
    lemma_comma("?"@ + text::dec(4), "?4,"@);
    lemma_comma("?"@ + text::dec(5), "?5,"@);
    lemma_comma("?"@ + text::dec(6), "?6,"@);
    lemma_comma("?"@ + text::dec(7), "?7,"@);
    lemma_comma("?"@ + text::dec(8), "?8,"@);
}

proof fn lemma_comma(a: Seq<char>, w: Seq<char>)
    requires
        w =~= a.push(','),
        !a.contains('('),
    ensures
        bare_word(w) == a,
{
    text::place_of_is_first(w, '(', 0);
    let at = text::place_of(w, '(', 0);
    if at < w.len() {
        assert(at < a.len());
        assert(a[at] == '(');
        assert(a.contains('('));
    }
    assert(w.drop_last() =~= a);
}

/// Whether a statement puts a row into the table of flows that tells a flow:
/// its number, its session, its protocol, from where to where it goes, and when
/// it began.
pub open spec fn puts_flow(
    s: StatementView,
    id: i64,
    session: i64,
    proto: u8,
    src: SocketAddr,
    dst: SocketAddr,
    ts_ms: i64,
) -> bool {
    &&& puts(s, "id"@, ValueView::Int(id))
    &&& puts(s, "session_id"@, ValueView::Int(session))
    &&& puts(s, "proto"@, ValueView::Int(proto as i64))
    &&& puts(s, "src_ip"@, ValueView::Text(src.ip.text()))
    &&& puts(s, "src_port"@, ValueView::Int(src.port as i64))
    &&& puts(s, "dst_ip"@, ValueView::Text(dst.ip.text()))
    &&& puts(s, "dst_port"@, ValueView::Int(dst.port as i64))
    &&& puts(s, "first_ms"@, ValueView::Int(ts_ms))
}

/// A flow that is opened, or refused, is written down with the client's address
/// as its source and the address it asked for as its destination, under its own
/// number and its session's, and with the time at which it happened.
pub proof fn flows_are_written_down(
    id: i64,
    session: i64,
    ts_ms: i64,
    proto: u8,
    src: SocketAddr,
    dst: SocketAddr,
    confirmed: bool,
    egress: Option<SocketAddr>,
)
    ensures
        puts_flow(
            written(Ev::FlowOpen { id, session, ts_ms, proto, src, dst, confirmed }, egress)[0],
            id,
            session,
            proto,
            src,
            dst,
            ts_ms,
        ),
        puts_flow(
            written(Ev::FlowBlocked { id, session, ts_ms, proto, src, dst }, egress)[0],
            id,
            session,
            proto,
            src,
            dst,
            ts_ms,
        ),
{
    let a = written(Ev::FlowOpen { id, session, ts_ms, proto, src, dst, confirmed }, egress)[0];
    let b = written(Ev::FlowBlocked { id, session, ts_ms, proto, src, dst }, egress)[0];
    flow_words();
    blocked_words();
    lemma_bare_words();
    lemma_placeholder(1, a.params);
    lemma_placeholder(1, b.params);
    lemma_placeholder(2, a.params);
    lemma_placeholder(2, b.params);
    lemma_placeholder(3, a.params);
    lemma_placeholder(3, b.params);
    lemma_placeholder(4, a.params);
    lemma_placeholder(4, b.params);
    lemma_placeholder(5, a.params);
    lemma_placeholder(5, b.params);
    lemma_placeholder(6, a.params);
    lemma_placeholder(6, b.params);
    lemma_placeholder(7, a.params);
    lemma_placeholder(7, b.params);
    lemma_placeholder(8, a.params);
    lemma_placeholder(8, b.params);
    assert(gives_column(a, "id"@, ValueView::Int(id), 4, 4, 13));
    assert(gives_column(b, "id"@, ValueView::Int(id), 4, 4, 15));
    assert(gives_column(a, "session_id"@, ValueView::Int(session), 4, 5, 13));
    assert(gives_column(b, "session_id"@, ValueView::Int(session), 4, 5, 15));
    assert(gives_column(a, "proto"@, ValueView::Int(proto as i64), 4, 6, 13));
    assert(gives_column(b, "proto"@, ValueView::Int(proto as i64), 4, 6, 15));
    assert(gives_column(a, "src_ip"@, ValueView::Text(src.ip.text()), 4, 7, 13));
    assert(gives_column(b, "src_ip"@, ValueView::Text(src.ip.text()), 4, 7, 15));
    assert(gives_column(a, "src_port"@, ValueView::Int(src.port as i64), 4, 8, 13));
    assert(gives_column(b, "src_port"@, ValueView::Int(src.port as i64), 4, 8, 15));
    assert(gives_column(a, "dst_ip"@, ValueView::Text(dst.ip.text()), 4, 9, 13));
    assert(gives_column(b, "dst_ip"@, ValueView::Text(dst.ip.text()), 4, 9, 15));
    assert(gives_column(a, "dst_port"@, ValueView::Int(dst.port as i64), 4, 10, 13));
    assert(gives_column(b, "dst_port"@, ValueView::Int(dst.port as i64), 4, 10, 15));
    assert(gives_column(a, "first_ms"@, ValueView::Int(ts_ms), 4, 11, 13));
    assert(gives_column(b, "first_ms"@, ValueView::Int(ts_ms), 4, 11, 15));
}

proof fn session_words()
    ensures
        text::split(INSERT_SESSION@, ' ') == seq![
            "INSERT"@,
            "OR"@,
            "IGNORE"@,
            "INTO"@,
            "sessions(id,"@,
            "start_ms,"@,
            "relay_addr)"@,
            "VALUES"@,
            "(?1,"@,
            "?2,"@,
            "?3)"@,
        ],
{
    let c0 = "INSERT OR IGNORE INTO sessions(id, start_ms,"@;
    lemma_session_words_0();
    let c1 = "relay_addr) VALUES (?1, ?2, ?3)"@;
    lemma_session_words_1();
    reveal_strlit("INSERT OR IGNORE INTO sessions(id, start_ms, relay_addr) VALUES (?1, ?2, ?3)");
    reveal_strlit("INSERT OR IGNORE INTO sessions(id, start_ms,");
    reveal_strlit("relay_addr) VALUES (?1, ?2, ?3)");
    assert(INSERT_SESSION@ =~= c0.push(' ') + c1);
    text::split_of_two(c0, ' ', c1);
    assert(text::split(INSERT_SESSION@, ' ') =~= seq![
        "INSERT"@,
        "OR"@,
        "IGNORE"@,
        "INTO"@,
        "sessions(id,"@,
        "start_ms,"@,
        "relay_addr)"@,
        "VALUES"@,
        "(?1,"@,
        "?2,"@,
        "?3)"@,
    ]);
}

proof fn lemma_session_words_0()
    ensures
        text::split("INSERT OR IGNORE INTO sessions(id, start_ms,"@, ' ') == seq!["INSERT"@, "OR"@, "IGNORE"@, "INTO"@, "sessions(id,"@, "start_ms,"@],
{
    reveal_strlit("INSERT OR IGNORE INTO sessions(id, start_ms,");
    reveal_strlit("INSERT");
    reveal_strlit("OR");
    reveal_strlit("IGNORE");
    reveal_strlit("INTO");
    reveal_strlit("sessions(id,");
    reveal_strlit("start_ms,");
    text::split_of_one("INSERT"@, ' ');
    text::split_of_one("OR"@, ' ');
    text::split_of_one("IGNORE"@, ' ');
    text::split_of_one("INTO"@, ' ');
    text::split_of_one("sessions(id,"@, ' ');
    text::split_of_one("start_ms,"@, ' ');
    assert("INSERT OR IGNORE INTO sessions(id, start_ms,"@ =~= "INSERT"@.push(' ') + ("OR"@.push(' ') + ("IGNORE"@.push(' ') + ("INTO"@.push(' ') + ("sessions(id,"@.push(' ') + "start_ms,"@)))));
    text::split_of_two("INSERT"@, ' ', "OR"@.push(' ') + ("IGNORE"@.push(' ') + ("INTO"@.push(' ') + ("sessions(id,"@.push(' ') + "start_ms,"@))));
    text::split_of_two("OR"@, ' ', "IGNORE"@.push(' ') + ("INTO"@.push(' ') + ("sessions(id,"@.push(' ') + "start_ms,"@)));
    text::split_of_two("IGNORE"@, ' ', "INTO"@.push(' ') + ("sessions(id,"@.push(' ') + "start_ms,"@));
    text::split_of_two("INTO"@, ' ', "sessions(id,"@.push(' ') + "start_ms,"@);
    text::split_of_two("sessions(id,"@, ' ', "start_ms,"@);
}

proof fn lemma_session_words_1()
    ensures
        text::split("relay_addr) VALUES (?1, ?2, ?3)"@, ' ') == seq!["relay_addr)"@, "VALUES"@, "(?1,"@, "?2,"@, "?3)"@],
{
    reveal_strlit("relay_addr) VALUES (?1, ?2, ?3)");
    reveal_strlit("relay_addr)");
    reveal_strlit("VALUES");
    reveal_strlit("(?1,");
    reveal_strlit("?2,");
    reveal_strlit("?3)");
    text::split_of_one("relay_addr)"@, ' ');
    text::split_of_one("VALUES"@, ' ');
    text::split_of_one("(?1,"@, ' ');
    text::split_of_one("?2,"@, ' ');
    text::split_of_one("?3)"@, ' ');
    assert("relay_addr) VALUES (?1, ?2, ?3)"@ =~= "relay_addr)"@.push(' ') + ("VALUES"@.push(' ') + ("(?1,"@.push(' ') + ("?2,"@.push(' ') + "?3)"@))));
    text::split_of_two("relay_addr)"@, ' ', "VALUES"@.push(' ') + ("(?1,"@.push(' ') + ("?2,"@.push(' ') + "?3)"@)));
    text::split_of_two("VALUES"@, ' ', "(?1,"@.push(' ') + ("?2,"@.push(' ') + "?3)"@));
    text::split_of_two("(?1,"@, ' ', "?2,"@.push(' ') + "?3)"@);
    text::split_of_two("?2,"@, ' ', "?3)"@);
}

proof fn session_addr_words()
    ensures
        text::split(INSERT_SESSION_ADDR@, ' ') == seq![
            "INSERT"@,
            "INTO"@,
            "session_addrs(session_id,"@,
            "ts_ms,"@,
            "kind,"@,
            "addr)"@,
            "VALUES"@,
            "(?1,"@,
            "?2,"@,
            "?3,"@,
            "?4)"@,
        ],
{
    let c0 = "INSERT INTO session_addrs(session_id, ts_ms, kind, addr)"@;
    lemma_session_addr_words_0();
    let c1 = "VALUES (?1, ?2, ?3, ?4)"@;
    lemma_session_addr_words_1();
    reveal_strlit("INSERT INTO session_addrs(session_id, ts_ms, kind, addr) VALUES (?1, ?2, ?3, ?4)");
    reveal_strlit("INSERT INTO session_addrs(session_id, ts_ms, kind, addr)");
    reveal_strlit("VALUES (?1, ?2, ?3, ?4)");
    assert(INSERT_SESSION_ADDR@ =~= c0.push(' ') + c1);
    text::split_of_two(c0, ' ', c1);
    assert(text::split(INSERT_SESSION_ADDR@, ' ') =~= seq![
        "INSERT"@,
        "INTO"@,
        "session_addrs(session_id,"@,
        "ts_ms,"@,
        "kind,"@,
        "addr)"@,
        "VALUES"@,
        "(?1,"@,
        "?2,"@,
        "?3,"@,
        "?4)"@,
    ]);
}

proof fn lemma_session_addr_words_0()
    ensures
        text::split("INSERT INTO session_addrs(session_id, ts_ms, kind, addr)"@, ' ') == seq!["INSERT"@, "INTO"@, "session_addrs(session_id,"@, "ts_ms,"@, "kind,"@, "addr)"@],
{
    reveal_strlit("INSERT INTO session_addrs(session_id, ts_ms, kind, addr)");
    reveal_strlit("INSERT");
    reveal_strlit("INTO");
    reveal_strlit("session_addrs(session_id,");
    reveal_strlit("ts_ms,");
    reveal_strlit("kind,");
    reveal_strlit("addr)");
    text::split_of_one("INSERT"@, ' ');
    text::split_of_one("INTO"@, ' ');
    text::split_of_one("session_addrs(session_id,"@, ' ');
    text::split_of_one("ts_ms,"@, ' ');
    text::split_of_one("kind,"@, ' ');
    text::split_of_one("addr)"@, ' ');
    assert("INSERT INTO session_addrs(session_id, ts_ms, kind, addr)"@ =~= "INSERT"@.push(' ') + ("INTO"@.push(' ') + ("session_addrs(session_id,"@.push(' ') + ("ts_ms,"@.push(' ') + ("kind,"@.push(' ') + "addr)"@)))));
    text::split_of_two("INSERT"@, ' ', "INTO"@.push(' ') + ("session_addrs(session_id,"@.push(' ') + ("ts_ms,"@.push(' ') + ("kind,"@.push(' ') + "addr)"@))));
    text::split_of_two("INTO"@, ' ', "session_addrs(session_id,"@.push(' ') + ("ts_ms,"@.push(' ') + ("kind,"@.push(' ') + "addr)"@)));
    text::split_of_two("session_addrs(session_id,"@, ' ', "ts_ms,"@.push(' ') + ("kind,"@.push(' ') + "addr)"@));
    text::split_of_two("ts_ms,"@, ' ', "kind,"@.push(' ') + "addr)"@);
    text::split_of_two("kind,"@, ' ', "addr)"@);
}

proof fn lemma_session_addr_words_1()
    ensures
        text::split("VALUES (?1, ?2, ?3, ?4)"@, ' ') == seq!["VALUES"@, "(?1,"@, "?2,"@, "?3,"@, "?4)"@],
{
    reveal_strlit("VALUES (?1, ?2, ?3, ?4)");
    reveal_strlit("VALUES");
    reveal_strlit("(?1,");
    reveal_strlit("?2,");
    reveal_strlit("?3,");
    reveal_strlit("?4)");
    text::split_of_one("VALUES"@, ' ');
    text::split_of_one("(?1,"@, ' ');
    text::split_of_one("?2,"@, ' ');
    text::split_of_one("?3,"@, ' ');
    text::split_of_one("?4)"@, ' ');
    assert("VALUES (?1, ?2, ?3, ?4)"@ =~= "VALUES"@.push(' ') + ("(?1,"@.push(' ') + ("?2,"@.push(' ') + ("?3,"@.push(' ') + "?4)"@))));
    text::split_of_two("VALUES"@, ' ', "(?1,"@.push(' ') + ("?2,"@.push(' ') + ("?3,"@.push(' ') + "?4)"@)));
    text::split_of_two("(?1,"@, ' ', "?2,"@.push(' ') + ("?3,"@.push(' ') + "?4)"@));
    text::split_of_two("?2,"@, ' ', "?3,"@.push(' ') + "?4)"@);
    text::split_of_two("?3,"@, ' ', "?4)"@);
}

proof fn mark_words()
    ensures
        text::split(INSERT_MARK@, ' ') == seq![
            "INSERT"@,
            "INTO"@,
            "marks(ts_ms,"@,
            "kind,"@,
            "detail)"@,
            "VALUES"@,
            "(?1,"@,
            "?2,"@,
            "?3)"@,
        ],
{
    let c0 = "INSERT INTO marks(ts_ms, kind, detail) VALUES"@;
    lemma_mark_words_0();
    let c1 = "(?1, ?2, ?3)"@;
    lemma_mark_words_1();
    reveal_strlit("INSERT INTO marks(ts_ms, kind, detail) VALUES (?1, ?2, ?3)");
    reveal_strlit("INSERT INTO marks(ts_ms, kind, detail) VALUES");
    reveal_strlit("(?1, ?2, ?3)");
    assert(INSERT_MARK@ =~= c0.push(' ') + c1);
    text::split_of_two(c0, ' ', c1);
    assert(text::split(INSERT_MARK@, ' ') =~= seq![
        "INSERT"@,
        "INTO"@,
        "marks(ts_ms,"@,
        "kind,"@,
        "detail)"@,
        "VALUES"@,
        "(?1,"@,
        "?2,"@,
        "?3)"@,
    ]);
}

proof fn lemma_mark_words_0()
    ensures
        text::split("INSERT INTO marks(ts_ms, kind, detail) VALUES"@, ' ') == seq!["INSERT"@, "INTO"@, "marks(ts_ms,"@, "kind,"@, "detail)"@, "VALUES"@],
{
    reveal_strlit("INSERT INTO marks(ts_ms, kind, detail) VALUES");
    reveal_strlit("INSERT");
    reveal_strlit("INTO");
    reveal_strlit("marks(ts_ms,");
    reveal_strlit("kind,");
    reveal_strlit("detail)");
    reveal_strlit("VALUES");
    text::split_of_one("INSERT"@, ' ');
    text::split_of_one("INTO"@, ' ');
    text::split_of_one("marks(ts_ms,"@, ' ');
    text::split_of_one("kind,"@, ' ');
    text::split_of_one("detail)"@, ' ');
    text::split_of_one("VALUES"@, ' ');
    assert("INSERT INTO marks(ts_ms, kind, detail) VALUES"@ =~= "INSERT"@.push(' ') + ("INTO"@.push(' ') + ("marks(ts_ms,"@.push(' ') + ("kind,"@.push(' ') + ("detail)"@.push(' ') + "VALUES"@)))));
    text::split_of_two("INSERT"@, ' ', "INTO"@.push(' ') + ("marks(ts_ms,"@.push(' ') + ("kind,"@.push(' ') + ("detail)"@.push(' ') + "VALUES"@))));
    text::split_of_two("INTO"@, ' ', "marks(ts_ms,"@.push(' ') + ("kind,"@.push(' ') + ("detail)"@.push(' ') + "VALUES"@)));
    text::split_of_two("marks(ts_ms,"@, ' ', "kind,"@.push(' ') + ("detail)"@.push(' ') + "VALUES"@));
    text::split_of_two("kind,"@, ' ', "detail)"@.push(' ') + "VALUES"@);
    text::split_of_two("detail)"@, ' ', "VALUES"@);
}

proof fn lemma_mark_words_1()
    ensures
        text::split("(?1, ?2, ?3)"@, ' ') == seq!["(?1,"@, "?2,"@, "?3)"@],
{
    reveal_strlit("(?1, ?2, ?3)");
    reveal_strlit("(?1,");
    reveal_strlit("?2,");
    reveal_strlit("?3)");
    text::split_of_one("(?1,"@, ' ');
    text::split_of_one("?2,"@, ' ');
    text::split_of_one("?3)"@, ' ');
    assert("(?1, ?2, ?3)"@ =~= "(?1,"@.push(' ') + ("?2,"@.push(' ') + "?3)"@));
    text::split_of_two("(?1,"@, ' ', "?2,"@.push(' ') + "?3)"@);
    text::split_of_two("?2,"@, ' ', "?3)"@);
}

proof fn end_words()
    ensures
        text::split(END_SESSION@, ' ') == seq![
            "UPDATE"@,
            "sessions"@,
            "SET"@,
            "end_ms=?2,"@,
            "end_reason=?3"@,
            "WHERE"@,
            "id=?1"@,
            "AND"@,
            "end_ms"@,
            "IS"@,
            "NULL"@,
        ],
{
    let c0 = "UPDATE sessions SET end_ms=?2, end_reason=?3 WHERE"@;
    lemma_end_words_0();
    let c1 = "id=?1 AND end_ms IS NULL"@;
    lemma_end_words_1();
    reveal_strlit("UPDATE sessions SET end_ms=?2, end_reason=?3 WHERE id=?1 AND end_ms IS NULL");
    reveal_strlit("UPDATE sessions SET end_ms=?2, end_reason=?3 WHERE");
    reveal_strlit("id=?1 AND end_ms IS NULL");
    assert(END_SESSION@ =~= c0.push(' ') + c1);
    text::split_of_two(c0, ' ', c1);
    assert(text::split(END_SESSION@, ' ') =~= seq![
        "UPDATE"@,
        "sessions"@,
        "SET"@,
        "end_ms=?2,"@,
        "end_reason=?3"@,
        "WHERE"@,
        "id=?1"@,
        "AND"@,
        "end_ms"@,
        "IS"@,
        "NULL"@,
    ]);
}

proof fn lemma_end_words_0()
    ensures
        text::split("UPDATE sessions SET end_ms=?2, end_reason=?3 WHERE"@, ' ') == seq!["UPDATE"@, "sessions"@, "SET"@, "end_ms=?2,"@, "end_reason=?3"@, "WHERE"@],
{
    reveal_strlit("UPDATE sessions SET end_ms=?2, end_reason=?3 WHERE");
    reveal_strlit("UPDATE");
    reveal_strlit("sessions");
    reveal_strlit("SET");
    reveal_strlit("end_ms=?2,");
    reveal_strlit("end_reason=?3");
    reveal_strlit("WHERE");
    text::split_of_one("UPDATE"@, ' ');
    text::split_of_one("sessions"@, ' ');
    text::split_of_one("SET"@, ' ');
    text::split_of_one("end_ms=?2,"@, ' ');
    text::split_of_one("end_reason=?3"@, ' ');
    text::split_of_one("WHERE"@, ' ');
    assert("UPDATE sessions SET end_ms=?2, end_reason=?3 WHERE"@ =~= "UPDATE"@.push(' ') + ("sessions"@.push(' ') + ("SET"@.push(' ') + ("end_ms=?2,"@.push(' ') + ("end_reason=?3"@.push(' ') + "WHERE"@)))));
    text::split_of_two("UPDATE"@, ' ', "sessions"@.push(' ') + ("SET"@.push(' ') + ("end_ms=?2,"@.push(' ') + ("end_reason=?3"@.push(' ') + "WHERE"@))));
    text::split_of_two("sessions"@, ' ', "SET"@.push(' ') + ("end_ms=?2,"@.push(' ') + ("end_reason=?3"@.push(' ') + "WHERE"@)));
    text::split_of_two("SET"@, ' ', "end_ms=?2,"@.push(' ') + ("end_reason=?3"@.push(' ') + "WHERE"@));
    text::split_of_two("end_ms=?2,"@, ' ', "end_reason=?3"@.push(' ') + "WHERE"@);
    text::split_of_two("end_reason=?3"@, ' ', "WHERE"@);
}

proof fn lemma_end_words_1()
    ensures
        text::split("id=?1 AND end_ms IS NULL"@, ' ') == seq!["id=?1"@, "AND"@, "end_ms"@, "IS"@, "NULL"@],
{
    reveal_strlit("id=?1 AND end_ms IS NULL");
    reveal_strlit("id=?1");
    reveal_strlit("AND");
    reveal_strlit("end_ms");
    reveal_strlit("IS");
    reveal_strlit("NULL");
    text::split_of_one("id=?1"@, ' ');
    text::split_of_one("AND"@, ' ');
    text::split_of_one("end_ms"@, ' ');
    text::split_of_one("IS"@, ' ');
    text::split_of_one("NULL"@, ' ');
    assert("id=?1 AND end_ms IS NULL"@ =~= "id=?1"@.push(' ') + ("AND"@.push(' ') + ("end_ms"@.push(' ') + ("IS"@.push(' ') + "NULL"@))));
    text::split_of_two("id=?1"@, ' ', "AND"@.push(' ') + ("end_ms"@.push(' ') + ("IS"@.push(' ') + "NULL"@)));
    text::split_of_two("AND"@, ' ', "end_ms"@.push(' ') + ("IS"@.push(' ') + "NULL"@));
    text::split_of_two("end_ms"@, ' ', "IS"@.push(' ') + "NULL"@);
    text::split_of_two("IS"@, ' ', "NULL"@);
}

proof fn egress_words()
    ensures
        text::split(SET_EGRESS@, ' ') == seq![
            "UPDATE"@,
            "flows"@,
            "SET"@,
            "egress_addr=?2"@,
            "WHERE"@,
            "id=?1"@,
        ],
{
    let c0 = "UPDATE flows SET egress_addr=?2 WHERE id=?1"@;
    lemma_egress_words_0();
    reveal_strlit("UPDATE flows SET egress_addr=?2 WHERE id=?1");
    reveal_strlit("UPDATE flows SET egress_addr=?2 WHERE id=?1");
    assert(SET_EGRESS@ =~= c0);
    assert(text::split(SET_EGRESS@, ' ') =~= seq![
        "UPDATE"@,
        "flows"@,
        "SET"@,
        "egress_addr=?2"@,
        "WHERE"@,
        "id=?1"@,
    ]);
}

proof fn lemma_egress_words_0()
    ensures
        text::split("UPDATE flows SET egress_addr=?2 WHERE id=?1"@, ' ') == seq!["UPDATE"@, "flows"@, "SET"@, "egress_addr=?2"@, "WHERE"@, "id=?1"@],
{
    reveal_strlit("UPDATE flows SET egress_addr=?2 WHERE id=?1");
    reveal_strlit("UPDATE");
    reveal_strlit("flows");
    reveal_strlit("SET");
    reveal_strlit("egress_addr=?2");
    reveal_strlit("WHERE");
    reveal_strlit("id=?1");
    text::split_of_one("UPDATE"@, ' ');
    text::split_of_one("flows"@, ' ');
    text::split_of_one("SET"@, ' ');
    text::split_of_one("egress_addr=?2"@, ' ');
    text::split_of_one("WHERE"@, ' ');
    text::split_of_one("id=?1"@, ' ');
    assert("UPDATE flows SET egress_addr=?2 WHERE id=?1"@ =~= "UPDATE"@.push(' ') + ("flows"@.push(' ') + ("SET"@.push(' ') + ("egress_addr=?2"@.push(' ') + ("WHERE"@.push(' ') + "id=?1"@)))));
    text::split_of_two("UPDATE"@, ' ', "flows"@.push(' ') + ("SET"@.push(' ') + ("egress_addr=?2"@.push(' ') + ("WHERE"@.push(' ') + "id=?1"@))));
    text::split_of_two("flows"@, ' ', "SET"@.push(' ') + ("egress_addr=?2"@.push(' ') + ("WHERE"@.push(' ') + "id=?1"@)));
    text::split_of_two("SET"@, ' ', "egress_addr=?2"@.push(' ') + ("WHERE"@.push(' ') + "id=?1"@));
    text::split_of_two("egress_addr=?2"@, ' ', "WHERE"@.push(' ') + "id=?1"@);
    text::split_of_two("WHERE"@, ' ', "id=?1"@);
}

proof fn establish_words()
    ensures
        text::split(ESTABLISH_FLOW@, ' ') == seq![
            "UPDATE"@,
            "flows"@,
            "SET"@,
            "established=1,"@,
            "egress_addr=COALESCE(?2,"@,
            "egress_addr)"@,
            "WHERE"@,
            "id=?1"@,
        ],
{
    let c0 = "UPDATE flows SET established=1, egress_addr=COALESCE(?2, egress_addr)"@;
    lemma_establish_words_0();
    let c1 = "WHERE id=?1"@;
    lemma_establish_words_1();
    reveal_strlit("UPDATE flows SET established=1, egress_addr=COALESCE(?2, egress_addr) WHERE id=?1");
    reveal_strlit("UPDATE flows SET established=1, egress_addr=COALESCE(?2, egress_addr)");
    reveal_strlit("WHERE id=?1");
    assert(ESTABLISH_FLOW@ =~= c0.push(' ') + c1);
    text::split_of_two(c0, ' ', c1);
    assert(text::split(ESTABLISH_FLOW@, ' ') =~= seq![
        "UPDATE"@,
        "flows"@,
        "SET"@,
        "established=1,"@,
        "egress_addr=COALESCE(?2,"@,
        "egress_addr)"@,
        "WHERE"@,
        "id=?1"@,
    ]);
}

proof fn lemma_establish_words_0()
    ensures
        text::split("UPDATE flows SET established=1, egress_addr=COALESCE(?2, egress_addr)"@, ' ') == seq!["UPDATE"@, "flows"@, "SET"@, "established=1,"@, "egress_addr=COALESCE(?2,"@, "egress_addr)"@],
{
    reveal_strlit("UPDATE flows SET established=1, egress_addr=COALESCE(?2, egress_addr)");
    reveal_strlit("UPDATE");
    reveal_strlit("flows");
    reveal_strlit("SET");
    reveal_strlit("established=1,");
    reveal_strlit("egress_addr=COALESCE(?2,");
    reveal_strlit("egress_addr)");
    text::split_of_one("UPDATE"@, ' ');
    text::split_of_one("flows"@, ' ');
    text::split_of_one("SET"@, ' ');
    text::split_of_one("established=1,"@, ' ');
    text::split_of_one("egress_addr=COALESCE(?2,"@, ' ');
    text::split_of_one("egress_addr)"@, ' ');
    assert("UPDATE flows SET established=1, egress_addr=COALESCE(?2, egress_addr)"@ =~= "UPDATE"@.push(' ') + ("flows"@.push(' ') + ("SET"@.push(' ') + ("established=1,"@.push(' ') + ("egress_addr=COALESCE(?2,"@.push(' ') + "egress_addr)"@)))));
    text::split_of_two("UPDATE"@, ' ', "flows"@.push(' ') + ("SET"@.push(' ') + ("established=1,"@.push(' ') + ("egress_addr=COALESCE(?2,"@.push(' ') + "egress_addr)"@))));
    text::split_of_two("flows"@, ' ', "SET"@.push(' ') + ("established=1,"@.push(' ') + ("egress_addr=COALESCE(?2,"@.push(' ') + "egress_addr)"@)));
    text::split_of_two("SET"@, ' ', "established=1,"@.push(' ') + ("egress_addr=COALESCE(?2,"@.push(' ') + "egress_addr)"@));
    text::split_of_two("established=1,"@, ' ', "egress_addr=COALESCE(?2,"@.push(' ') + "egress_addr)"@);
    text::split_of_two("egress_addr=COALESCE(?2,"@, ' ', "egress_addr)"@);
}

proof fn lemma_establish_words_1()
    ensures
        text::split("WHERE id=?1"@, ' ') == seq!["WHERE"@, "id=?1"@],
{
    reveal_strlit("WHERE id=?1");
    reveal_strlit("WHERE");
    reveal_strlit("id=?1");
    text::split_of_one("WHERE"@, ' ');
    text::split_of_one("id=?1"@, ' ');
    assert("WHERE id=?1"@ =~= "WHERE"@.push(' ') + "id=?1"@);
    text::split_of_two("WHERE"@, ' ', "id=?1"@);
}

proof fn close_words()
    ensures
        text::split(CLOSE_FLOW@, ' ') == seq![
            "UPDATE"@,
            "flows"@,
            "SET"@,
            "last_ms=MAX(?2,"@,
            "first_ms),"@,
            "bytes_up=?3,"@,
            "bytes_down=?4,"@,
            "established=MAX(established,"@,
            "?5),"@,
            "end_reason=?6"@,
            "WHERE"@,
            "id=?1"@,
            "AND"@,
            "end_reason"@,
            "IS"@,
            "NULL"@,
        ],
{
    let c0 = "UPDATE flows SET last_ms=MAX(?2, first_ms), bytes_up=?3,"@;
    lemma_close_words_0();
    let c1 = "bytes_down=?4, established=MAX(established, ?5), end_reason=?6 WHERE id=?1"@;
    lemma_close_words_1();
    let c2 = "AND end_reason IS NULL"@;
    lemma_close_words_2();
    reveal_strlit("UPDATE flows SET last_ms=MAX(?2, first_ms), bytes_up=?3, bytes_down=?4, established=MAX(established, ?5), end_reason=?6 WHERE id=?1 AND end_reason IS NULL");
    reveal_strlit("UPDATE flows SET last_ms=MAX(?2, first_ms), bytes_up=?3,");
    reveal_strlit("bytes_down=?4, established=MAX(established, ?5), end_reason=?6 WHERE id=?1");
    reveal_strlit("AND end_reason IS NULL");
    assert(CLOSE_FLOW@ =~= c0.push(' ') + (c1.push(' ') + c2));
    text::split_of_two(c0, ' ', c1.push(' ') + (c2));
    text::split_of_two(c1, ' ', c2);
    assert(text::split(CLOSE_FLOW@, ' ') =~= seq![
        "UPDATE"@,
        "flows"@,
        "SET"@,
        "last_ms=MAX(?2,"@,
        "first_ms),"@,
        "bytes_up=?3,"@,
        "bytes_down=?4,"@,
        "established=MAX(established,"@,
        "?5),"@,
        "end_reason=?6"@,
        "WHERE"@,
        "id=?1"@,
        "AND"@,
        "end_reason"@,
        "IS"@,
        "NULL"@,
    ]);
}

proof fn lemma_close_words_0()
    ensures
        text::split("UPDATE flows SET last_ms=MAX(?2, first_ms), bytes_up=?3,"@, ' ') == seq!["UPDATE"@, "flows"@, "SET"@, "last_ms=MAX(?2,"@, "first_ms),"@, "bytes_up=?3,"@],
{
    reveal_strlit("UPDATE flows SET last_ms=MAX(?2, first_ms), bytes_up=?3,");
    reveal_strlit("UPDATE");
    reveal_strlit("flows");
    reveal_strlit("SET");
    reveal_strlit("last_ms=MAX(?2,");
    reveal_strlit("first_ms),");
    reveal_strlit("bytes_up=?3,");
    text::split_of_one("UPDATE"@, ' ');
    text::split_of_one("flows"@, ' ');
    text::split_of_one("SET"@, ' ');
    text::split_of_one("last_ms=MAX(?2,"@, ' ');
    text::split_of_one("first_ms),"@, ' ');
    text::split_of_one("bytes_up=?3,"@, ' ');
    assert("UPDATE flows SET last_ms=MAX(?2, first_ms), bytes_up=?3,"@ =~= "UPDATE"@.push(' ') + ("flows"@.push(' ') + ("SET"@.push(' ') + ("last_ms=MAX(?2,"@.push(' ') + ("first_ms),"@.push(' ') + "bytes_up=?3,"@)))));
    text::split_of_two("UPDATE"@, ' ', "flows"@.push(' ') + ("SET"@.push(' ') + ("last_ms=MAX(?2,"@.push(' ') + ("first_ms),"@.push(' ') + "bytes_up=?3,"@))));
    text::split_of_two("flows"@, ' ', "SET"@.push(' ') + ("last_ms=MAX(?2,"@.push(' ') + ("first_ms),"@.push(' ') + "bytes_up=?3,"@)));
    text::split_of_two("SET"@, ' ', "last_ms=MAX(?2,"@.push(' ') + ("first_ms),"@.push(' ') + "bytes_up=?3,"@));
    text::split_of_two("last_ms=MAX(?2,"@, ' ', "first_ms),"@.push(' ') + "bytes_up=?3,"@);
    text::split_of_two("first_ms),"@, ' ', "bytes_up=?3,"@);
}

proof fn lemma_close_words_1()
    ensures
        text::split("bytes_down=?4, established=MAX(established, ?5), end_reason=?6 WHERE id=?1"@, ' ') == seq!["bytes_down=?4,"@, "established=MAX(established,"@, "?5),"@, "end_reason=?6"@, "WHERE"@, "id=?1"@],
{
    reveal_strlit("bytes_down=?4, established=MAX(established, ?5), end_reason=?6 WHERE id=?1");
    reveal_strlit("bytes_down=?4,");
    reveal_strlit("established=MAX(established,");
    reveal_strlit("?5),");
    reveal_strlit("end_reason=?6");
    reveal_strlit("WHERE");
    reveal_strlit("id=?1");
    text::split_of_one("bytes_down=?4,"@, ' ');
    text::split_of_one("established=MAX(established,"@, ' ');
    text::split_of_one("?5),"@, ' ');
    text::split_of_one("end_reason=?6"@, ' ');
    text::split_of_one("WHERE"@, ' ');
    text::split_of_one("id=?1"@, ' ');
    assert("bytes_down=?4, established=MAX(established, ?5), end_reason=?6 WHERE id=?1"@ =~= "bytes_down=?4,"@.push(' ') + ("established=MAX(established,"@.push(' ') + ("?5),"@.push(' ') + ("end_reason=?6"@.push(' ') + ("WHERE"@.push(' ') + "id=?1"@)))));
    text::split_of_two("bytes_down=?4,"@, ' ', "established=MAX(established,"@.push(' ') + ("?5),"@.push(' ') + ("end_reason=?6"@.push(' ') + ("WHERE"@.push(' ') + "id=?1"@))));
    text::split_of_two("established=MAX(established,"@, ' ', "?5),"@.push(' ') + ("end_reason=?6"@.push(' ') + ("WHERE"@.push(' ') + "id=?1"@)));
    text::split_of_two("?5),"@, ' ', "end_reason=?6"@.push(' ') + ("WHERE"@.push(' ') + "id=?1"@));
    text::split_of_two("end_reason=?6"@, ' ', "WHERE"@.push(' ') + "id=?1"@);
    text::split_of_two("WHERE"@, ' ', "id=?1"@);
}

proof fn lemma_close_words_2()
    ensures
        text::split("AND end_reason IS NULL"@, ' ') == seq!["AND"@, "end_reason"@, "IS"@, "NULL"@],
{
    reveal_strlit("AND end_reason IS NULL");
    reveal_strlit("AND");
    reveal_strlit("end_reason");
    reveal_strlit("IS");
    reveal_strlit("NULL");
    text::split_of_one("AND"@, ' ');
    text::split_of_one("end_reason"@, ' ');
    text::split_of_one("IS"@, ' ');
    text::split_of_one("NULL"@, ' ');
    assert("AND end_reason IS NULL"@ =~= "AND"@.push(' ') + ("end_reason"@.push(' ') + ("IS"@.push(' ') + "NULL"@)));
    text::split_of_two("AND"@, ' ', "end_reason"@.push(' ') + ("IS"@.push(' ') + "NULL"@));
    text::split_of_two("end_reason"@, ' ', "IS"@.push(' ') + "NULL"@);
    text::split_of_two("IS"@, ' ', "NULL"@);
}

proof fn lemma_bare(w: Seq<char>, head: Seq<char>, inner: Seq<char>, end: char)
    requires
        w =~= head.push('(') + inner.push(end),
        end == ',' || end == ')',
        !head.contains('('),
    ensures
        bare_word(w) == inner,
{
    text::place_after(head, '(', inner.push(end));
    assert(w.skip(head.len() as int + 1) =~= inner.push(end));
    assert(inner.push(end).drop_last() =~= inner);
}

proof fn lemma_end(w: Seq<char>, inner: Seq<char>, end: char)
    requires
        w =~= inner.push(end),
        end == ',' || end == ')',
        !inner.contains('('),
    ensures
        bare_word(w) == inner,
{
    text::place_of_is_first(w, '(', 0);
    let at = text::place_of(w, '(', 0);
    if at < w.len() {
        assert(at < inner.len());
        assert(inner[at] == '(');
        assert(inner.contains('('));
    }
    assert(w.drop_last() =~= inner);
}

proof fn lemma_more_bare_words()
    ensures
        bare_word("sessions(id,"@) == "id"@,
        bare_word("start_ms,"@) == "start_ms"@,
        bare_word("relay_addr)"@) == "relay_addr"@,
        bare_word("(?1,"@) == "?"@ + text::dec(1),
        bare_word("?2,"@) == "?"@ + text::dec(2),
        bare_word("?3)"@) == "?"@ + text::dec(3),
        bare_word("session_addrs(session_id,"@) == "session_id"@,
        bare_word("ts_ms,"@) == "ts_ms"@,
        bare_word("kind,"@) == "kind"@,
        bare_word("addr)"@) == "addr"@,
        bare_word("?3,"@) == "?"@ + text::dec(3),
        bare_word("?4)"@) == "?"@ + text::dec(4),
        bare_word("marks(ts_ms,"@) == "ts_ms"@,
        bare_word("detail)"@) == "detail"@,
{
    reveal_strlit("?");
    let none = Seq::<char>::empty();
    assert(text::dec(1) =~= seq![text::digit_char(1)]);
    assert(text::dec(2) =~= seq![text::digit_char(2)]);
    assert(text::dec(3) =~= seq![text::digit_char(3)]);
    assert(text::dec(4) =~= seq![text::digit_char(4)]);
    reveal_strlit("sessions(id,");
    reveal_strlit("id");
    reveal_strlit("start_ms,");
    reveal_strlit("start_ms");
    reveal_strlit("relay_addr)");
    reveal_strlit("relay_addr");
    reveal_strlit("(?1,");
    reveal_strlit("?2,");
    reveal_strlit("?3)");
    reveal_strlit("session_addrs(session_id,");
    reveal_strlit("session_id");
    reveal_strlit("ts_ms,");
    reveal_strlit("ts_ms");
    reveal_strlit("kind,");
    reveal_strlit("kind");
    reveal_strlit("addr)");
    reveal_strlit("addr");
    reveal_strlit("?3,");
    reveal_strlit("?4)");
    reveal_strlit("marks(ts_ms,");
    reveal_strlit("ts_ms");
    reveal_strlit("detail)");
    reveal_strlit("detail");
    reveal_strlit("marks");
    reveal_strlit("session_addrs");
    reveal_strlit("sessions");
    lemma_bare("sessions(id,"@, "sessions"@, "id"@, ',');
    lemma_end("start_ms,"@, "start_ms"@, ',');
    lemma_end("relay_addr)"@, "relay_addr"@, ')');
    lemma_bare("(?1,"@, none, "?"@ + text::dec(1), ',');
    lemma_end("?2,"@, "?"@ + text::dec(2), ',');
    lemma_end("?3)"@, "?"@ + text::dec(3), ')');
    lemma_bare("session_addrs(session_id,"@, "session_addrs"@, "session_id"@, ',');
    lemma_end("ts_ms,"@, "ts_ms"@, ',');
    lemma_end("kind,"@, "kind"@, ',');
    lemma_end("addr)"@, "addr"@, ')');
    lemma_end("?3,"@, "?"@ + text::dec(3), ',');
    lemma_end("?4)"@, "?"@ + text::dec(4), ')');
    lemma_bare("marks(ts_ms,"@, "marks"@, "ts_ms"@, ',');
    lemma_end("detail)"@, "detail"@, ')');
}

/// A session is written down with its number, when it began and the relay it
/// came through; each address of it with its session, when it was learned, what
/// kind of address it is and the address; a mark with its time, its kind and
/// what it says.
pub proof fn sessions_and_marks_are_written_down(
    id: i64,
    ts_ms: i64,
    relay: SocketAddr,
    addr_kind: AddrKind,
    kind: &'static str,
    detail: String,
    egress: Option<SocketAddr>,
)
    ensures
        ({
            let s = written(Ev::SessionStart { id, ts_ms, relay }, egress)[0];
            &&& puts(s, "id"@, ValueView::Int(id))
            &&& puts(s, "start_ms"@, ValueView::Int(ts_ms))
            &&& puts(s, "relay_addr"@, ValueView::Text(relay.text()))
        }),
        ({
            let s = written(
                Ev::SessionAddr { session: id, ts_ms, addr_kind, addr: relay },
                egress,
            )[0];
            &&& puts(s, "session_id"@, ValueView::Int(id))
            &&& puts(s, "ts_ms"@, ValueView::Int(ts_ms))
            &&& puts(s, "kind"@, ValueView::Text(addr_kind.code()))
            &&& puts(s, "addr"@, ValueView::Text(relay.text()))
        }),
        ({
            let s = written(Ev::Mark { ts_ms, kind, detail }, egress)[0];
            &&& puts(s, "ts_ms"@, ValueView::Int(ts_ms))
            &&& puts(s, "kind"@, ValueView::Text(kind@))
            &&& puts(s, "detail"@, ValueView::Text(detail@))
        }),
{
    let a = written(Ev::SessionStart { id, ts_ms, relay }, egress)[0];
    let b = written(Ev::SessionAddr { session: id, ts_ms, addr_kind, addr: relay }, egress)[0];
    let c = written(Ev::Mark { ts_ms, kind, detail }, egress)[0];
    session_words();
    session_addr_words();
    mark_words();
    lemma_more_bare_words();
    lemma_placeholder(1, a.params);
    lemma_placeholder(2, a.params);
    lemma_placeholder(3, a.params);
    lemma_placeholder(1, b.params);
    lemma_placeholder(2, b.params);
    lemma_placeholder(3, b.params);
    lemma_placeholder(4, b.params);
    lemma_placeholder(1, c.params);
    lemma_placeholder(2, c.params);
    lemma_placeholder(3, c.params);
    assert(gives_column(a, "id"@, ValueView::Int(id), 4, 4, 7));
    assert(gives_column(a, "start_ms"@, ValueView::Int(ts_ms), 4, 5, 7));
    assert(gives_column(a, "relay_addr"@, ValueView::Text(relay.text()), 4, 6, 7));
    assert(gives_column(b, "session_id"@, ValueView::Int(id), 2, 2, 6));
    assert(gives_column(b, "ts_ms"@, ValueView::Int(ts_ms), 2, 3, 6));
    assert(gives_column(b, "kind"@, ValueView::Text(addr_kind.code()), 2, 4, 6));
    assert(gives_column(b, "addr"@, ValueView::Text(relay.text()), 2, 5, 6));
    assert(gives_column(c, "ts_ms"@, ValueView::Int(ts_ms), 2, 2, 5));
    assert(gives_column(c, "kind"@, ValueView::Text(kind@), 2, 3, 5));
    assert(gives_column(c, "detail"@, ValueView::Text(detail@), 2, 4, 5));
}

/// Whether a word of a statement says of a column that it is a value: the
/// column, an equals sign and the placeholder, with or without a comma.
pub open spec fn says(
    s: StatementView,
    k: int,
    before: Seq<char>,
    value: ValueView,
    n: int,
) -> bool {
    let words = text::split(s.sql, ' ');
    let word = before + "?"@ + text::dec(n as nat);
    &&& 0 <= k < words.len()
    &&& words[k] == word || words[k] == word.push(',') || words[k] == word + seq![')', ',']
    &&& 0 < n <= s.params.len()
    &&& s.params[n - 1] == value
}

/// Whether a statement changes the row under a number in a table, as its words
/// up to `WHERE` say.
pub open spec fn changes(s: StatementView, table: Seq<char>, id: i64, at: int) -> bool {
    let words = text::split(s.sql, ' ');
    &&& 3 < at < words.len() - 1
    &&& words[0] == "UPDATE"@ && words[1] == table && words[2] == "SET"@
    &&& words[at] == "WHERE"@
    &&& says(s, at + 1, "id="@, ValueView::Int(id), 1)
}

/// The end of a session is written down at its number, with its time and its
/// reason. The end of a flow is written down at its number, with when it was
/// last used, though not before it began, the bytes of each direction and the
/// reason; and an address that a flow leaves from is written down at its number.
pub proof fn ends_are_written_down(
    id: i64,
    ts_ms: i64,
    up: u64,
    down: u64,
    established: bool,
    reason: &'static str,
    a: SocketAddr,
    egress: Option<SocketAddr>,
)
    ensures
        ({
            let s = written(Ev::SessionEnd { session: id, ts_ms, reason }, egress)[0];
            &&& changes(s, "sessions"@, id, 5)
            &&& says(s, 3, "end_ms="@, ValueView::Int(ts_ms), 2)
            &&& says(s, 4, "end_reason="@, ValueView::Text(reason@), 3)
        }),
        ({
            let s = written(
                Ev::FlowClose { id, last_ms: ts_ms, up, down, established, reason },
                egress,
            )[0];
            &&& changes(s, "flows"@, id, 10)
            &&& says(s, 3, "last_ms=MAX("@, ValueView::Int(ts_ms), 2)
            &&& text::split(s.sql, ' ')[4] == "first_ms),"@
            &&& says(s, 5, "bytes_up="@, ValueView::Size(up), 3)
            &&& says(s, 6, "bytes_down="@, ValueView::Size(down), 4)
            &&& text::split(s.sql, ' ')[7] == "established=MAX(established,"@
            &&& says(s, 8, ""@, ValueView::Flag(established), 5)
            &&& says(s, 9, "end_reason="@, ValueView::Text(reason@), 6)
        }),
        ({
            let s = written(Ev::FlowEstablished { id, egress: Some(a) }, egress)[0];
            &&& changes(s, "flows"@, id, 6)
            &&& text::split(s.sql, ' ')[3] == "established=1,"@
            &&& says(s, 4, "egress_addr=COALESCE("@, ValueView::Text(a.text()), 2)
        }),
{
    let s1 = written(Ev::SessionEnd { session: id, ts_ms, reason }, egress)[0];
    let s2 = written(Ev::FlowClose { id, last_ms: ts_ms, up, down, established, reason }, egress)[0];
    let s3 = written(Ev::FlowEstablished { id, egress: Some(a) }, egress)[0];
    end_words();
    close_words();
    establish_words();
    lemma_said_words();
}

proof fn lemma_said_words()
    ensures
        "end_ms=?2,"@ == ("end_ms="@ + "?"@ + text::dec(2)).push(','),
        "end_reason=?3"@ == "end_reason="@ + "?"@ + text::dec(3),
        "id=?1"@ == "id="@ + "?"@ + text::dec(1),
        "last_ms=MAX(?2,"@ == ("last_ms=MAX("@ + "?"@ + text::dec(2)).push(','),
        "bytes_up=?3,"@ == ("bytes_up="@ + "?"@ + text::dec(3)).push(','),
        "bytes_down=?4,"@ == ("bytes_down="@ + "?"@ + text::dec(4)).push(','),
        "?5),"@ == ""@ + "?"@ + text::dec(5) + seq![')', ','],
        "end_reason=?6"@ == "end_reason="@ + "?"@ + text::dec(6),
        "egress_addr=COALESCE(?2,"@ == ("egress_addr=COALESCE("@ + "?"@ + text::dec(2)).push(','),
{
    reveal_strlit("?");
    assert(text::dec(1) =~= seq![text::digit_char(1)]);
    assert(text::dec(2) =~= seq![text::digit_char(2)]);
    assert(text::dec(3) =~= seq![text::digit_char(3)]);
    assert(text::dec(4) =~= seq![text::digit_char(4)]);
    assert(text::dec(5) =~= seq![text::digit_char(5)]);
    assert(text::dec(6) =~= seq![text::digit_char(6)]);
    reveal_strlit("end_ms=");
    reveal_strlit("end_reason=");
    reveal_strlit("id=");
    reveal_strlit("last_ms=MAX(");
    reveal_strlit("bytes_up=");
    reveal_strlit("bytes_down=");
    reveal_strlit("");
    reveal_strlit("egress_addr=COALESCE(");
    reveal_strlit("end_ms=?2,");
    reveal_strlit("end_reason=?3");
    reveal_strlit("id=?1");
    reveal_strlit("last_ms=MAX(?2,");
    reveal_strlit("bytes_up=?3,");
    reveal_strlit("bytes_down=?4,");
    reveal_strlit("?5),");
    reveal_strlit("end_reason=?6");
    reveal_strlit("egress_addr=COALESCE(?2,");
    assert("end_ms=?2,"@ =~= ("end_ms="@ + "?"@ + text::dec(2)).push(','));
    assert("end_reason=?3"@ =~= "end_reason="@ + "?"@ + text::dec(3));
    assert("id=?1"@ =~= "id="@ + "?"@ + text::dec(1));
    assert("last_ms=MAX(?2,"@ =~= ("last_ms=MAX("@ + "?"@ + text::dec(2)).push(','));
    assert("bytes_up=?3,"@ =~= ("bytes_up="@ + "?"@ + text::dec(3)).push(','));
    assert("bytes_down=?4,"@ =~= ("bytes_down="@ + "?"@ + text::dec(4)).push(','));
    assert("?5),"@ =~= ""@ + "?"@ + text::dec(5) + seq![')', ',']);
    assert("end_reason=?6"@ =~= "end_reason="@ + "?"@ + text::dec(6));
    assert("egress_addr=COALESCE(?2,"@ =~= ("egress_addr=COALESCE("@ + "?"@ + text::dec(2)).push(','));
}

proof fn select_marks_words()
    ensures
        text::split(SELECT_MARKS@, ' ') == seq![
            "SELECT"@,
            "ts_ms,"@,
            "kind,"@,
            "detail"@,
            "FROM"@,
            "marks"@,
            "WHERE"@,
            "ts_ms"@,
            ">="@,
            "?1"@,
            "AND"@,
            "ts_ms"@,
            "<="@,
            "?2"@,
            "ORDER"@,
            "BY"@,
            "seq"@,
        ],
{
    let c0 = "SELECT ts_ms, kind, detail FROM marks"@;
    lemma_select_marks_words_0();
    let c1 = "WHERE ts_ms >= ?1 AND ts_ms"@;
    lemma_select_marks_words_1();
    let c2 = "<= ?2 ORDER BY seq"@;
    lemma_select_marks_words_2();
    reveal_strlit("SELECT ts_ms, kind, detail FROM marks WHERE ts_ms >= ?1 AND ts_ms <= ?2 ORDER BY seq");
    reveal_strlit("SELECT ts_ms, kind, detail FROM marks");
    reveal_strlit("WHERE ts_ms >= ?1 AND ts_ms");
    reveal_strlit("<= ?2 ORDER BY seq");
    assert(SELECT_MARKS@ =~= c0.push(' ') + (c1.push(' ') + c2));
    text::split_of_two(c0, ' ', c1.push(' ') + (c2));
    text::split_of_two(c1, ' ', c2);
    assert(text::split(SELECT_MARKS@, ' ') =~= seq![
        "SELECT"@,
        "ts_ms,"@,
        "kind,"@,
        "detail"@,
        "FROM"@,
        "marks"@,
        "WHERE"@,
        "ts_ms"@,
        ">="@,
        "?1"@,
        "AND"@,
        "ts_ms"@,
        "<="@,
        "?2"@,
        "ORDER"@,
        "BY"@,
        "seq"@,
    ]);
}

proof fn lemma_select_marks_words_0()
    ensures
        text::split("SELECT ts_ms, kind, detail FROM marks"@, ' ') == seq!["SELECT"@, "ts_ms,"@, "kind,"@, "detail"@, "FROM"@, "marks"@],
{
    reveal_strlit("SELECT ts_ms, kind, detail FROM marks");
    reveal_strlit("SELECT");
    reveal_strlit("ts_ms,");
    reveal_strlit("kind,");
    reveal_strlit("detail");
    reveal_strlit("FROM");
    reveal_strlit("marks");
    text::split_of_one("SELECT"@, ' ');
    text::split_of_one("ts_ms,"@, ' ');
    text::split_of_one("kind,"@, ' ');
    text::split_of_one("detail"@, ' ');
    text::split_of_one("FROM"@, ' ');
    text::split_of_one("marks"@, ' ');
    assert("SELECT ts_ms, kind, detail FROM marks"@ =~= "SELECT"@.push(' ') + ("ts_ms,"@.push(' ') + ("kind,"@.push(' ') + ("detail"@.push(' ') + ("FROM"@.push(' ') + "marks"@)))));
    text::split_of_two("SELECT"@, ' ', "ts_ms,"@.push(' ') + ("kind,"@.push(' ') + ("detail"@.push(' ') + ("FROM"@.push(' ') + "marks"@))));
    text::split_of_two("ts_ms,"@, ' ', "kind,"@.push(' ') + ("detail"@.push(' ') + ("FROM"@.push(' ') + "marks"@)));
    text::split_of_two("kind,"@, ' ', "detail"@.push(' ') + ("FROM"@.push(' ') + "marks"@));
    text::split_of_two("detail"@, ' ', "FROM"@.push(' ') + "marks"@);
    text::split_of_two("FROM"@, ' ', "marks"@);
}

proof fn lemma_select_marks_words_1()
    ensures
        text::split("WHERE ts_ms >= ?1 AND ts_ms"@, ' ') == seq!["WHERE"@, "ts_ms"@, ">="@, "?1"@, "AND"@, "ts_ms"@],
{
    reveal_strlit("WHERE ts_ms >= ?1 AND ts_ms");
    reveal_strlit("WHERE");
    reveal_strlit("ts_ms");
    reveal_strlit(">=");
    reveal_strlit("?1");
    reveal_strlit("AND");
    text::split_of_one("WHERE"@, ' ');
    text::split_of_one("ts_ms"@, ' ');
    text::split_of_one(">="@, ' ');
    text::split_of_one("?1"@, ' ');
    text::split_of_one("AND"@, ' ');
    assert("WHERE ts_ms >= ?1 AND ts_ms"@ =~= "WHERE"@.push(' ') + ("ts_ms"@.push(' ') + (">="@.push(' ') + ("?1"@.push(' ') + ("AND"@.push(' ') + "ts_ms"@)))));
    text::split_of_two("WHERE"@, ' ', "ts_ms"@.push(' ') + (">="@.push(' ') + ("?1"@.push(' ') + ("AND"@.push(' ') + "ts_ms"@))));
    text::split_of_two("ts_ms"@, ' ', ">="@.push(' ') + ("?1"@.push(' ') + ("AND"@.push(' ') + "ts_ms"@)));
    text::split_of_two(">="@, ' ', "?1"@.push(' ') + ("AND"@.push(' ') + "ts_ms"@));
    text::split_of_two("?1"@, ' ', "AND"@.push(' ') + "ts_ms"@);
    text::split_of_two("AND"@, ' ', "ts_ms"@);
}

proof fn lemma_select_marks_words_2()
    ensures
        text::split("<= ?2 ORDER BY seq"@, ' ') == seq!["<="@, "?2"@, "ORDER"@, "BY"@, "seq"@],
{
    reveal_strlit("<= ?2 ORDER BY seq");
    reveal_strlit("<=");
    reveal_strlit("?2");
    reveal_strlit("ORDER");
    reveal_strlit("BY");
    reveal_strlit("seq");
    text::split_of_one("<="@, ' ');
    text::split_of_one("?2"@, ' ');
    text::split_of_one("ORDER"@, ' ');
    text::split_of_one("BY"@, ' ');
    text::split_of_one("seq"@, ' ');
    assert("<= ?2 ORDER BY seq"@ =~= "<="@.push(' ') + ("?2"@.push(' ') + ("ORDER"@.push(' ') + ("BY"@.push(' ') + "seq"@))));
    text::split_of_two("<="@, ' ', "?2"@.push(' ') + ("ORDER"@.push(' ') + ("BY"@.push(' ') + "seq"@)));
    text::split_of_two("?2"@, ' ', "ORDER"@.push(' ') + ("BY"@.push(' ') + "seq"@));
    text::split_of_two("ORDER"@, ' ', "BY"@.push(' ') + "seq"@);
    text::split_of_two("BY"@, ' ', "seq"@);
}

proof fn select_sessions_words()
    ensures
        text::split(SELECT_SESSIONS@, ' ') == seq![
            "SELECT"@,
            "id,"@,
            "start_ms,"@,
            "end_ms,"@,
            "end_reason,"@,
            "relay_addr"@,
            "FROM"@,
            "sessions"@,
        ],
{
    let c0 = "SELECT id, start_ms, end_ms, end_reason, relay_addr"@;
    lemma_select_sessions_words_0();
    let c1 = "FROM sessions"@;
    lemma_select_sessions_words_1();
    reveal_strlit("SELECT id, start_ms, end_ms, end_reason, relay_addr FROM sessions");
    reveal_strlit("SELECT id, start_ms, end_ms, end_reason, relay_addr");
    reveal_strlit("FROM sessions");
    assert(SELECT_SESSIONS@ =~= c0.push(' ') + c1);
    text::split_of_two(c0, ' ', c1);
    assert(text::split(SELECT_SESSIONS@, ' ') =~= seq![
        "SELECT"@,
        "id,"@,
        "start_ms,"@,
        "end_ms,"@,
        "end_reason,"@,
        "relay_addr"@,
        "FROM"@,
        "sessions"@,
    ]);
}

proof fn lemma_select_sessions_words_0()
    ensures
        text::split("SELECT id, start_ms, end_ms, end_reason, relay_addr"@, ' ') == seq!["SELECT"@, "id,"@, "start_ms,"@, "end_ms,"@, "end_reason,"@, "relay_addr"@],
{
    reveal_strlit("SELECT id, start_ms, end_ms, end_reason, relay_addr");
    reveal_strlit("SELECT");
    reveal_strlit("id,");
    reveal_strlit("start_ms,");
    reveal_strlit("end_ms,");
    reveal_strlit("end_reason,");
    reveal_strlit("relay_addr");
    text::split_of_one("SELECT"@, ' ');
    text::split_of_one("id,"@, ' ');
    text::split_of_one("start_ms,"@, ' ');
    text::split_of_one("end_ms,"@, ' ');
    text::split_of_one("end_reason,"@, ' ');
    text::split_of_one("relay_addr"@, ' ');
    assert("SELECT id, start_ms, end_ms, end_reason, relay_addr"@ =~= "SELECT"@.push(' ') + ("id,"@.push(' ') + ("start_ms,"@.push(' ') + ("end_ms,"@.push(' ') + ("end_reason,"@.push(' ') + "relay_addr"@)))));
    text::split_of_two("SELECT"@, ' ', "id,"@.push(' ') + ("start_ms,"@.push(' ') + ("end_ms,"@.push(' ') + ("end_reason,"@.push(' ') + "relay_addr"@))));
    text::split_of_two("id,"@, ' ', "start_ms,"@.push(' ') + ("end_ms,"@.push(' ') + ("end_reason,"@.push(' ') + "relay_addr"@)));
    text::split_of_two("start_ms,"@, ' ', "end_ms,"@.push(' ') + ("end_reason,"@.push(' ') + "relay_addr"@));
    text::split_of_two("end_ms,"@, ' ', "end_reason,"@.push(' ') + "relay_addr"@);
    text::split_of_two("end_reason,"@, ' ', "relay_addr"@);
}

proof fn lemma_select_sessions_words_1()
    ensures
        text::split("FROM sessions"@, ' ') == seq!["FROM"@, "sessions"@],
{
    reveal_strlit("FROM sessions");
    reveal_strlit("FROM");
    reveal_strlit("sessions");
    text::split_of_one("FROM"@, ' ');
    text::split_of_one("sessions"@, ' ');
    assert("FROM sessions"@ =~= "FROM"@.push(' ') + "sessions"@);
    text::split_of_two("FROM"@, ' ', "sessions"@);
}

proof fn meta_words()
    ensures
        text::split(INSERT_META@, ' ') == seq![
            "INSERT"@,
            "OR"@,
            "IGNORE"@,
            "INTO"@,
            "meta(key,"@,
            "value)"@,
            "VALUES"@,
            "('format_version',"@,
            "?1),"@,
            "('routing_key',"@,
            "?2),"@,
            "('created_ms',"@,
            "?3)"@,
        ],
{
    let c0 = "INSERT OR IGNORE INTO meta(key, value)"@;
    lemma_meta_words_0();
    let c1 = "VALUES ('format_version', ?1), ('routing_key', ?2), ('created_ms',"@;
    lemma_meta_words_1();
    let c2 = "?3)"@;
    lemma_meta_words_2();
    reveal_strlit("INSERT OR IGNORE INTO meta(key, value) VALUES ('format_version', ?1), ('routing_key', ?2), ('created_ms', ?3)");
    reveal_strlit("INSERT OR IGNORE INTO meta(key, value)");
    reveal_strlit("VALUES ('format_version', ?1), ('routing_key', ?2), ('created_ms',");
    reveal_strlit("?3)");
    assert(INSERT_META@ =~= c0.push(' ') + (c1.push(' ') + c2));
    text::split_of_two(c0, ' ', c1.push(' ') + (c2));
    text::split_of_two(c1, ' ', c2);
    assert(text::split(INSERT_META@, ' ') =~= seq![
        "INSERT"@,
        "OR"@,
        "IGNORE"@,
        "INTO"@,
        "meta(key,"@,
        "value)"@,
        "VALUES"@,
        "('format_version',"@,
        "?1),"@,
        "('routing_key',"@,
        "?2),"@,
        "('created_ms',"@,
        "?3)"@,
    ]);
}

proof fn lemma_meta_words_0()
    ensures
        text::split("INSERT OR IGNORE INTO meta(key, value)"@, ' ') == seq!["INSERT"@, "OR"@, "IGNORE"@, "INTO"@, "meta(key,"@, "value)"@],
{
    reveal_strlit("INSERT OR IGNORE INTO meta(key, value)");
    reveal_strlit("INSERT");
    reveal_strlit("OR");
    reveal_strlit("IGNORE");
    reveal_strlit("INTO");
    reveal_strlit("meta(key,");
    reveal_strlit("value)");
    text::split_of_one("INSERT"@, ' ');
    text::split_of_one("OR"@, ' ');
    text::split_of_one("IGNORE"@, ' ');
    text::split_of_one("INTO"@, ' ');
    text::split_of_one("meta(key,"@, ' ');
    text::split_of_one("value)"@, ' ');
    assert("INSERT OR IGNORE INTO meta(key, value)"@ =~= "INSERT"@.push(' ') + ("OR"@.push(' ') + ("IGNORE"@.push(' ') + ("INTO"@.push(' ') + ("meta(key,"@.push(' ') + "value)"@)))));
    text::split_of_two("INSERT"@, ' ', "OR"@.push(' ') + ("IGNORE"@.push(' ') + ("INTO"@.push(' ') + ("meta(key,"@.push(' ') + "value)"@))));
    text::split_of_two("OR"@, ' ', "IGNORE"@.push(' ') + ("INTO"@.push(' ') + ("meta(key,"@.push(' ') + "value)"@)));
    text::split_of_two("IGNORE"@, ' ', "INTO"@.push(' ') + ("meta(key,"@.push(' ') + "value)"@));
    text::split_of_two("INTO"@, ' ', "meta(key,"@.push(' ') + "value)"@);
    text::split_of_two("meta(key,"@, ' ', "value)"@);
}

proof fn lemma_meta_words_1()
    ensures
        text::split("VALUES ('format_version', ?1), ('routing_key', ?2), ('created_ms',"@, ' ') == seq!["VALUES"@, "('format_version',"@, "?1),"@, "('routing_key',"@, "?2),"@, "('created_ms',"@],
{
    reveal_strlit("VALUES ('format_version', ?1), ('routing_key', ?2), ('created_ms',");
    reveal_strlit("VALUES");
    reveal_strlit("('format_version',");
    reveal_strlit("?1),");
    reveal_strlit("('routing_key',");
    reveal_strlit("?2),");
    reveal_strlit("('created_ms',");
    text::split_of_one("VALUES"@, ' ');
    text::split_of_one("('format_version',"@, ' ');
    text::split_of_one("?1),"@, ' ');
    text::split_of_one("('routing_key',"@, ' ');
    text::split_of_one("?2),"@, ' ');
    text::split_of_one("('created_ms',"@, ' ');
    assert("VALUES ('format_version', ?1), ('routing_key', ?2), ('created_ms',"@ =~= "VALUES"@.push(' ') + ("('format_version',"@.push(' ') + ("?1),"@.push(' ') + ("('routing_key',"@.push(' ') + ("?2),"@.push(' ') + "('created_ms',"@)))));
    text::split_of_two("VALUES"@, ' ', "('format_version',"@.push(' ') + ("?1),"@.push(' ') + ("('routing_key',"@.push(' ') + ("?2),"@.push(' ') + "('created_ms',"@))));
    text::split_of_two("('format_version',"@, ' ', "?1),"@.push(' ') + ("('routing_key',"@.push(' ') + ("?2),"@.push(' ') + "('created_ms',"@)));
    text::split_of_two("?1),"@, ' ', "('routing_key',"@.push(' ') + ("?2),"@.push(' ') + "('created_ms',"@));
    text::split_of_two("('routing_key',"@, ' ', "?2),"@.push(' ') + "('created_ms',"@);
    text::split_of_two("?2),"@, ' ', "('created_ms',"@);
}

proof fn lemma_meta_words_2()
    ensures
        text::split("?3)"@, ' ') == seq!["?3)"@],
{
    reveal_strlit("?3)");
    reveal_strlit("?3)");
    text::split_of_one("?3)"@, ' ');
    assert("?3)"@ =~= "?3)"@);
}

proof fn software_words()
    ensures
        text::split(SET_SOFTWARE@, ' ') == seq![
            "INSERT"@,
            "OR"@,
            "REPLACE"@,
            "INTO"@,
            "meta(key,"@,
            "value)"@,
            "VALUES"@,
            "('software_version',"@,
            "?1)"@,
        ],
{
    let c0 = "INSERT OR REPLACE INTO meta(key, value)"@;
    lemma_software_words_0();
    let c1 = "VALUES ('software_version', ?1)"@;
    lemma_software_words_1();
    reveal_strlit("INSERT OR REPLACE INTO meta(key, value) VALUES ('software_version', ?1)");
    reveal_strlit("INSERT OR REPLACE INTO meta(key, value)");
    reveal_strlit("VALUES ('software_version', ?1)");
    assert(SET_SOFTWARE@ =~= c0.push(' ') + c1);
    text::split_of_two(c0, ' ', c1);
    assert(text::split(SET_SOFTWARE@, ' ') =~= seq![
        "INSERT"@,
        "OR"@,
        "REPLACE"@,
        "INTO"@,
        "meta(key,"@,
        "value)"@,
        "VALUES"@,
        "('software_version',"@,
        "?1)"@,
    ]);
}

proof fn lemma_software_words_0()
    ensures
        text::split("INSERT OR REPLACE INTO meta(key, value)"@, ' ') == seq!["INSERT"@, "OR"@, "REPLACE"@, "INTO"@, "meta(key,"@, "value)"@],
{
    reveal_strlit("INSERT OR REPLACE INTO meta(key, value)");
    reveal_strlit("INSERT");
    reveal_strlit("OR");
    reveal_strlit("REPLACE");
    reveal_strlit("INTO");
    reveal_strlit("meta(key,");
    reveal_strlit("value)");
    text::split_of_one("INSERT"@, ' ');
    text::split_of_one("OR"@, ' ');
    text::split_of_one("REPLACE"@, ' ');
    text::split_of_one("INTO"@, ' ');
    text::split_of_one("meta(key,"@, ' ');
    text::split_of_one("value)"@, ' ');
    assert("INSERT OR REPLACE INTO meta(key, value)"@ =~= "INSERT"@.push(' ') + ("OR"@.push(' ') + ("REPLACE"@.push(' ') + ("INTO"@.push(' ') + ("meta(key,"@.push(' ') + "value)"@)))));
    text::split_of_two("INSERT"@, ' ', "OR"@.push(' ') + ("REPLACE"@.push(' ') + ("INTO"@.push(' ') + ("meta(key,"@.push(' ') + "value)"@))));
    text::split_of_two("OR"@, ' ', "REPLACE"@.push(' ') + ("INTO"@.push(' ') + ("meta(key,"@.push(' ') + "value)"@)));
    text::split_of_two("REPLACE"@, ' ', "INTO"@.push(' ') + ("meta(key,"@.push(' ') + "value)"@));
    text::split_of_two("INTO"@, ' ', "meta(key,"@.push(' ') + "value)"@);
    text::split_of_two("meta(key,"@, ' ', "value)"@);
}

proof fn lemma_software_words_1()
    ensures
        text::split("VALUES ('software_version', ?1)"@, ' ') == seq!["VALUES"@, "('software_version',"@, "?1)"@],
{
    reveal_strlit("VALUES ('software_version', ?1)");
    reveal_strlit("VALUES");
    reveal_strlit("('software_version',");
    reveal_strlit("?1)");
    text::split_of_one("VALUES"@, ' ');
    text::split_of_one("('software_version',"@, ' ');
    text::split_of_one("?1)"@, ' ');
    assert("VALUES ('software_version', ?1)"@ =~= "VALUES"@.push(' ') + ("('software_version',"@.push(' ') + "?1)"@));
    text::split_of_two("VALUES"@, ' ', "('software_version',"@.push(' ') + "?1)"@);
    text::split_of_two("('software_version',"@, ' ', "?1)"@);
}

proof fn start_words()
    ensures
        text::split(START_MARK@, ' ') == seq![
            "INSERT"@,
            "INTO"@,
            "marks(ts_ms,"@,
            "kind,"@,
            "detail)"@,
            "VALUES"@,
            "(?1,"@,
            "'share_start',"@,
            "?2)"@,
        ],
{
    let c0 = "INSERT INTO marks(ts_ms, kind, detail) VALUES"@;
    lemma_start_words_0();
    let c1 = "(?1, 'share_start', ?2)"@;
    lemma_start_words_1();
    reveal_strlit("INSERT INTO marks(ts_ms, kind, detail) VALUES (?1, 'share_start', ?2)");
    reveal_strlit("INSERT INTO marks(ts_ms, kind, detail) VALUES");
    reveal_strlit("(?1, 'share_start', ?2)");
    assert(START_MARK@ =~= c0.push(' ') + c1);
    text::split_of_two(c0, ' ', c1);
    assert(text::split(START_MARK@, ' ') =~= seq![
        "INSERT"@,
        "INTO"@,
        "marks(ts_ms,"@,
        "kind,"@,
        "detail)"@,
        "VALUES"@,
        "(?1,"@,
        "'share_start',"@,
        "?2)"@,
    ]);
}

proof fn lemma_start_words_0()
    ensures
        text::split("INSERT INTO marks(ts_ms, kind, detail) VALUES"@, ' ') == seq!["INSERT"@, "INTO"@, "marks(ts_ms,"@, "kind,"@, "detail)"@, "VALUES"@],
{
    reveal_strlit("INSERT INTO marks(ts_ms, kind, detail) VALUES");
    reveal_strlit("INSERT");
    reveal_strlit("INTO");
    reveal_strlit("marks(ts_ms,");
    reveal_strlit("kind,");
    reveal_strlit("detail)");
    reveal_strlit("VALUES");
    text::split_of_one("INSERT"@, ' ');
    text::split_of_one("INTO"@, ' ');
    text::split_of_one("marks(ts_ms,"@, ' ');
    text::split_of_one("kind,"@, ' ');
    text::split_of_one("detail)"@, ' ');
    text::split_of_one("VALUES"@, ' ');
    assert("INSERT INTO marks(ts_ms, kind, detail) VALUES"@ =~= "INSERT"@.push(' ') + ("INTO"@.push(' ') + ("marks(ts_ms,"@.push(' ') + ("kind,"@.push(' ') + ("detail)"@.push(' ') + "VALUES"@)))));
    text::split_of_two("INSERT"@, ' ', "INTO"@.push(' ') + ("marks(ts_ms,"@.push(' ') + ("kind,"@.push(' ') + ("detail)"@.push(' ') + "VALUES"@))));
    text::split_of_two("INTO"@, ' ', "marks(ts_ms,"@.push(' ') + ("kind,"@.push(' ') + ("detail)"@.push(' ') + "VALUES"@)));
    text::split_of_two("marks(ts_ms,"@, ' ', "kind,"@.push(' ') + ("detail)"@.push(' ') + "VALUES"@));
    text::split_of_two("kind,"@, ' ', "detail)"@.push(' ') + "VALUES"@);
    text::split_of_two("detail)"@, ' ', "VALUES"@);
}

proof fn lemma_start_words_1()
    ensures
        text::split("(?1, 'share_start', ?2)"@, ' ') == seq!["(?1,"@, "'share_start',"@, "?2)"@],
{
    reveal_strlit("(?1, 'share_start', ?2)");
    reveal_strlit("(?1,");
    reveal_strlit("'share_start',");
    reveal_strlit("?2)");
    text::split_of_one("(?1,"@, ' ');
    text::split_of_one("'share_start',"@, ' ');
    text::split_of_one("?2)"@, ' ');
    assert("(?1, 'share_start', ?2)"@ =~= "(?1,"@.push(' ') + ("'share_start',"@.push(' ') + "?2)"@));
    text::split_of_two("(?1,"@, ' ', "'share_start',"@.push(' ') + "?2)"@);
    text::split_of_two("'share_start',"@, ' ', "?2)"@);
}

/// Whether a statement `SELECT .. FROM marks WHERE ts_ms sign placeholder AND
/// ts_ms sign placeholder ORDER ..` gives a mark with this time.
pub open spec fn gives_mark(s: StatementView, t: i64) -> bool {
    let words = text::split(s.sql, ' ');
    let time = Some(ValueView::Int(t));
    &&& words.len() > 14
    &&& words[4] == "FROM"@ && words[5] == "marks"@
    &&& words[6] == "WHERE"@ && words[7] == "ts_ms"@
    &&& compares(time, words[8], placeholder(words[9], s.params))
    &&& words[10] == "AND"@ && words[11] == "ts_ms"@
    &&& compares(time, words[12], placeholder(words[13], s.params))
    &&& words[14] == "ORDER"@
}

/// The marks that are asked for are those between the two times, the times
/// included: from zero on, where no first time is given, and to the last one,
/// where no last time is.
pub proof fn marks_between_the_times_are_given(from_ms: Option<i64>, to_ms: Option<i64>, t: i64)
    ensures
        gives_mark(mark_statement(from_ms, to_ms), t) <==> {
            &&& match from_ms {
                Some(from) => from <= t,
                None => 0 <= t,
            }
            &&& match to_ms {
                Some(to) => t <= to,
                None => true,
            }
        },
{
    let s = mark_statement(from_ms, to_ms);
    select_marks_words();
    lemma_placeholder(1, s.params);
    lemma_placeholder(2, s.params);
    reveal_strlit("?");
    reveal_strlit("?1");
    reveal_strlit("?2");
    assert(text::dec(1) =~= seq![text::digit_char(1)]);
    assert(text::dec(2) =~= seq![text::digit_char(2)]);
    assert("?1"@ =~= "?"@ + text::dec(1));
    assert("?2"@ =~= "?"@ + text::dec(2));
    reveal_strlit("=");
    reveal_strlit(">=");
    reveal_strlit("<=");
    assert(">="@[0] == '>' && "<="@[0] == '<' && "="@[0] == '=');
}

proof fn lemma_number_list(ids: Seq<i64>, parts: Seq<Seq<char>>)
    requires
        ids.len() > 0,
        parts.len() == ids.len(),
        forall|i: int| 0 <= i < ids.len() ==> #[trigger] parts[i] == text::signed(ids[i] as int),
    ensures
        number_list(ids) == text::join(parts, ','),
    decreases ids.len(),
{
    if ids.len() > 1 {
        let rest = parts.drop_last();
        lemma_number_list(ids.drop_last(), rest);
        let last = seq![parts.last()];
        text::join_of_two(rest, last, ',');
        assert(rest + last =~= parts);
        reveal_strlit(",");
        assert(number_list(ids) =~= text::join(rest, ',').push(',') + text::join(last, ','));
    }
}

proof fn lemma_signed_has_no(n: int, c: char)
    requires
        text::digit_value(c) is None,
        c != '-',
    ensures
        !text::signed(n).contains(c),
{
    if n < 0 {
        text::numeral_has_no((-n) as nat, 10, c);
        let d = text::dec((-n) as nat);
        let s = text::signed(n);
        if s.contains(c) {
            let i = choose|i: int| 0 <= i < s.len() && s[i] == c;
            assert(d[i - 1] == c);
        }
    } else {
        text::numeral_has_no(n as nat, 10, c);
    }
}

/// The sessions that are asked for are those whose numbers are given, each as
/// one of the numbers behind `IN`, or all; and the oldest comes first.
pub proof fn sessions_are_asked_for_by_number(ids: Seq<i64>)
    requires
        ids.len() > 0,
    ensures
        ({
            let words = text::split(session_statement(Some(ids)).sql, ' ');
            let list = words[11].drop_first().drop_last();
            &&& words.len() == 15
            &&& words.take(8) == text::split(SELECT_SESSIONS@, ' ')
            &&& words[8] == "WHERE"@ && words[9] == "id"@ && words[10] == "IN"@
            &&& words[11].len() > 1 && words[11][0] == '(' && words[11].last() == ')'
            &&& text::split(list, ',').len() == ids.len()
            &&& forall|i: int|
                0 <= i < ids.len() ==> #[trigger] text::split(list, ',')[i] == text::signed(
                    ids[i] as int,
                )
            &&& words[12] == "ORDER"@ && words[13] == "BY"@ && words[14] == "start_ms"@
        }),
        text::split(session_statement(None).sql, ' ') == text::split(SELECT_SESSIONS@, ' ') + seq![
            "ORDER"@,
            "BY"@,
            "start_ms"@,
        ],
{
    let parts = Seq::new(ids.len(), |i: int| text::signed(ids[i] as int));
    assert forall|i: int| 0 <= i < parts.len() implies !(#[trigger] parts[i]).contains(',')
        && !parts[i].contains(' ') by {
        lemma_signed_has_no(ids[i] as int, ',');
        lemma_signed_has_no(ids[i] as int, ' ');
    }
    lemma_number_list(ids, parts);
    text::split_of_join(parts, ',');
    text::join_has_no(parts, ',', ' ');
    let list = number_list(ids);
    let base = SELECT_SESSIONS@;
    select_sessions_words();
    let order = "ORDER BY start_ms"@;
    lemma_order_words();
    reveal_strlit(" ORDER BY start_ms");
    reveal_strlit("ORDER BY start_ms");
    reveal_strlit(" WHERE id IN (");
    reveal_strlit(")");
    reveal_strlit("WHERE");
    reveal_strlit("id");
    reveal_strlit("IN");
    let open = seq!['('] + list + seq![')'];
    assert(!open.contains(' ')) by {
        if open.contains(' ') {
            let i = choose|i: int| 0 <= i < open.len() && open[i] == ' ';
            assert(list[i - 1] == ' ');
        }
    }
    assert(open.drop_first().drop_last() =~= list);
    let t3 = open.push(' ') + order;
    let t2 = "IN"@.push(' ') + t3;
    let t1 = "id"@.push(' ') + t2;
    let t0 = "WHERE"@.push(' ') + t1;
    text::split_of_one("WHERE"@, ' ');
    text::split_of_one("id"@, ' ');
    text::split_of_one("IN"@, ' ');
    text::split_of_one(open, ' ');
    text::split_of_two(open, ' ', order);
    text::split_of_two("IN"@, ' ', t3);
    text::split_of_two("id"@, ' ', t2);
    text::split_of_two("WHERE"@, ' ', t1);
    text::split_of_two(base, ' ', t0);
    assert(session_statement(Some(ids)).sql =~= base.push(' ') + t0);
    let words = text::split(session_statement(Some(ids)).sql, ' ');
    assert(words =~= text::split(base, ' ') + seq!["WHERE"@, "id"@, "IN"@, open] + text::split(
        order,
        ' ',
    ));
    assert(words.take(8) =~= text::split(base, ' '));
    text::split_of_two(base, ' ', order);
    assert(session_statement(None).sql =~= base.push(' ') + order);
}

proof fn lemma_order_words()
    ensures
        text::split("ORDER BY start_ms"@, ' ') == seq!["ORDER"@, "BY"@, "start_ms"@],
{
    reveal_strlit("ORDER BY start_ms");
    reveal_strlit("ORDER");
    reveal_strlit("BY");
    reveal_strlit("start_ms");
    text::split_of_one("ORDER"@, ' ');
    text::split_of_one("BY"@, ' ');
    text::split_of_one("start_ms"@, ' ');
    let rest = "BY"@.push(' ') + "start_ms"@;
    assert("ORDER BY start_ms"@ =~= "ORDER"@.push(' ') + rest);
    text::split_of_two("BY"@, ' ', "start_ms"@);
    text::split_of_two("ORDER"@, ' ', rest);
}

/// Events are written down in their order: what an earlier part of a batch
/// needs is written before what the rest needs, and nothing else is written.
#[verifier::spinoff_prover]
pub proof fn events_are_written_in_order(
    a: Seq<Ev>,
    egress_a: Seq<Option<SocketAddr>>,
    b: Seq<Ev>,
    egress_b: Seq<Option<SocketAddr>>,
)
    requires
        a.len() == egress_a.len(),
        b.len() == egress_b.len(),
    ensures
        batch_written(a + b, egress_a + egress_b) == batch_written(a, egress_a) + batch_written(
            b,
            egress_b,
        ),
        a.len() == 0 ==> batch_written(a, egress_a).len() == 0,
        a.len() == 1 ==> batch_written(a, egress_a) == written(a[0], egress_a[0]),
    decreases b.len(),
{
    if a.len() == 1 {
        assert(batch_written(a.drop_last(), egress_a.drop_last()).len() == 0);
        assert(batch_written(a, egress_a) =~= written(a[0], egress_a[0]));
    }
    if b.len() == 0 {
        assert(a + b =~= a);
        assert(egress_a + egress_b =~= egress_a);
        assert(batch_written(a, egress_a) + batch_written(b, egress_b) =~= batch_written(
            a,
            egress_a,
        ));
    } else {
        events_are_written_in_order(a, egress_a, b.drop_last(), egress_b.drop_last());
        assert((a + b).drop_last() =~= a + b.drop_last());
        assert((egress_a + egress_b).drop_last() =~= egress_a + egress_b.drop_last());
        assert(batch_written(a + b, egress_a + egress_b) =~= batch_written(a, egress_a)
            + batch_written(b, egress_b));
    }
}

/// The number of a session or a flow is positive; it is the random number
/// without its last bit, and there is none only where nothing is left of it.
pub proof fn numbers_are_positive(random: u64)
    ensures
        id_from(random) is None <==> random < 2,
        id_from(random) matches Some(id) ==> id > 0 && 2 * id <= random <= 2 * id + 1,
{
}

/// Old records are looked for at the start and then every six hours.
pub proof fn old_records_are_looked_for(s: WriterState, mono: u64)
    ensures
        s.last_sweep is None ==> sweep_is_due(s, mono),
        s.last_sweep matches Some(t) ==> (sweep_is_due(s, mono) <==> mono >= t + 6 * 60 * 60 * 1000),
{
}

/// Whether a detail names a number: its name in quotes, a colon and the number,
/// up to the next comma or the end.
pub open spec fn names(detail: Seq<char>, name: Seq<char>, n: int, head: Seq<char>, tail: Seq<char>) -> bool {
    &&& detail == head + (seq!['"'] + name + seq!['"', ':']) + text::signed(n) + tail
    &&& head.len() > 0 && (head.last() == '{' || head.last() == ',')
    &&& tail.len() > 0 && (tail[0] == '}' || tail[0] == ',')
}

/// Whether a detail names a number somewhere.
pub open spec fn tells(detail: Seq<char>, name: Seq<char>, n: int) -> bool {
    exists|head: Seq<char>, tail: Seq<char>| #[trigger] names(detail, name, n, head, tail)
}

/// The mark on records that were left out tells the session, how many they
/// were, and from when to when.
pub proof fn throttle_mark_tells_what_was_left_out(session: i64, s: (i64, i64, u64))
    ensures
        tells(throttle_detail(session, s), "session"@, session as int),
        tells(throttle_detail(session, s), "suppressed"@, s.2 as int),
        tells(throttle_detail(session, s), "from_ms"@, s.0 as int),
        tells(throttle_detail(session, s), "to_ms"@, s.1 as int),
{
    let d = throttle_detail(session, s);
    reveal_strlit("{\"session\":");
    reveal_strlit(",\"suppressed\":");
    reveal_strlit(",\"from_ms\":");
    reveal_strlit(",\"to_ms\":");
    reveal_strlit("}");
    reveal_strlit("session");
    reveal_strlit("suppressed");
    reveal_strlit("from_ms");
    reveal_strlit("to_ms");
    let n0 = text::signed(session as int);
    let n1 = text::signed(s.2 as int);
    let n2 = text::signed(s.0 as int);
    let n3 = text::signed(s.1 as int);
    let h0 = seq!['{'];
    let k0 = seq!['"'] + "session"@ + seq!['"', ':'];
    let k1 = seq!['"'] + "suppressed"@ + seq!['"', ':'];
    let k2 = seq!['"'] + "from_ms"@ + seq!['"', ':'];
    let k3 = seq!['"'] + "to_ms"@ + seq!['"', ':'];
    assert("{\"session\":"@ =~= h0 + k0);
    assert(",\"suppressed\":"@ =~= seq![','] + k1);
    assert(",\"from_ms\":"@ =~= seq![','] + k2);
    assert(",\"to_ms\":"@ =~= seq![','] + k3);
    let t3 = "}"@;
    let t2 = seq![','] + k3 + n3 + t3;
    let t1 = seq![','] + k2 + n2 + t2;
    let t0 = seq![','] + k1 + n1 + t1;
    let h1 = (h0 + k0 + n0).push(',');
    let h2 = (h1 + k1 + n1).push(',');
    let h3 = (h2 + k2 + n2).push(',');
    assert(d =~= h0 + k0 + n0 + t0);
    assert(d =~= h1 + k1 + n1 + t1);
    assert(d =~= h2 + k2 + n2 + t2);
    assert(d =~= h3 + k3 + n3 + t3);
    assert(names(d, "session"@, session as int, h0, t0));
    assert(names(d, "suppressed"@, s.2 as int, h1, t1));
    assert(names(d, "from_ms"@, s.0 as int, h2, t2));
    assert(names(d, "to_ms"@, s.1 as int, h3, t3));
}

/// The mark on a clock that jumped tells by how much; the mark on events that
/// were dropped tells how many they were; and the mark on writing that failed
/// tells from when on.
pub proof fn marks_tell_their_numbers(drift: int, dropped: nat, since: i64)
    ensures
        tells(jump_detail(drift), "drift_ms"@, drift),
        tells(gap_detail(dropped), "dropped"@, dropped as int),
        tells(failure_detail(since), "from_ms"@, since as int),
{
    reveal_strlit("{\"drift_ms\":");
    reveal_strlit("{\"reason\":\"channel_full\",\"dropped\":");
    reveal_strlit("{\"reason\":\"write_error\",\"from_ms\":");
    reveal_strlit("}");
    reveal_strlit("drift_ms");
    reveal_strlit("dropped");
    reveal_strlit("from_ms");
    reveal_strlit("{\"reason\":\"channel_full\",");
    reveal_strlit("{\"reason\":\"write_error\",");
    let h0 = seq!['{'];
    let h1 = "{\"reason\":\"channel_full\","@;
    let h2 = "{\"reason\":\"write_error\","@;
    let a = jump_detail(drift);
    let b = gap_detail(dropped);
    let c = failure_detail(since);
    let end = "}"@;
    assert(a =~= h0 + (seq!['"'] + "drift_ms"@ + seq!['"', ':']) + text::signed(drift) + end);
    assert(b =~= h1 + (seq!['"'] + "dropped"@ + seq!['"', ':']) + text::signed(dropped as int)
        + end);
    assert(c =~= h2 + (seq!['"'] + "from_ms"@ + seq!['"', ':']) + text::signed(since as int) + end);
    assert(names(a, "drift_ms"@, drift, h0, end));
    assert(names(b, "dropped"@, dropped as int, h1, end));
    assert(names(c, "from_ms"@, since as int, h2, end));
}

/// Whether a statement puts a value under a key: the key in quotes, then the
/// placeholder.
pub open spec fn puts_under(
    s: StatementView,
    at: int,
    key: Seq<char>,
    value: ValueView,
    n: int,
) -> bool {
    let words = text::split(s.sql, ' ');
    let word = "?"@ + text::dec(n as nat);
    &&& 0 <= at < words.len() - 1
    &&& words[at] == seq!['(', '\''] + key + seq!['\'', ',']
    &&& words[at + 1] == word.push(')') || words[at + 1] == word + seq![')', ',']
    &&& 0 < n <= s.params.len()
    &&& s.params[n - 1] == value
}

/// A log that is opened holds the identity it belongs to and when it was made,
/// which stay as they were first written; the version of the software that
/// opened it last, which is replaced; and a mark with the time of the start.
pub proof fn opening_is_written_down(hex: Seq<char>, version: Seq<char>, now: i64)
    ensures
        ({
            let s = opening(hex, version, now);
            &&& s.len() == 3
            &&& text::split(s[0].sql, ' ')[2] == "IGNORE"@
            &&& puts_under(s[0], 9, "routing_key"@, ValueView::Text(hex), 2)
            &&& puts_under(s[0], 11, "created_ms"@, ValueView::Text(text::signed(now as int)), 3)
            &&& text::split(s[1].sql, ' ')[2] == "REPLACE"@
            &&& puts_under(s[1], 7, "software_version"@, ValueView::Text(version), 1)
            &&& puts(s[2], "ts_ms"@, ValueView::Int(now))
        }),
{
    let s = opening(hex, version, now);
    meta_words();
    software_words();
    start_words();
    lemma_more_bare_words();
    lemma_placeholder(1, s[2].params);
    assert(gives_column(s[2], "ts_ms"@, ValueView::Int(now), 2, 2, 5));
    reveal_strlit("?");
    reveal_strlit("?1)");
    reveal_strlit("?2),");
    reveal_strlit("?3)");
    reveal_strlit("('routing_key',");
    reveal_strlit("('created_ms',");
    reveal_strlit("('software_version',");
    reveal_strlit("routing_key");
    reveal_strlit("created_ms");
    reveal_strlit("software_version");
    assert(text::dec(1) =~= seq![text::digit_char(1)]);
    assert(text::dec(2) =~= seq![text::digit_char(2)]);
    assert(text::dec(3) =~= seq![text::digit_char(3)]);
    assert("?1)"@ =~= ("?"@ + text::dec(1)).push(')'));
    assert("?2),"@ =~= "?"@ + text::dec(2) + seq![')', ',']);
    assert("?3)"@ =~= ("?"@ + text::dec(3)).push(')'));
    assert("('routing_key',"@ =~= seq!['(', '\''] + "routing_key"@ + seq!['\'', ',']);
    assert("('created_ms',"@ =~= seq!['(', '\''] + "created_ms"@ + seq!['\'', ',']);
    assert("('software_version',"@ =~= seq!['(', '\''] + "software_version"@ + seq!['\'', ',']);
}

/// The rate limit starts with a full bucket that nothing was left out of; a rate
/// or a burst of zero counts as one, so that no limit keeps every record out.
pub proof fn limits_start_full(rate: u32, burst: u32)
    ensures
        ({
            let t = full_bucket(rate, burst);
            &&& t.rate_per_sec >= 1 && t.burst >= 1
            &&& t.rate_per_sec == 1 || t.rate_per_sec == rate
            &&& t.burst == 1 || t.burst == burst
            &&& rate > 0 ==> t.rate_per_sec == rate
            &&& burst > 0 ==> t.burst == burst
            &&& t.milli_tokens == t.burst * 1000
            &&& t.suppressed == 0
        }),
{
}

} // verus!
