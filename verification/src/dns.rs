//! The exit's DNS forwarder: clients resolve through the sharer's resolvers
//! without learning what those are.
//!
//! A client points its resolver at a fixed address inside the tunnel. The exit
//! forwards each query, byte for byte, to one of its upstreams. An upstream
//! that fails, or leaves three queries in a row unanswered, is skipped for a
//! while; once every configured upstream is out the fallback list answers.

use vstd::prelude::*;
use vstd::string::*;
use crate::addr;
use crate::addr::{IpAddr, SocketAddr};
use crate::text;

verus! {

/// The port of the address that clients resolve through.
pub const PROXY_PORT: u16 = 53;

/// How often the system's resolver list is read again, in milliseconds.
pub const REFRESH_INTERVAL: u64 = 30_000;

/// How many unanswered attempts in a row put an upstream out.
pub const STRIKES_TO_DEAD: u32 = 3;

/// How long an upstream that is out is skipped, in milliseconds.
pub const DEFAULT_QUARANTINE: u64 = 30_000;

/// How long one attempt waits for an answer, in milliseconds.
pub const DEFAULT_ATTEMPT_TIMEOUT: u64 = 2_000;

/// How many upstreams are tried for one query.
pub const MAX_ATTEMPTS: usize = 3;

/// The largest query and response that are carried, in bytes.
pub const MAX_DATAGRAM: usize = 4096;

/// How many upstreams are taken from the system's configuration.
pub const MAX_SYSTEM_RESOLVERS: usize = 8;

/// How many queries, or connections, may be in flight on a serving socket.
pub const MAX_INFLIGHT: usize = 256;

/// How long a TCP connection to an upstream may take, in milliseconds.
pub const TCP_CONNECT_TIMEOUT: u64 = 5_000;

/// The address that clients resolve through: 100.64.0.53.
pub open spec fn proxy_ip() -> Seq<u8> {
    seq![100u8, 64u8, 0u8, 53u8]
}

/// Whether an address is the one that clients resolve through, also where it
/// is written as a mapped IPv6 address.
pub open spec fn targets_proxy(a: SocketAddr) -> bool {
    a.port == PROXY_PORT && match a.ip {
        IpAddr::V4(o) => o@ == proxy_ip(),
        IpAddr::V6(g) => addr::is_mapped(g@) && addr::mapped_octets(g@) == proxy_ip(),
    }
}

/// The socket address that clients resolve through.
pub fn proxy_socket() -> (a: SocketAddr)
    ensures
        targets_proxy(a) && a.ip is V4 && a.scope == 0,
{
    let o: [u8; 4] = [100, 64, 0, 53];
    assert(o@ =~= proxy_ip());
    SocketAddr::new(IpAddr::V4(o), PROXY_PORT)
}

/// Whether a destination is the address that clients resolve through.
pub fn is_proxy_target(a: SocketAddr) -> (r: bool)
    ensures
        r == targets_proxy(a),
{
    if a.port != PROXY_PORT {
        return false;
    }
    match a.ip {
        IpAddr::V4(o) => {
            let r: bool = o[0] == 100 && o[1] == 64 && o[2] == 0 && o[3] == 53;
            assert(r ==> o@ =~= proxy_ip());
            r
        },
        IpAddr::V6(g) => {
            let r: bool = g[0] == 0 && g[1] == 0 && g[2] == 0 && g[3] == 0 && g[4] == 0 && g[5]
                == 0xffff && g[6] == 0x6440 && g[7] == 0x0035;
            proof {
                let o = addr::mapped_octets(g@);
                if r {
                    assert(o =~= proxy_ip());
                }
                if addr::is_mapped(g@) && o == proxy_ip() {
                    assert(o[0] == 100 && o[1] == 64 && o[2] == 0 && o[3] == 53);
                }
            }
            r
        },
    }
}

/// The public resolvers that answer when no upstream is known or none does.
pub fn public_fallback() -> (v: Vec<SocketAddr>)
    ensures
        v.len() == 2,
        v@[0].port == 53 && v@[0].scope == 0 && v@[0].ip == IpAddr::V4([8u8, 8u8, 8u8, 8u8]),
        v@[1].port == 53 && v@[1].scope == 0 && v@[1].ip == IpAddr::V4([1u8, 1u8, 1u8, 1u8]),
{
    vec![
        SocketAddr::new(IpAddr::V4([8u8, 8u8, 8u8, 8u8]), 53),
        SocketAddr::new(IpAddr::V4([1u8, 1u8, 1u8, 1u8]), 53),
    ]
}

/// Where the forwarder sends queries: to the system's own resolvers, or to a
/// list in preference order.
#[derive(Debug, PartialEq, Eq)]
pub enum DnsUpstream {
    System,
    Servers(Vec<SocketAddr>),
}

impl DnsUpstream {
    /// The list, or `None` for the system's own resolvers.
    pub open spec fn view(&self) -> Option<Seq<SocketAddr>> {
        match self {
            DnsUpstream::System => None,
            DnsUpstream::Servers(v) => Some(v@),
        }
    }
}

/// An upstream and its health: how many attempts in a row it has left
/// unanswered, and since when it is skipped, if it is.
#[derive(Debug, Clone, Copy, PartialEq, Eq)]
pub struct Upstream {
    pub addr: SocketAddr,
    pub strikes: u32,
    pub dead_since: Option<u64>,
}

/// An upstream of which nothing bad is known.
pub open spec fn healthy(a: SocketAddr) -> Upstream {
    Upstream { addr: a, strikes: 0, dead_since: None }
}

/// The addresses of upstreams.
pub open spec fn addrs_of(us: Seq<Upstream>) -> Seq<SocketAddr> {
    Seq::new(us.len(), |i: int| us[i].addr)
}

/// Whether a list holds an address.
fn has_addr(v: &[SocketAddr], a: &SocketAddr) -> (r: bool)
    ensures
        r == v@.contains(*a),
{
    let mut i: usize = 0;
    while i < v.len()
        invariant
            i <= v.len(),
            forall|j: int| 0 <= j < i ==> v@[j] != *a,
        decreases v.len() - i,
    {
        if v[i].same(a) {
            assert(v@[i as int] == *a);
            return true;
        }
        i = i + 1;
    }
    false
}

/// A list without repetitions: of equal addresses the first stays.
pub open spec fn without_repeats(v: Seq<SocketAddr>) -> Seq<SocketAddr>
    decreases v.len(),
{
    if v.len() == 0 {
        v
    } else {
        let before = without_repeats(v.drop_last());
        if before.contains(v.last()) {
            before
        } else {
            before.push(v.last())
        }
    }
}

fn dedup(v: &Vec<SocketAddr>) -> (out: Vec<SocketAddr>)
    ensures
        out@ == without_repeats(v@),
{
    let mut out: Vec<SocketAddr> = Vec::new();
    let mut i: usize = 0;
    while i < v.len()
        invariant
            i <= v.len(),
            out@ == without_repeats(v@.take(i as int)),
        decreases v.len() - i,
    {
        assert(v@.take(i + 1).drop_last() =~= v@.take(i as int));
        if !has_addr(&out, &v[i]) {
            out.push(v[i]);
        }
        i = i + 1;
    }
    assert(v@.take(i as int) =~= v@);
    out
}

/// The place of the first upstream at or after `from` with an address, or the
/// length.
pub open spec fn place_of(us: Seq<Upstream>, a: SocketAddr, from: int) -> int
    decreases us.len() - from,
{
    if from >= us.len() {
        us.len() as int
    } else if us[from].addr == a {
        from
    } else {
        place_of(us, a, from + 1)
    }
}

/// Upstreams for a list of addresses, with the health of those that were there
/// before.
pub open spec fn with_health(list: Seq<SocketAddr>, old: Seq<Upstream>) -> Seq<Upstream> {
    Seq::new(
        list.len(),
        |i: int|
            if place_of(old, list[i], 0) < old.len() {
                old[place_of(old, list[i], 0)]
            } else {
                healthy(list[i])
            },
    )
}

/// `a - b`, or zero where that would be less.
pub open spec fn elapsed(a: u64, b: u64) -> nat {
    if a >= b {
        (a - b) as nat
    } else {
        0
    }
}

/// An upstream at `now`: one that has been skipped long enough is healthy
/// again.
pub open spec fn revived(u: Upstream, now: u64, quarantine: u64) -> Upstream {
    match u.dead_since {
        Some(since) => if elapsed(now, since) >= quarantine {
            healthy(u.addr)
        } else {
            u
        },
        None => u,
    }
}

/// Upstreams at `now`.
pub open spec fn all_revived(us: Seq<Upstream>, now: u64, quarantine: u64) -> Seq<Upstream> {
    Seq::new(us.len(), |i: int| revived(us[i], now, quarantine))
}

/// The place of the first upstream at or after `from` that is not skipped and
/// has not been tried, or the length.
pub open spec fn first_live(us: Seq<Upstream>, tried: Seq<SocketAddr>, from: int) -> int
    decreases us.len() - from,
{
    if from >= us.len() {
        us.len() as int
    } else if us[from].dead_since is None && !tried.contains(us[from].addr) {
        from
    } else {
        first_live(us, tried, from + 1)
    }
}

/// The place of the upstream among the first `n` that has been skipped the
/// longest and has not been tried, or `-1`; the first if several are equal.
pub open spec fn longest_dead(us: Seq<Upstream>, tried: Seq<SocketAddr>, n: int) -> int
    decreases n,
{
    if n <= 0 {
        -1
    } else {
        let before = longest_dead(us, tried, n - 1);
        if tried.contains(us[n - 1].addr) {
            before
        } else if before < 0 || died_before(us[n - 1].dead_since, us[before].dead_since) {
            n - 1
        } else {
            before
        }
    }
}

/// Whether one time of death is before another; an upstream that is alive
/// comes before all.
pub open spec fn died_before(a: Option<u64>, b: Option<u64>) -> bool {
    match (a, b) {
        (None, Some(_)) => true,
        (Some(x), Some(y)) => x < y,
        _ => false,
    }
}

/// The upstream to try next: the first that is live, else the one that has
/// been skipped the longest, else none.
pub open spec fn picked(us: Seq<Upstream>, tried: Seq<SocketAddr>) -> Option<SocketAddr> {
    let live = first_live(us, tried, 0);
    let dead = longest_dead(us, tried, us.len() as int);
    if live < us.len() {
        Some(us[live].addr)
    } else if dead >= 0 {
        Some(us[dead].addr)
    } else {
        None
    }
}

/// What a forwarder holds.
#[verifier::ext_equal]
pub struct ForwarderParts {
    pub mode: Option<Seq<SocketAddr>>,
    pub servers: Seq<Upstream>,
    pub fallback: Seq<Upstream>,
    pub refreshed: Option<u64>,
    pub quarantine: u64,
    pub attempt_timeout: u64,
}

/// An upstream that left one more attempt unanswered at `now`.
pub open spec fn struck(u: Upstream, now: u64) -> Upstream {
    if u.dead_since is Some {
        u
    } else {
        let strikes = (u.strikes + 1) as u32;
        Upstream {
            strikes,
            dead_since: if strikes >= STRIKES_TO_DEAD {
                Some(now)
            } else {
                None
            },
            ..u
        }
    }
}

/// An upstream that could not be reached at `now`.
pub open spec fn unreachable(u: Upstream, now: u64) -> Upstream {
    if u.dead_since is Some {
        u
    } else {
        Upstream { strikes: 0, dead_since: Some(now), ..u }
    }
}

/// How an attempt on an upstream ended.
#[derive(Debug, Clone, Copy, PartialEq, Eq, Structural)]
pub enum Heard {
    /// An answer came.
    Answered,
    /// Nothing came in time.
    TimedOut,
    /// It could not be reached.
    Failed,
}

/// An upstream after an attempt on it ended at `now`.
pub open spec fn after(u: Upstream, heard: Heard, now: u64) -> Upstream {
    match heard {
        Heard::Answered => healthy(u.addr),
        Heard::TimedOut => struck(u, now),
        Heard::Failed => unreachable(u, now),
    }
}

/// Upstreams after an attempt on an address ended at `now`: each one that has
/// the address has changed, and no other.
pub open spec fn all_after(us: Seq<Upstream>, a: SocketAddr, heard: Heard, now: u64) -> Seq<
    Upstream,
> {
    Seq::new(
        us.len(),
        |i: int|
            if us[i].addr == a {
                after(us[i], heard, now)
            } else {
                us[i]
            },
    )
}

/// A forwarder after an attempt on an address ended at `now`. An address can be
/// among the configured upstreams and in the fallback list: it is the same
/// upstream, and what is heard of it counts in both.
pub open spec fn with_upstream(
    f: ForwarderParts,
    a: SocketAddr,
    heard: Heard,
    now: u64,
) -> ForwarderParts {
    ForwarderParts {
        servers: all_after(f.servers, a, heard, now),
        fallback: all_after(f.fallback, a, heard, now),
        ..f
    }
}

/// Whether every upstream that is not skipped has strikes to spare.
pub open spec fn health_ok(us: Seq<Upstream>) -> bool {
    forall|i: int|
        0 <= i < us.len() && (#[trigger] us[i]).dead_since is None ==> us[i].strikes
            < STRIKES_TO_DEAD
}

/// The addresses of upstreams.
fn addrs(us: &Vec<Upstream>) -> (v: Vec<SocketAddr>)
    ensures
        v@ == addrs_of(us@),
{
    let mut v: Vec<SocketAddr> = Vec::new();
    let mut i: usize = 0;
    while i < us.len()
        invariant
            i <= us.len(),
            v@ == addrs_of(us@).take(i as int),
        decreases us.len() - i,
    {
        v.push(us[i].addr);
        i = i + 1;
    }
    v
}

/// The place of the first upstream with an address, or the length.
fn find(us: &Vec<Upstream>, a: &SocketAddr) -> (at: usize)
    ensures
        at == place_of(us@, *a, 0),
        at < us.len() ==> us@[at as int].addr == *a,
{
    let mut i: usize = 0;
    while i < us.len()
        invariant
            i <= us.len(),
            place_of(us@, *a, 0) == place_of(us@, *a, i as int),
        decreases us.len() - i,
    {
        if us[i].addr.same(a) {
            return i;
        }
        i = i + 1;
    }
    i
}

/// Upstreams for a list of addresses, with the health of those that were there
/// before.
fn keep_health(list: &Vec<SocketAddr>, before: &Vec<Upstream>) -> (us: Vec<Upstream>)
    ensures
        us@ == with_health(list@, before@),
        health_ok(before@) ==> health_ok(us@),
        addrs_of(us@) == list@,
{
    let mut us: Vec<Upstream> = Vec::new();
    let mut i: usize = 0;
    while i < list.len()
        invariant
            i <= list.len(),
            us@ == with_health(list@, before@).take(i as int),
            forall|j: int| 0 <= j < us.len() ==> (#[trigger] us@[j]).addr == list@[j],
            health_ok(before@) ==> health_ok(us@),
        decreases list.len() - i,
    {
        let at = find(before, &list[i]);
        if at < before.len() {
            us.push(before[at]);
        } else {
            us.push(Upstream { addr: list[i], strikes: 0, dead_since: None });
        }
        i = i + 1;
    }
    assert(addrs_of(us@) =~= list@);
    us
}

/// Revives each upstream that has been skipped long enough at `now`.
fn revive(us: &mut Vec<Upstream>, now: u64, quarantine: u64)
    ensures
        final(us)@ == all_revived(old(us)@, now, quarantine),
        health_ok(old(us)@) ==> health_ok(final(us)@),
{
    let ghost before = us@;
    let mut i: usize = 0;
    while i < us.len()
        invariant
            i <= us.len() == before.len(),
            forall|j: int| 0 <= j < i ==> #[trigger] us@[j] == revived(before[j], now, quarantine),
            forall|j: int| i <= j < us.len() ==> #[trigger] us@[j] == before[j],
        decreases us.len() - i,
    {
        let u = us[i];
        if let Some(since) = u.dead_since {
            let gone: u64 = if now >= since {
                now - since
            } else {
                0
            };
            if gone >= quarantine {
                us.set(i, Upstream { addr: u.addr, strikes: 0, dead_since: None });
            }
        }
        i = i + 1;
    }
    assert(us@ =~= all_revived(before, now, quarantine));
}

/// Upstream selection and health of the exit's DNS forwarder.
pub struct DnsForwarder {
    mode: DnsUpstream,
    servers: Vec<Upstream>,
    fallback: Vec<Upstream>,
    refreshed: Option<u64>,
    quarantine: u64,
    attempt_timeout: u64,
}

/// What a new forwarder holds.
pub open spec fn new_forwarder(
    mode: Option<Seq<SocketAddr>>,
    fallback: Seq<SocketAddr>,
) -> ForwarderParts {
    ForwarderParts {
        mode,
        servers: with_health(
            match mode {
                None => Seq::empty(),
                Some(list) => without_repeats(list),
            },
            Seq::empty(),
        ),
        fallback: with_health(without_repeats(fallback), Seq::empty()),
        refreshed: None,
        quarantine: DEFAULT_QUARANTINE,
        attempt_timeout: DEFAULT_ATTEMPT_TIMEOUT,
    }
}

/// A forwarder after `set_servers`: an empty list means that the system's
/// resolvers are to be read again.
pub open spec fn with_servers(f: ForwarderParts, list: Seq<SocketAddr>) -> ForwarderParts {
    if list.len() == 0 {
        ForwarderParts { mode: None, refreshed: None, ..f }
    } else {
        ForwarderParts {
            mode: Some(without_repeats(list)),
            servers: with_health(without_repeats(list), f.servers),
            ..f
        }
    }
}

/// Whether the system's resolver list is to be read at `now`.
pub open spec fn stale(f: ForwarderParts, now: u64) -> bool {
    f.mode is None && match f.refreshed {
        Some(at) => elapsed(now, at) >= REFRESH_INTERVAL,
        None => true,
    }
}

/// A forwarder at `now`, where `found` is the system's resolver list.
pub open spec fn refreshed(f: ForwarderParts, now: u64, found: Seq<SocketAddr>) -> ForwarderParts {
    if stale(f, now) {
        ForwarderParts {
            refreshed: Some(now),
            servers: if found == addrs_of(f.servers) {
                f.servers
            } else {
                with_health(found, f.servers)
            },
            ..f
        }
    } else {
        f
    }
}

impl DnsForwarder {
    /// What the forwarder holds.
    pub closed spec fn view(&self) -> ForwarderParts {
        ForwarderParts {
            mode: self.mode.view(),
            servers: self.servers@,
            fallback: self.fallback@,
            refreshed: self.refreshed,
            quarantine: self.quarantine,
            attempt_timeout: self.attempt_timeout,
        }
    }

    /// Whether every upstream that is in use has strikes to spare.
    pub open spec fn wf(&self) -> bool {
        health_ok(self@.servers) && health_ok(self@.fallback)
    }

    /// A forwarder with the public fallback list.
    pub fn new(mode: DnsUpstream) -> (f: DnsForwarder)
        ensures
            f.wf(),
            f@ == new_forwarder(
                mode.view(),
                seq![
                    SocketAddr { ip: IpAddr::V4([8u8, 8u8, 8u8, 8u8]), port: 53, scope: 0 },
                    SocketAddr { ip: IpAddr::V4([1u8, 1u8, 1u8, 1u8]), port: 53, scope: 0 },
                ],
            ),
    {
        let fallback = public_fallback();
        assert(fallback@ =~= seq![
            SocketAddr { ip: IpAddr::V4([8u8, 8u8, 8u8, 8u8]), port: 53, scope: 0 },
            SocketAddr { ip: IpAddr::V4([1u8, 1u8, 1u8, 1u8]), port: 53, scope: 0 },
        ]);
        DnsForwarder::with_fallback(mode, fallback)
    }

    /// The default: the system's resolvers, with the public fallback list.
    pub fn system() -> (f: DnsForwarder)
        ensures
            f.wf(),
            f@ == new_forwarder(
                None,
                seq![
                    SocketAddr { ip: IpAddr::V4([8u8, 8u8, 8u8, 8u8]), port: 53, scope: 0 },
                    SocketAddr { ip: IpAddr::V4([1u8, 1u8, 1u8, 1u8]), port: 53, scope: 0 },
                ],
            ),
    {
        DnsForwarder::new(DnsUpstream::System)
    }

    /// A forwarder with a fallback list of its own. With an empty one a query
    /// goes unanswered once every upstream is out.
    pub fn with_fallback(mode: DnsUpstream, fallback: Vec<SocketAddr>) -> (f: DnsForwarder)
        ensures
            f.wf(),
            f@ == new_forwarder(mode.view(), fallback@),
    {
        let none: Vec<Upstream> = Vec::new();
        let list = match &mode {
            DnsUpstream::System => Vec::new(),
            DnsUpstream::Servers(list) => dedup(list),
        };
        assert(none@ =~= Seq::<Upstream>::empty());
        assert(mode is System ==> list@ =~= Seq::<SocketAddr>::empty());
        DnsForwarder {
            servers: keep_health(&list, &none),
            mode,
            fallback: keep_health(&dedup(&fallback), &none),
            refreshed: None,
            quarantine: DEFAULT_QUARANTINE,
            attempt_timeout: DEFAULT_ATTEMPT_TIMEOUT,
        }
    }

    /// Replaces the upstream list. An upstream that stays in the list keeps its
    /// health. An empty list means that the system's resolvers are to be used,
    /// and read again.
    pub fn set_servers(&mut self, servers: Vec<SocketAddr>)
        requires
            old(self).wf(),
        ensures
            final(self).wf(),
            final(self)@ == with_servers(old(self)@, servers@),
    {
        if servers.len() == 0 {
            self.mode = DnsUpstream::System;
            self.refreshed = None;
        } else {
            let list = dedup(&servers);
            self.servers = keep_health(&list, &self.servers);
            self.mode = DnsUpstream::Servers(list);
        }
    }

    /// Where queries are sent.
    pub fn mode(&self) -> (m: DnsUpstream)
        ensures
            m.view() == self@.mode,
    {
        match &self.mode {
            DnsUpstream::System => DnsUpstream::System,
            DnsUpstream::Servers(list) => DnsUpstream::Servers(copy_addrs(list)),
        }
    }

    /// The upstreams, in preference order.
    pub fn upstreams(&self) -> (v: Vec<SocketAddr>)
        ensures
            v@ == addrs_of(self@.servers),
    {
        addrs(&self.servers)
    }

    /// The fallback list.
    pub fn fallback(&self) -> (v: Vec<SocketAddr>)
        ensures
            v@ == addrs_of(self@.fallback),
    {
        addrs(&self.fallback)
    }

    /// Sets how long an attempt waits for an answer, in milliseconds.
    pub fn set_attempt_timeout(&mut self, timeout: u64)
        ensures
            final(self)@ == (ForwarderParts { attempt_timeout: timeout, ..old(self)@ }),
    {
        self.attempt_timeout = timeout;
    }

    /// Sets how long an upstream that is out is skipped, in milliseconds.
    pub fn set_quarantine(&mut self, quarantine: u64)
        ensures
            final(self)@ == (ForwarderParts { quarantine, ..old(self)@ }),
    {
        self.quarantine = quarantine;
    }

    /// How long an attempt waits for an answer, in milliseconds.
    pub fn attempt_timeout(&self) -> (t: u64)
        ensures
            t == self@.attempt_timeout,
    {
        self.attempt_timeout
    }

    /// Whether the system's resolver list is to be read again at `now`.
    pub fn is_stale(&self, now: u64) -> (r: bool)
        ensures
            r == stale(self@, now),
    {
        match &self.mode {
            DnsUpstream::System => match self.refreshed {
                Some(at) => now >= at && now - at >= REFRESH_INTERVAL,
                None => true,
            },
            DnsUpstream::Servers(_) => false,
        }
    }

    /// Takes over the system's resolver list where it was to be read again. An
    /// upstream that stays in the list keeps its health.
    pub fn refresh(&mut self, now: u64, found: Vec<SocketAddr>)
        requires
            old(self).wf(),
        ensures
            final(self).wf(),
            final(self)@ == refreshed(old(self)@, now, found@),
    {
        if !self.is_stale(now) {
            return;
        }
        self.refreshed = Some(now);
        let current = addrs(&self.servers);
        if !same_addrs(&found, &current) {
            self.servers = keep_health(&found, &self.servers);
        }
    }

    /// The upstream to try next at `now`, after those in `tried`: the first
    /// configured one that is not skipped, else the first such fallback, else
    /// the one that has been skipped the longest. `None` if nothing is left.
    pub fn pick_at(&mut self, now: u64, tried: &Vec<SocketAddr>) -> (r: Option<SocketAddr>)
        requires
            old(self).wf(),
        ensures
            final(self).wf(),
            final(self)@ == (ForwarderParts {
                servers: all_revived(old(self)@.servers, now, old(self)@.quarantine),
                fallback: all_revived(old(self)@.fallback, now, old(self)@.quarantine),
                ..old(self)@
            }),
            r == picked(final(self)@.servers + final(self)@.fallback, tried@),
    {
        revive(&mut self.servers, now, self.quarantine);
        revive(&mut self.fallback, now, self.quarantine);
        let ghost us = self.servers@ + self.fallback@;
        let mut live: Option<SocketAddr> = None;
        let mut dead: Option<(SocketAddr, Option<u64>)> = None;
        let mut i: usize = 0;
        let n: usize = self.servers.len();
        let m: usize = self.fallback.len();
        while i < n
            invariant
                us == self.servers@ + self.fallback@,
                n == self.servers@.len(),
                i <= n,
                scanned(us, tried@, i as int, live, dead),
            decreases n - i,
        {
            assert(us[i as int] == self.servers@[i as int]);
            scan(Ghost(us), Ghost(i as int), &self.servers[i], tried, &mut live, &mut dead);
            i = i + 1;
        }
        i = 0;
        while i < m
            invariant
                us == self.servers@ + self.fallback@,
                n == self.servers@.len(),
                m == self.fallback@.len(),
                i <= m,
                scanned(us, tried@, n + i, live, dead),
            decreases m - i,
        {
            assert(us[n + i] == self.fallback@[i as int]);
            scan(Ghost(us), Ghost(n + i), &self.fallback[i], tried, &mut live, &mut dead);
            i = i + 1;
        }
        if live.is_some() {
            live
        } else {
            match dead {
                Some(d) => Some(d.0),
                None => None,
            }
        }
    }

    /// An upstream answered: nothing bad is known of it any more, wherever it
    /// is listed.
    pub fn answered(&mut self, a: SocketAddr)
        requires
            old(self).wf(),
        ensures
            final(self).wf(),
            final(self)@ == with_upstream(old(self)@, a, Heard::Answered, 0),
    {
        note(&mut self.servers, &a, Heard::Answered, 0);
        note(&mut self.fallback, &a, Heard::Answered, 0);
    }

    /// An attempt got no answer in time; the third in a row puts the upstream
    /// out, wherever it is listed.
    pub fn timed_out_at(&mut self, now: u64, a: SocketAddr)
        requires
            old(self).wf(),
        ensures
            final(self).wf(),
            final(self)@ == with_upstream(old(self)@, a, Heard::TimedOut, now),
    {
        note(&mut self.servers, &a, Heard::TimedOut, now);
        note(&mut self.fallback, &a, Heard::TimedOut, now);
    }

    /// An upstream cannot be reached: it is out at once, wherever it is listed.
    pub fn failed_at(&mut self, now: u64, a: SocketAddr)
        requires
            old(self).wf(),
        ensures
            final(self).wf(),
            final(self)@ == with_upstream(old(self)@, a, Heard::Failed, now),
    {
        note(&mut self.servers, &a, Heard::Failed, now);
        note(&mut self.fallback, &a, Heard::Failed, now);
    }
}

/// Notes how an attempt on an address ended, at each upstream that has it.
fn note(us: &mut Vec<Upstream>, a: &SocketAddr, heard: Heard, now: u64)
    requires
        health_ok(old(us)@),
    ensures
        final(us)@ == all_after(old(us)@, *a, heard, now),
        health_ok(final(us)@),
{
    let ghost before = us@;
    let mut i: usize = 0;
    while i < us.len()
        invariant
            i <= us.len() == before.len(),
            health_ok(before),
            health_ok(us@),
            forall|j: int| 0 <= j < i ==> us@[j] == all_after(before, *a, heard, now)[j],
            forall|j: int| i <= j < before.len() ==> us@[j] == before[j],
        decreases us.len() - i,
    {
        assert(us@[i as int] == before[i as int]);
        if us[i].addr.same(a) {
            let u = match heard {
                Heard::Answered => Upstream { addr: us[i].addr, strikes: 0, dead_since: None },
                Heard::TimedOut => struck_upstream(&us[i], now),
                Heard::Failed => unreachable_upstream(&us[i], now),
            };
            us.set(i, u);
        }
        i = i + 1;
    }
    assert(us@ =~= all_after(before, *a, heard, now));
}

fn struck_upstream(u: &Upstream, now: u64) -> (r: Upstream)
    requires
        u.dead_since is None ==> u.strikes < STRIKES_TO_DEAD,
    ensures
        r == struck(*u, now),
{
    if u.dead_since.is_some() {
        return *u;
    }
    let strikes: u32 = u.strikes + 1;
    let dead_since = if strikes >= STRIKES_TO_DEAD {
        Some(now)
    } else {
        None
    };
    Upstream { addr: u.addr, strikes, dead_since }
}

fn unreachable_upstream(u: &Upstream, now: u64) -> (r: Upstream)
    ensures
        r == unreachable(*u, now),
{
    if u.dead_since.is_some() {
        return *u;
    }
    Upstream { addr: u.addr, strikes: 0, dead_since: Some(now) }
}

fn copy_addrs(v: &Vec<SocketAddr>) -> (out: Vec<SocketAddr>)
    ensures
        out@ == v@,
{
    let mut out: Vec<SocketAddr> = Vec::new();
    let mut i: usize = 0;
    while i < v.len()
        invariant
            i <= v.len(),
            out@ == v@.take(i as int),
        decreases v.len() - i,
    {
        out.push(v[i]);
        i = i + 1;
    }
    out
}

fn same_addrs(a: &Vec<SocketAddr>, b: &Vec<SocketAddr>) -> (r: bool)
    ensures
        r == (a@ == b@),
{
    if a.len() != b.len() {
        return false;
    }
    let mut i: usize = 0;
    while i < a.len()
        invariant
            i <= a.len() == b.len(),
            forall|j: int| 0 <= j < i ==> a@[j] == b@[j],
        decreases a.len() - i,
    {
        if !a[i].same(&b[i]) {
            assert(a@[i as int] != b@[i as int]);
            return false;
        }
        i = i + 1;
    }
    assert(a@ =~= b@);
    true
}

/// What the walk over the first `n` upstreams has found: the first that can be
/// tried and is not skipped, and the one that has been skipped the longest.
spec fn scanned(
    us: Seq<Upstream>,
    tried: Seq<SocketAddr>,
    n: int,
    live: Option<SocketAddr>,
    dead: Option<(SocketAddr, Option<u64>)>,
) -> bool {
    let at = longest_dead(us, tried, n);
    &&& match live {
        Some(a) => first_live(us, tried, 0) < n && a == us[first_live(us, tried, 0)].addr,
        None => first_live(us, tried, 0) == first_live(us, tried, n),
    }
    &&& -1 <= at < n
    &&& match dead {
        Some(d) => at >= 0 && d == (us[at].addr, us[at].dead_since),
        None => at < 0,
    }
}

fn scan(
    Ghost(us): Ghost<Seq<Upstream>>,
    Ghost(n): Ghost<int>,
    u: &Upstream,
    tried: &Vec<SocketAddr>,
    live: &mut Option<SocketAddr>,
    dead: &mut Option<(SocketAddr, Option<u64>)>,
)
    requires
        0 <= n < us.len(),
        us[n] == *u,
        scanned(us, tried@, n, *old(live), *old(dead)),
    ensures
        scanned(us, tried@, n + 1, *final(live), *final(dead)),
{
    if has_addr(tried, &u.addr) {
        return;
    }
    if live.is_none() && u.dead_since.is_none() {
        *live = Some(u.addr);
    }
    let longer: bool = match *dead {
        Some(d) => match (u.dead_since, d.1) {
            (None, Some(_)) => true,
            (Some(x), Some(y)) => x < y,
            _ => false,
        },
        None => true,
    };
    if longer {
        *dead = Some((u.addr, u.dead_since));
    }
}

/// A line up to its comment.
pub open spec fn without_comment(line: Seq<char>) -> Seq<char> {
    let a = text::place_of(line, '#', 0);
    let b = text::place_of(line, ';', 0);
    line.take(
        if a < b {
            a
        } else {
            b
        },
    )
}

/// The names and indices of network interfaces.
pub open spec fn interface_table(v: Seq<(String, u32)>) -> Seq<(Seq<char>, u32)> {
    Seq::new(v.len(), |i: int| (v[i].0@, v[i].1))
}

/// The index of the first interface with a name; index zero stands for none.
pub open spec fn index_in(table: Seq<(Seq<char>, u32)>, name: Seq<char>) -> Option<u32>
    decreases table.len(),
{
    if table.len() == 0 {
        None
    } else if table[0].0 == name {
        if table[0].1 != 0 {
            Some(table[0].1)
        } else {
            None
        }
    } else {
        index_in(table.skip(1), name)
    }
}

/// Whether an IPv6 address is link-local.
pub open spec fn is_link_local(g: Seq<u16>) -> bool {
    0xfe80 <= g[0] <= 0xfebf
}

/// The scope that is written behind the `%` of an address: a number, or the
/// name of an interface.
pub open spec fn scope_in(s: Seq<char>, table: Seq<(Seq<char>, u32)>) -> Option<u32> {
    match text::u32_in(s) {
        Some(n) => Some(n as u32),
        None => index_in(table, s),
    }
}

/// The resolver that a word names. A link-local address without a scope cannot
/// be reached and is none.
pub open spec fn nameserver_in(word: Seq<char>, table: Seq<(Seq<char>, u32)>) -> Option<
    SocketAddr,
> {
    let at = text::place_of(word, '%', 0);
    let scope = if at < word.len() {
        scope_in(word.skip(at + 1), table)
    } else {
        Some(0u32)
    };
    match addr::v4_in(word) {
        Some(o) => Some(SocketAddr { ip: IpAddr::V4(addr::octets(o)), port: 53, scope: 0 }),
        None => match (addr::v6_in(word.take(at)), scope) {
            (Some(g), Some(id)) => if id == 0 && is_link_local(g) {
                None
            } else {
                Some(SocketAddr { ip: IpAddr::V6(addr::groups(g)), port: 53, scope: id })
            },
            _ => None,
        },
    }
}

/// The resolver that a line of a resolv.conf names.
pub open spec fn resolver_in(line: Seq<char>, table: Seq<(Seq<char>, u32)>) -> Option<SocketAddr> {
    let first = text::first_word(without_comment(line));
    let second = text::first_word(first.1);
    if first.0 == "nameserver"@ && second.0.len() > 0 {
        nameserver_in(second.0, table)
    } else {
        None
    }
}

/// The resolvers that lines name, in order, each once, and at most eight.
pub open spec fn resolvers_in(lines: Seq<Seq<char>>, table: Seq<(Seq<char>, u32)>) -> Seq<
    SocketAddr,
>
    decreases lines.len(),
{
    if lines.len() == 0 {
        Seq::empty()
    } else {
        let before = resolvers_in(lines.drop_last(), table);
        match resolver_in(lines.last(), table) {
            Some(a) => if before.len() < MAX_SYSTEM_RESOLVERS && !before.contains(a) {
                before.push(a)
            } else {
                before
            },
            None => before,
        }
    }
}

/// The index of a network interface, from a table of names and indices.
pub fn interface_index(table: &Vec<(String, u32)>, name: &str) -> (r: Option<u32>)
    ensures
        r == index_in(interface_table(table@), name@),
{
    let ghost all = interface_table(table@);
    assert(all.skip(0) =~= all);
    let mut i: usize = 0;
    while i < table.len()
        invariant
            i <= table.len(),
            all == interface_table(table@),
            index_in(all, name@) == index_in(all.skip(i as int), name@),
        decreases table.len() - i,
    {
        assert(all.skip(i as int)[0] == all[i as int]);
        assert(all.skip(i as int).skip(1) =~= all.skip(i + 1));
        if text::same_text(table[i].0.as_str(), name) {
            if table[i].1 != 0 {
                return Some(table[i].1);
            }
            return None;
        }
        i = i + 1;
    }
    None
}

/// The resolver that a word names.
pub fn parse_nameserver(word: &Vec<char>, table: &Vec<(String, u32)>) -> (r: Option<SocketAddr>)
    ensures
        r == nameserver_in(word@, interface_table(table@)),
{
    if let Some(o) = addr::parse_v4(word) {
        assert(addr::octets(o@) == o) by {
            assert(addr::octets(o@) =~= o);
        }
        return Some(SocketAddr::new(IpAddr::V4(o), 53));
    }
    let at: usize = text::find_char(word, '%', 0);
    let lit = text::copy_chars(word, 0, at);
    assert(lit@ =~= word@.take(at as int));
    let g = match addr::parse_v6(&lit) {
        Some(g) => g,
        None => return None,
    };
    assert(addr::groups(g@) == g) by {
        assert(addr::groups(g@) =~= g);
    }
    let scope: u32 = if at < word.len() {
        let s = text::copy_chars(word, at + 1, word.len());
        assert(s@ =~= word@.skip(at + 1));
        match text::parse_u32(&s) {
            Some(n) => n,
            None => match interface_index(table, text::text_of(&s).as_str()) {
                Some(n) => n,
                None => return None,
            },
        }
    } else {
        0
    };
    if scope == 0 && g[0] >= 0xfe80 && g[0] <= 0xfebf {
        return None;
    }
    Some(SocketAddr { ip: IpAddr::V6(g), port: 53, scope })
}

/// The resolver that a line names.
fn parse_line(line: &Vec<char>, table: &Vec<(String, u32)>) -> (r: Option<SocketAddr>)
    ensures
        r == resolver_in(line@, interface_table(table@)),
{
    let a: usize = text::find_char(line, '#', 0);
    let b: usize = text::find_char(line, ';', 0);
    let end: usize = if a < b {
        a
    } else {
        b
    };
    let bare = text::copy_chars(line, 0, end);
    assert(bare@ =~= without_comment(line@));
    let (first, rest) = text::next_word(&bare);
    let (second, _rest) = text::next_word(&rest);
    if !text::same_text(text::text_of(&first).as_str(), "nameserver") || second.len() == 0 {
        return None;
    }
    parse_nameserver(&second, table)
}

/// The resolvers that a resolv.conf names, in order, each once, and at most
/// eight. `interfaces` are the names and indices of the network interfaces,
/// for addresses that are scoped by name.
pub fn parse_resolv_conf(content: &str, interfaces: &Vec<(String, u32)>) -> (v: Vec<SocketAddr>)
    ensures
        v@ == resolvers_in(text::split(content@, '\n'), interface_table(interfaces@)),
{
    let lines = text::split_chars(&text::chars_of(content), '\n');
    let ghost all = text::texts(lines@);
    let ghost table = interface_table(interfaces@);
    let mut v: Vec<SocketAddr> = Vec::new();
    let mut i: usize = 0;
    while i < lines.len()
        invariant
            i <= lines.len(),
            all == text::texts(lines@),
            table == interface_table(interfaces@),
            v@ == resolvers_in(all.take(i as int), table),
            v.len() <= MAX_SYSTEM_RESOLVERS,
        decreases lines.len() - i,
    {
        assert(all.take(i + 1).drop_last() =~= all.take(i as int));
        assert(all.take(i + 1).last() == lines@[i as int]@);
        if v.len() < MAX_SYSTEM_RESOLVERS {
            if let Some(a) = parse_line(&lines[i], interfaces) {
                if !has_addr(&v, &a) {
                    v.push(a);
                }
            }
        }
        i = i + 1;
    }
    assert(all.take(i as int) =~= all);
    v
}

/// The resolvers among the addresses that a system's adapters list: without
/// the site-local placeholders, each once, and at most eight.
pub open spec fn usable(found: Seq<SocketAddr>) -> Seq<SocketAddr>
    decreases found.len(),
{
    if found.len() == 0 {
        found
    } else {
        let before = usable(found.drop_last());
        let a = found.last();
        if before.len() < MAX_SYSTEM_RESOLVERS && !site_local(a.ip) && !before.contains(a) {
            before.push(a)
        } else {
            before
        }
    }
}

/// Whether an address is in the site-local range fec0::/10.
pub open spec fn site_local(ip: IpAddr) -> bool {
    match ip {
        IpAddr::V4(_) => false,
        IpAddr::V6(g) => 0xfec0 <= g@[0] <= 0xfeff,
    }
}

/// Whether an address is in the site-local range fec0::/10.
pub fn is_site_local(ip: &IpAddr) -> (r: bool)
    ensures
        r == site_local(*ip),
{
    match ip {
        IpAddr::V4(_) => false,
        IpAddr::V6(g) => g[0] >= 0xfec0 && g[0] <= 0xfeff,
    }
}

/// The resolvers among the addresses that a system's adapters list.
pub fn usable_resolvers(found: &Vec<SocketAddr>) -> (v: Vec<SocketAddr>)
    ensures
        v@ == usable(found@),
{
    let mut v: Vec<SocketAddr> = Vec::new();
    let mut i: usize = 0;
    while i < found.len()
        invariant
            i <= found.len(),
            v@ == usable(found@.take(i as int)),
        decreases found.len() - i,
    {
        assert(found@.take(i + 1).drop_last() =~= found@.take(i as int));
        if v.len() < MAX_SYSTEM_RESOLVERS && !is_site_local(&found[i].ip) && !has_addr(
            &v,
            &found[i],
        ) {
            v.push(found[i]);
        }
        i = i + 1;
    }
    assert(found@.take(i as int) =~= found@);
    v
}

/// A forwarded query's answer.
pub struct Answer {
    pub response: Vec<u8>,
    /// The upstream that answered.
    pub upstream: SocketAddr,
    /// The local address that the query left from.
    pub egress: Option<SocketAddr>,
    /// How many upstreams were tried.
    pub attempts: u32,
}

/// Why a query was not answered.
#[derive(Debug)]
pub enum ForwardError {
    /// There was no upstream to try.
    NoUpstream,
    /// Every attempt failed or timed out.
    Unanswered { attempts: u32, last_upstream: SocketAddr, last: Option<String> },
}

impl ForwardError {
    /// What the error says.
    pub open spec fn text(&self) -> Seq<char> {
        match self {
            ForwardError::NoUpstream => "no DNS upstream configured"@,
            ForwardError::Unanswered { attempts, last_upstream, last } => "unanswered after "@
                + text::dec(*attempts as nat) + " attempts (last "@ + last_upstream.text() + (match last {
                Some(e) => ": "@ + e@,
                None => Seq::empty(),
            }) + ")"@,
        }
    }

    /// What the error says.
    pub fn to_text(&self) -> (s: String)
        ensures
            s@ == self.text(),
    {
        match self {
            ForwardError::NoUpstream => String::from_str("no DNS upstream configured"),
            ForwardError::Unanswered { attempts, last_upstream, last } => {
                let mut s = String::from_str("unanswered after ");
                s.append(text::dec_text(*attempts as u64).as_str());
                s.append(" attempts (last ");
                s.append(last_upstream.to_text().as_str());
                match last {
                    Some(e) => {
                        s.append(": ");
                        s.append(e.as_str());
                    },
                    None => {},
                }
                s.append(")");
                assert(s@ =~= self.text());
                s
            },
        }
    }
}

/// How an attempt ended that brought no answer.
pub enum Attempt {
    /// Nothing came in time.
    Timeout,
    /// The upstream could not be reached; what the failure says.
    Io(String),
}

/// One query on its way through the upstreams: those tried so far, and what
/// the last failure said.
pub struct Forwarding {
    tried: Vec<SocketAddr>,
    last: Option<String>,
}

/// What a forwarding holds.
pub struct ForwardingParts {
    pub tried: Seq<SocketAddr>,
    pub last: Option<String>,
}

/// What is reported of a query that no upstream answered.
pub open spec fn gave_up(f: ForwardingParts, e: ForwardError) -> bool {
    if f.tried.len() == 0 {
        e is NoUpstream
    } else {
        e matches ForwardError::Unanswered { attempts, last_upstream, last } && attempts
            == f.tried.len() && last_upstream == f.tried.last() && last == f.last
    }
}

impl Forwarding {
    /// What the forwarding holds.
    pub closed spec fn view(&self) -> ForwardingParts {
        ForwardingParts { tried: self.tried@, last: self.last }
    }

    /// Whether no upstream was tried twice, and no more than three were.
    pub open spec fn wf(&self) -> bool {
        self@.tried.no_duplicates() && self@.tried.len() <= MAX_ATTEMPTS
    }

    /// A query that nothing was tried for.
    pub fn new() -> (f: Forwarding)
        ensures
            f.wf(),
            f@.tried.len() == 0,
            f@.last is None,
    {
        Forwarding { tried: Vec::new(), last: None }
    }

    /// The upstream to send the query to, or what to report once three were
    /// tried or none is left.
    pub fn next(&mut self, fwd: &mut DnsForwarder, now: u64) -> (r: Result<
        SocketAddr,
        ForwardError,
    >)
        requires
            old(self).wf(),
            old(fwd).wf(),
        ensures
            final(self).wf(),
            final(fwd).wf(),
            final(self)@.last == old(self)@.last,
            old(self)@.tried.len() >= MAX_ATTEMPTS ==> final(fwd)@ == old(fwd)@ && r is Err,
            old(self)@.tried.len() < MAX_ATTEMPTS ==> final(fwd)@ == (ForwarderParts {
                servers: all_revived(old(fwd)@.servers, now, old(fwd)@.quarantine),
                fallback: all_revived(old(fwd)@.fallback, now, old(fwd)@.quarantine),
                ..old(fwd)@
            }) && (r is Ok <==> picked(
                final(fwd)@.servers + final(fwd)@.fallback,
                old(self)@.tried,
            ) is Some),
            match r {
                Ok(up) => Some(up) == picked(
                    final(fwd)@.servers + final(fwd)@.fallback,
                    old(self)@.tried,
                ) && !old(self)@.tried.contains(up) && final(self)@.tried == old(self)@.tried.push(
                    up,
                ),
                Err(e) => final(self)@ == old(self)@ && gave_up(old(self)@, e),
            },
    {
        if self.tried.len() < MAX_ATTEMPTS {
            if let Some(up) = fwd.pick_at(now, &self.tried) {
                proof {
                    pick_is_untried(fwd@.servers + fwd@.fallback, self.tried@);
                }
                self.tried.push(up);
                return Ok(up);
            }
        }
        let n: usize = self.tried.len();
        if n == 0 {
            Err(ForwardError::NoUpstream)
        } else {
            let last = match &self.last {
                Some(e) => Some(e.clone()),
                None => None,
            };
            Err(
                ForwardError::Unanswered {
                    attempts: n as u32,
                    last_upstream: self.tried[n - 1],
                    last,
                },
            )
        }
    }

    /// The upstream that was tried last answered.
    pub fn answered(
        &self,
        fwd: &mut DnsForwarder,
        response: Vec<u8>,
        egress: Option<SocketAddr>,
    ) -> (a: Answer)
        requires
            self.wf(),
            self@.tried.len() > 0,
            old(fwd).wf(),
        ensures
            final(fwd).wf(),
            a.response@ == response@,
            a.upstream == self@.tried.last(),
            a.egress == egress,
            a.attempts == self@.tried.len(),
            final(fwd)@ == with_upstream(old(fwd)@, a.upstream, Heard::Answered, 0),
    {
        let n: usize = self.tried.len();
        let upstream = self.tried[n - 1];
        fwd.answered(upstream);
        Answer { response, upstream, egress, attempts: n as u32 }
    }

    /// The upstream that was tried last did not answer. `silence` says so
    /// where nothing came in time.
    pub fn failed(&mut self, fwd: &mut DnsForwarder, now: u64, end: Attempt, silence: &str)
        requires
            old(self).wf(),
            old(self)@.tried.len() > 0,
            old(fwd).wf(),
        ensures
            final(self).wf(),
            final(fwd).wf(),
            final(self)@.tried == old(self)@.tried,
            final(self)@.last is Some,
            (final(self)@.last->0)@ == (match end {
                Attempt::Timeout => silence@,
                Attempt::Io(e) => e@,
            }),
            final(fwd)@ == with_upstream(
                old(fwd)@,
                old(self)@.tried.last(),
                match end {
                    Attempt::Timeout => Heard::TimedOut,
                    Attempt::Io(e) => Heard::Failed,
                },
                now,
            ),
    {
        let n: usize = self.tried.len();
        let up = self.tried[n - 1];
        match end {
            Attempt::Timeout => {
                fwd.timed_out_at(now, up);
                self.last = Some(String::from_str(silence));
            },
            Attempt::Io(e) => {
                fwd.failed_at(now, up);
                self.last = Some(e);
            },
        }
    }
}

/// Whether a datagram may answer a query: where both hold an identifier, it is
/// the same.
pub open spec fn answers(query: Seq<u8>, datagram: Seq<u8>) -> bool {
    datagram.len() >= 2 && query.len() >= 2 ==> datagram[0] == query[0] && datagram[1] == query[1]
}

/// Whether a datagram may answer a query.
pub fn is_answer(query: &[u8], datagram: &[u8]) -> (r: bool)
    ensures
        r == answers(query@, datagram@),
{
    if datagram.len() >= 2 && query.len() >= 2 {
        datagram[0] == query[0] && datagram[1] == query[1]
    } else {
        true
    }
}

proof fn first_live_is_first(us: Seq<Upstream>, tried: Seq<SocketAddr>, from: int)
    requires
        0 <= from <= us.len(),
    ensures
        from <= first_live(us, tried, from) <= us.len(),
        first_live(us, tried, from) < us.len() ==> us[first_live(us, tried, from)].dead_since is None
            && !tried.contains(us[first_live(us, tried, from)].addr),
        forall|i: int|
            from <= i < first_live(us, tried, from) ==> (#[trigger] us[i]).dead_since is Some
                || tried.contains(us[i].addr),
    decreases us.len() - from,
{
    if from < us.len() {
        first_live_is_first(us, tried, from + 1);
    }
}

proof fn longest_dead_is_longest(us: Seq<Upstream>, tried: Seq<SocketAddr>, n: int)
    requires
        0 <= n <= us.len(),
    ensures
        -1 <= longest_dead(us, tried, n) < n,
        longest_dead(us, tried, n) >= 0 ==> !tried.contains(us[longest_dead(us, tried, n)].addr),
        forall|i: int|
            0 <= i < n && !tried.contains((#[trigger] us[i]).addr) ==> longest_dead(us, tried, n)
                >= 0 && !died_before(us[i].dead_since, us[longest_dead(us, tried, n)].dead_since),
    decreases n,
{
    if n > 0 {
        longest_dead_is_longest(us, tried, n - 1);
    }
}

/// What is picked is an upstream that has not been tried, and something is
/// picked unless all have been.
pub proof fn pick_is_untried(us: Seq<Upstream>, tried: Seq<SocketAddr>)
    ensures
        match picked(us, tried) {
            Some(a) => !tried.contains(a) && addrs_of(us).contains(a),
            None => forall|i: int| 0 <= i < us.len() ==> tried.contains((#[trigger] us[i]).addr),
        },
{
    first_live_is_first(us, tried, 0);
    longest_dead_is_longest(us, tried, us.len() as int);
    match picked(us, tried) {
        Some(a) => {
            let at = if first_live(us, tried, 0) < us.len() {
                first_live(us, tried, 0)
            } else {
                longest_dead(us, tried, us.len() as int)
            };
            assert(addrs_of(us)[at] == a);
        },
        None => {},
    }
}

/// Configured upstreams come before the fallback, those in use before those
/// that are skipped, and of these the one that has been skipped the longest.
pub proof fn pick_prefers(servers: Seq<Upstream>, fallback: Seq<Upstream>, tried: Seq<SocketAddr>)
    ensures
        (exists|i: int|
            0 <= i < servers.len() && (#[trigger] servers[i]).dead_since is None && !tried.contains(
                servers[i].addr,
            )) ==> exists|k: int|
            0 <= k < servers.len() && picked(servers + fallback, tried) == Some(servers[k].addr)
                && (#[trigger] servers[k]).dead_since is None && (forall|j: int|
                0 <= j < k ==> (#[trigger] servers[j]).dead_since is Some || tried.contains(
                    servers[j].addr,
                )),
        (forall|i: int|
            0 <= i < (servers + fallback).len() ==> (#[trigger] (servers + fallback)[i]).dead_since is Some
                || tried.contains((servers + fallback)[i].addr)) ==> match picked(
            servers + fallback,
            tried,
        ) {
            Some(a) => exists|k: int|
                0 <= k < (servers + fallback).len() && (#[trigger] (servers + fallback)[k]).addr
                    == a && (forall|i: int|
                    0 <= i < (servers + fallback).len() && !tried.contains(
                        (#[trigger] (servers + fallback)[i]).addr,
                    ) ==> !died_before(
                        (servers + fallback)[i].dead_since,
                        (servers + fallback)[k].dead_since,
                    )),
            None => true,
        },
{
    let us = servers + fallback;
    first_live_is_first(us, tried, 0);
    longest_dead_is_longest(us, tried, us.len() as int);
    let k = first_live(us, tried, 0);
    if exists|i: int|
        0 <= i < servers.len() && (#[trigger] servers[i]).dead_since is None && !tried.contains(
            servers[i].addr,
        ) {
        let i = choose|i: int|
            0 <= i < servers.len() && (#[trigger] servers[i]).dead_since is None && !tried.contains(
                servers[i].addr,
            );
        assert(us[i] == servers[i]);
        assert(k <= i);
        assert(us[k] == servers[k]);
        assert forall|j: int| 0 <= j < k implies (#[trigger] servers[j]).dead_since is Some
            || tried.contains(servers[j].addr) by {
            assert(us[j] == servers[j]);
        }
    }
}

/// With a fallback list there is always somewhere to send a new query.
pub proof fn fallback_always_answers(servers: Seq<Upstream>, fallback: Seq<Upstream>)
    requires
        fallback.len() > 0,
    ensures
        picked(servers + fallback, Seq::empty()) is Some,
{
    pick_is_untried(servers + fallback, Seq::empty());
    assert((servers + fallback)[servers.len() as int] == fallback[0]);
}

/// An upstream that could not be reached is passed over, in whichever list it
/// stands, while another one that has not been tried is in use.
pub proof fn unreachable_is_passed_over(
    f: ForwarderParts,
    a: SocketAddr,
    now: u64,
    tried: Seq<SocketAddr>,
    i: int,
)
    requires
        0 <= i < (f.servers + f.fallback).len(),
        (f.servers + f.fallback)[i].addr != a,
        (f.servers + f.fallback)[i].dead_since is None,
        !tried.contains((f.servers + f.fallback)[i].addr),
    ensures
        ({
            let g = with_upstream(f, a, Heard::Failed, now);
            picked(g.servers + g.fallback, tried) is Some && picked(g.servers + g.fallback, tried)
                != Some(a)
        }),
{
    let g = with_upstream(f, a, Heard::Failed, now);
    let us = g.servers + g.fallback;
    assert(us[i] == (f.servers + f.fallback)[i]);
    first_live_is_first(us, tried, 0);
    let k = first_live(us, tried, 0);
    assert(k <= i);
    assert(us[k] == if (f.servers + f.fallback)[k].addr == a {
        unreachable((f.servers + f.fallback)[k], now)
    } else {
        (f.servers + f.fallback)[k]
    });
}

/// Three attempts in a row without an answer put a healthy upstream out, two
/// do not, and one failure to reach it does.
pub proof fn three_strikes(a: SocketAddr, t1: u64, t2: u64, t3: u64)
    ensures
        struck(struck(healthy(a), t1), t2).dead_since is None,
        struck(struck(struck(healthy(a), t1), t2), t3).dead_since == Some(t3),
        unreachable(healthy(a), t1).dead_since == Some(t1),
{
}

/// An upstream that is out stays out until it has been skipped long enough,
/// and is then healthy again.
pub proof fn quarantine_ends(u: Upstream, since: u64, now: u64, quarantine: u64)
    requires
        u.dead_since == Some(since),
        since <= now,
    ensures
        now - since < quarantine ==> revived(u, now, quarantine) == u,
        now - since >= quarantine ==> revived(u, now, quarantine) == healthy(u.addr),
{
}

/// A list without repetitions has the addresses of the list, each once.
pub proof fn each_address_once(v: Seq<SocketAddr>)
    ensures
        without_repeats(v).no_duplicates(),
        forall|a: SocketAddr| #[trigger] without_repeats(v).contains(a) <==> v.contains(a),
    decreases v.len(),
{
    if v.len() > 0 {
        let before = without_repeats(v.drop_last());
        each_address_once(v.drop_last());
        assert forall|a: SocketAddr| #[trigger] without_repeats(v).contains(a) <==> v.contains(
            a,
        ) by {
            if v.contains(a) {
                let i = v.index_of(a);
                if i < v.len() - 1 {
                    assert(v.drop_last()[i] == a);
                    assert(before.contains(a));
                    let k = before.index_of(a);
                    assert(without_repeats(v)[k] == a);
                } else if !before.contains(a) {
                    assert(without_repeats(v).last() == a);
                }
            }
            if without_repeats(v).contains(a) {
                let k = without_repeats(v).index_of(a);
                if k < before.len() {
                    assert(before[k] == a);
                    assert(before.contains(a));
                    assert(v.drop_last().contains(a));
                    let i = v.drop_last().index_of(a);
                    assert(v[i] == a);
                } else {
                    assert(v.last() == a);
                }
            }
        }
    }
}

proof fn lemma_place_of(us: Seq<Upstream>, a: SocketAddr, from: int)
    requires
        0 <= from <= us.len(),
    ensures
        from <= place_of(us, a, from) <= us.len(),
        place_of(us, a, from) < us.len() ==> us[place_of(us, a, from)].addr == a,
        forall|i: int| from <= i < place_of(us, a, from) ==> (#[trigger] us[i]).addr != a,
    decreases us.len() - from,
{
    if from < us.len() {
        lemma_place_of(us, a, from + 1);
    }
}

/// Whether `after` are upstreams for a list of addresses, in the order of the
/// list, where each that was there before is as it was and each new one has a
/// clean record.
pub open spec fn taken_over(
    list: Seq<SocketAddr>,
    before: Seq<Upstream>,
    after: Seq<Upstream>,
) -> bool {
    &&& after.len() == list.len()
    &&& forall|i: int| 0 <= i < list.len() ==> (#[trigger] after[i]).addr == list[i]
    &&& forall|i: int|
        0 <= i < list.len() ==> before.contains(#[trigger] after[i]) || after[i].strikes == 0
            && after[i].dead_since is None && forall|j: int|
            0 <= j < before.len() ==> (#[trigger] before[j]).addr != list[i]
}

proof fn lemma_taken_over(list: Seq<SocketAddr>, before: Seq<Upstream>)
    ensures
        taken_over(list, before, with_health(list, before)),
{
    let after = with_health(list, before);
    assert forall|i: int| 0 <= i < list.len() implies (#[trigger] after[i]).addr == list[i] && (
    before.contains(after[i]) || after[i].strikes == 0 && after[i].dead_since is None && forall|
        j: int,
    |
        0 <= j < before.len() ==> (#[trigger] before[j]).addr != list[i]) by {
        lemma_place_of(before, list[i], 0);
        let at = place_of(before, list[i], 0);
        if at < before.len() {
            assert(before[at] == after[i]);
        }
    }
}

/// While the system's resolvers are in use, the list is due when it has never
/// been read, and again thirty seconds after each reading. What is found then
/// replaces what was there, whatever that was: the upstreams are the addresses
/// found, in their order, each with the health it had if it was there before.
/// Before that, and with a list of one's own, nothing changes.
pub proof fn found_resolvers_replace_the_old(
    f: ForwarderParts,
    now: u64,
    found: Seq<SocketAddr>,
)
    ensures
        ({
            let due = f.mode is None && (f.refreshed is None || now >= f.refreshed->0 + 30_000);
            let g = refreshed(f, now, found);
            &&& stale(f, now) <==> due
            &&& !due ==> g == f
            &&& due ==> {
                &&& taken_over(found, f.servers, g.servers)
                &&& addrs_of(g.servers) == found
                &&& g.refreshed == Some(now)
                &&& g.mode is None
            }
            &&& g.fallback == f.fallback
            &&& g.quarantine == f.quarantine && g.attempt_timeout == f.attempt_timeout
        }),
{
    let g = refreshed(f, now, found);
    if stale(f, now) {
        if found == addrs_of(f.servers) {
            assert(forall|i: int| 0 <= i < found.len() ==> found[i] == f.servers[i].addr);
            assert forall|i: int| 0 <= i < found.len() implies f.servers.contains(
                #[trigger] g.servers[i],
            ) by {
                assert(f.servers[i] == g.servers[i]);
            }
        } else {
            lemma_taken_over(found, f.servers);
        }
        assert(addrs_of(g.servers) =~= found);
    }
}

/// After the list was read anew, a new query goes to the first resolver that
/// was found, unless that one is out.
pub proof fn found_resolver_is_asked_first(f: ForwarderParts, now: u64, found: Seq<SocketAddr>)
    requires
        stale(f, now),
        found.len() > 0,
        forall|j: int|
            0 <= j < f.servers.len() && (#[trigger] f.servers[j]).addr == found[0]
                ==> f.servers[j].dead_since is None,
    ensures
        ({
            let g = refreshed(f, now, found);
            picked(
                all_revived(g.servers, now, g.quarantine) + all_revived(
                    g.fallback,
                    now,
                    g.quarantine,
                ),
                Seq::empty(),
            ) == Some(found[0])
        }),
{
    let g = refreshed(f, now, found);
    found_resolvers_replace_the_old(f, now, found);
    let first = g.servers[0];
    assert(first.addr == found[0]);
    if f.servers.contains(first) {
        let j = f.servers.index_of(first);
        assert(f.servers[j].addr == found[0]);
    }
    assert(first.dead_since is None);
    let us = all_revived(g.servers, now, g.quarantine) + all_revived(g.fallback, now, g.quarantine);
    assert(us[0] == first);
    assert(first_live(us, Seq::empty(), 0) == 0);
}

/// A list that is set replaces what was there: the upstreams are its addresses,
/// each once, with the health they had if they were there before. An empty one
/// means that the system's resolvers are read again at once.
pub proof fn set_list_replaces_the_old(f: ForwarderParts, list: Seq<SocketAddr>, now: u64)
    ensures
        ({
            let g = with_servers(f, list);
            &&& list.len() == 0 ==> g.mode is None && stale(g, now) && g.servers == f.servers
            &&& list.len() > 0 ==> {
                &&& g.mode == Some(addrs_of(g.servers))
                &&& !stale(g, now)
                &&& g.refreshed == f.refreshed
                &&& taken_over(addrs_of(g.servers), f.servers, g.servers)
                &&& addrs_of(g.servers).no_duplicates()
                &&& forall|a: SocketAddr| #[trigger]
                    addrs_of(g.servers).contains(a) <==> list.contains(a)
                &&& addrs_of(g.servers)[0] == list[0]
            }
            &&& g.fallback == f.fallback
            &&& g.quarantine == f.quarantine && g.attempt_timeout == f.attempt_timeout
        }),
{
    if list.len() > 0 {
        let once = without_repeats(list);
        each_address_once(list);
        lemma_taken_over(once, f.servers);
        assert(addrs_of(with_servers(f, list).servers) =~= once);
        earlier_addresses_stay_earlier(list, 0, 0);
    }
}

proof fn lemma_repeats_take(v: Seq<SocketAddr>, k: int)
    requires
        0 <= k <= v.len(),
    ensures
        without_repeats(v.take(k)).len() <= without_repeats(v).len(),
        without_repeats(v).take(without_repeats(v.take(k)).len() as int) == without_repeats(
            v.take(k),
        ),
    decreases v.len(),
{
    if k < v.len() {
        lemma_repeats_take(v.drop_last(), k);
        assert(v.drop_last().take(k) =~= v.take(k));
        let n = without_repeats(v.take(k)).len() as int;
        assert(without_repeats(v).take(n) =~= without_repeats(v.drop_last()).take(n));
    } else {
        assert(v.take(k) =~= v);
        assert(without_repeats(v).take(without_repeats(v).len() as int) =~= without_repeats(v));
    }
}

/// A list without repetitions keeps the order in which the addresses first
/// come: where the address at `j` is the same as none before it, and that at
/// `i` is before it, the former stands behind the latter.
pub proof fn earlier_addresses_stay_earlier(v: Seq<SocketAddr>, i: int, j: int)
    requires
        0 <= i <= j < v.len(),
        forall|k: int| 0 <= k < j ==> v[k] != v[j],
    ensures
        ({
            let once = without_repeats(v);
            exists|a: int, b: int|
                0 <= a <= b < once.len() && (a == b <==> i == j) && #[trigger] once[a] == v[i]
                    && #[trigger] once[b] == v[j]
        }),
        without_repeats(v)[0] == v[0],
{
    let once = without_repeats(v);
    let head = without_repeats(v.take(j));
    let upto = without_repeats(v.take(j + 1));
    each_address_once(v.take(j));
    assert(v.take(j + 1).drop_last() =~= v.take(j));
    lemma_repeats_take(v, j + 1);
    lemma_repeats_take(v, 1);
    assert(v.take(1).drop_last() =~= Seq::<SocketAddr>::empty());
    reveal_with_fuel(without_repeats, 2);
    assert(without_repeats(v.take(1)) =~= seq![v[0]]);
    assert(once.take(1)[0] == once[0]);
    assert(!v.take(j).contains(v[j])) by {
        if v.take(j).contains(v[j]) {
            let k = v.take(j).index_of(v[j]);
            assert(v[k] == v[j]);
        }
    }
    assert(!head.contains(v[j]));
    assert(upto == head.push(v[j]));
    let b = head.len() as int;
    assert(once.take(upto.len() as int)[b] == v[j]);
    assert(once[b] == v[j]);
    if i < j {
        assert(v.take(j)[i] == v[i]);
        assert(head.contains(v[i]));
        let a = head.index_of(v[i]);
        assert(upto[a] == v[i]);
        assert(once.take(upto.len() as int)[a] == once[a]);
        assert(0 <= a <= b < once.len() && once[a] == v[i] && once[b] == v[j]);
    }
}

/// A new forwarder asks the addresses of its list, or the system's as soon as
/// they are read, and then its fallback; none of them is out. It waits two
/// seconds for an answer and skips an upstream that is out for thirty.
pub proof fn new_forwarder_is_clean(
    mode: Option<Seq<SocketAddr>>,
    fallback: Seq<SocketAddr>,
    now: u64,
)
    ensures
        ({
            let f = new_forwarder(mode, fallback);
            &&& stale(f, now) <==> mode is None
            &&& mode is None ==> f.servers.len() == 0
            &&& mode matches Some(list) ==> forall|a: SocketAddr| #[trigger]
                addrs_of(f.servers).contains(a) <==> list.contains(a)
            &&& forall|a: SocketAddr| #[trigger]
                addrs_of(f.fallback).contains(a) <==> fallback.contains(a)
            &&& addrs_of(f.servers).no_duplicates() && addrs_of(f.fallback).no_duplicates()
            &&& forall|i: int|
                0 <= i < f.servers.len() ==> (#[trigger] f.servers[i]).strikes == 0
                    && f.servers[i].dead_since is None
            &&& forall|i: int|
                0 <= i < f.fallback.len() ==> (#[trigger] f.fallback[i]).strikes == 0
                    && f.fallback[i].dead_since is None
            &&& f.quarantine == 30_000 && f.attempt_timeout == 2_000
        }),
{
    let f = new_forwarder(mode, fallback);
    each_address_once(fallback);
    lemma_taken_over(without_repeats(fallback), Seq::empty());
    assert(addrs_of(f.fallback) =~= without_repeats(fallback));
    match mode {
        Some(list) => {
            each_address_once(list);
            lemma_taken_over(without_repeats(list), Seq::empty());
            assert(addrs_of(f.servers) =~= without_repeats(list));
        },
        None => {},
    }
}

/// Of several upstreams the first that is in use and was not tried is asked.
/// Where all that were not tried are out, one of those that have been out the
/// longest is; where all were tried, none.
pub proof fn pick_is_the_first_in_use(us: Seq<Upstream>, tried: Seq<SocketAddr>, k: int)
    requires
        0 <= k < us.len(),
        !tried.contains(us[k].addr),
    ensures
        us[k].dead_since is None && (forall|j: int|
            0 <= j < k ==> (#[trigger] us[j]).dead_since is Some || tried.contains(us[j].addr))
            ==> picked(us, tried) == Some(us[k].addr),
        (forall|j: int|
            0 <= j < us.len() && j != k && !tried.contains((#[trigger] us[j]).addr)
                ==> us[k].dead_since is Some && us[j].dead_since is Some && us[k].dead_since->0
                < us[j].dead_since->0) ==> picked(us, tried) == Some(us[k].addr),
{
    first_live_is_first(us, tried, 0);
    longest_dead_is_longest(us, tried, us.len() as int);
    let live = first_live(us, tried, 0);
    let dead = longest_dead(us, tried, us.len() as int);
    if us[k].dead_since is None && (forall|j: int|
        0 <= j < k ==> (#[trigger] us[j]).dead_since is Some || tried.contains(us[j].addr)) {
        assert(live == k);
    } else if forall|j: int|
        0 <= j < us.len() && j != k && !tried.contains((#[trigger] us[j]).addr)
            ==> us[k].dead_since is Some && us[j].dead_since is Some && us[k].dead_since->0
            < us[j].dead_since->0 {
        if live < us.len() {
            assert(live == k);
        } else {
            assert(dead >= 0);
            if dead != k {
                assert(us[k].dead_since->0 < us[dead].dead_since->0);
                assert(died_before(us[k].dead_since, us[dead].dead_since));
            }
        }
    }
}

/// What is heard of an address counts for every upstream with that address and
/// for no other. An answer clears it, a failure to reach it puts it out at
/// once, silence puts it out the third time in a row; one that is out already
/// stays out since when it was.
pub proof fn health_follows_what_is_heard(
    f: ForwarderParts,
    a: SocketAddr,
    heard: Heard,
    now: u64,
    i: int,
)
    requires
        0 <= i < (f.servers + f.fallback).len(),
    ensures
        ({
            let g = with_upstream(f, a, heard, now);
            let before = (f.servers + f.fallback)[i];
            let after = (g.servers + g.fallback)[i];
            &&& g.servers.len() == f.servers.len() && g.fallback.len() == f.fallback.len()
            &&& after.addr == before.addr
            &&& before.addr != a ==> after == before
            &&& before.addr == a ==> {
                &&& heard is Answered ==> after.dead_since is None && after.strikes == 0
                &&& heard is Failed && before.dead_since is None ==> after.dead_since == Some(now)
                &&& !(heard is Answered) && before.dead_since is Some ==> after == before
                &&& heard is TimedOut && before.dead_since is None && before.strikes < 2
                    ==> after.dead_since is None && after.strikes == before.strikes + 1
                &&& heard is TimedOut && before.dead_since is None && before.strikes == 2
                    ==> after.dead_since == Some(now)
            }
            &&& g.mode == f.mode && g.refreshed == f.refreshed
        }),
{
}

/// The resolvers that lines name are named by one of the lines, each is there
/// once, there are at most eight, and none of those that are named is missing
/// while there is room.
pub proof fn named_resolvers_are_read(
    lines: Seq<Seq<char>>,
    table: Seq<(Seq<char>, u32)>,
    a: SocketAddr,
)
    ensures
        ({
            let found = resolvers_in(lines, table);
            let named = exists|i: int|
                0 <= i < lines.len() && #[trigger] resolver_in(lines[i], table) == Some(a);
            &&& found.no_duplicates()
            &&& found.len() <= 8
            &&& found.contains(a) ==> named
            &&& named && !found.contains(a) ==> found.len() == 8
        }),
    decreases lines.len(),
{
    let found = resolvers_in(lines, table);
    if lines.len() > 0 {
        let init = lines.drop_last();
        let before = resolvers_in(init, table);
        named_resolvers_are_read(init, table, a);
        if found.contains(a) {
            let k = found.index_of(a);
            if k < before.len() {
                assert(before[k] == a);
                let i = choose|i: int|
                    0 <= i < init.len() && #[trigger] resolver_in(init[i], table) == Some(a);
                assert(resolver_in(lines[i], table) == Some(a));
            } else {
                assert(resolver_in(lines[lines.len() - 1], table) == Some(a));
            }
        }
        if exists|i: int|
            0 <= i < lines.len() && #[trigger] resolver_in(lines[i], table) == Some(a) {
            let i = choose|i: int|
                0 <= i < lines.len() && #[trigger] resolver_in(lines[i], table) == Some(a);
            if i < lines.len() - 1 {
                assert(resolver_in(init[i], table) == Some(a));
            }
            if before.contains(a) {
                let k = before.index_of(a);
                assert(found[k] == a);
            } else if resolver_in(lines.last(), table) == Some(a) && before.len() < 8 {
                assert(found[before.len() as int] == a);
            }
        }
    }
}

/// The addresses that a system's adapters list are taken, each once, up to
/// eight, but for those in `fec0::/10`.
pub proof fn adapter_resolvers_are_taken(found: Seq<SocketAddr>, a: SocketAddr)
    ensures
        ({
            let v = usable(found);
            let placeholder = a.ip matches IpAddr::V6(g) && g@[0] & 0xffc0 == 0xfec0;
            &&& v.no_duplicates()
            &&& v.len() <= 8
            &&& v.contains(a) ==> found.contains(a) && !placeholder
            &&& found.contains(a) && !placeholder && !v.contains(a) ==> v.len() == 8
        }),
    decreases found.len(),
{
    let v = usable(found);
    if let IpAddr::V6(g) = a.ip {
        let top = g@[0];
        assert(top & 0xffc0 == 0xfec0 <==> 0xfec0 <= top && top <= 0xfeff) by (bit_vector);
    }
    if found.len() > 0 {
        let init = found.drop_last();
        let before = usable(init);
        adapter_resolvers_are_taken(init, a);
        if v.contains(a) {
            let k = v.index_of(a);
            if k < before.len() {
                assert(before[k] == a);
                let i = init.index_of(a);
                assert(found[i] == a);
            } else {
                assert(found[found.len() - 1] == a);
            }
        }
        if found.contains(a) {
            let i = found.index_of(a);
            if i < found.len() - 1 {
                assert(init[i] == a);
            }
            if before.contains(a) {
                let k = before.index_of(a);
                assert(v[k] == a);
            } else if found.last() == a && before.len() < 8 && !site_local(a.ip) {
                assert(v[before.len() as int] == a);
            }
        }
    }
}

/// The resolvers stand in the order of the lines that name them: what the first
/// lines name comes first, whatever lines follow.
pub proof fn resolvers_stand_in_order(
    lines: Seq<Seq<char>>,
    table: Seq<(Seq<char>, u32)>,
    k: int,
)
    requires
        0 <= k <= lines.len(),
    ensures
        ({
            let first = resolvers_in(lines.take(k), table);
            let all = resolvers_in(lines, table);
            first.len() <= all.len() && all.take(first.len() as int) == first
        }),
    decreases lines.len(),
{
    let first = resolvers_in(lines.take(k), table);
    let all = resolvers_in(lines, table);
    if k < lines.len() {
        resolvers_stand_in_order(lines.drop_last(), table, k);
        assert(lines.drop_last().take(k) =~= lines.take(k));
        let most = resolvers_in(lines.drop_last(), table);
        assert(all.take(first.len() as int) =~= most.take(first.len() as int));
    } else {
        assert(lines.take(k) =~= lines);
        assert(all.take(first.len() as int) =~= first);
    }
}

/// The addresses of a system's adapters stand in the order in which they are
/// listed.
pub proof fn adapter_resolvers_stand_in_order(found: Seq<SocketAddr>, k: int)
    requires
        0 <= k <= found.len(),
    ensures
        ({
            let first = usable(found.take(k));
            first.len() <= usable(found).len() && usable(found).take(first.len() as int) == first
        }),
    decreases found.len(),
{
    let first = usable(found.take(k));
    let all = usable(found);
    if k < found.len() {
        adapter_resolvers_stand_in_order(found.drop_last(), k);
        assert(found.drop_last().take(k) =~= found.take(k));
        let most = usable(found.drop_last());
        assert(all.take(first.len() as int) =~= most.take(first.len() as int));
    } else {
        assert(found.take(k) =~= found);
        assert(all.take(first.len() as int) =~= first);
    }
}

/// A line names a resolver only as `nameserver` and an address: any other
/// keyword names none, and what follows a `#` or `;` makes no difference.
pub proof fn only_nameserver_lines_count(
    line: Seq<char>,
    comment: Seq<char>,
    mark: char,
    table: Seq<(Seq<char>, u32)>,
)
    requires
        mark == '#' || mark == ';',
        !line.contains('#'),
        !line.contains(';'),
    ensures
        resolver_in(line + seq![mark] + comment, table) == resolver_in(line, table),
        text::first_word(line).0 != "nameserver"@ ==> resolver_in(line, table) is None,
        resolver_in(line, table) matches Some(a) ==> a.port == 53,
{
    let whole = line + seq![mark] + comment;
    lemma_none(line, '#', 0);
    lemma_none(line, ';', 0);
    text::place_of_is_first(whole, '#', 0);
    text::place_of_is_first(whole, ';', 0);
    let n = line.len() as int;
    assert(whole[n] == mark);
    assert(forall|i: int| 0 <= i < n ==> whole[i] == line[i]);
    assert(forall|i: int| 0 <= i < n ==> line[i] != '#' && line[i] != ';') by {
        assert(forall|i: int| 0 <= i < n ==> line.contains(line[i]));
    }
    assert(without_comment(whole) =~= line);
    assert(without_comment(line) =~= line);
}

proof fn lemma_none(s: Seq<char>, c: char, from: int)
    requires
        0 <= from <= s.len(),
        !s.contains(c),
    ensures
        text::place_of(s, c, from) == s.len(),
    decreases s.len() - from,
{
    if from < s.len() {
        assert(s[from] != c) by {
            if s[from] == c {
                assert(s.contains(c));
            }
        }
        lemma_none(s, c, from + 1);
    }
}

/// A word that is the text of an IPv4 address names it, at port 53.
pub proof fn v4_resolvers_are_named_by_address(o: [u8; 4], table: Seq<(Seq<char>, u32)>)
    ensures
        nameserver_in(addr::v4_text(o@), table) == Some(
            SocketAddr { ip: IpAddr::V4(o), port: 53, scope: 0 },
        ),
{
    addr::v4_text_reads_back(o@);
    assert(addr::octets(o@) =~= o);
}

/// A word that is the text of an IPv6 address names it, at port 53, unless it
/// is in `fe80::/10`.
pub proof fn v6_resolvers_are_named_by_address(g: [u16; 8], table: Seq<(Seq<char>, u32)>)
    ensures
        nameserver_in(addr::v6_text(g@), table) == if g@[0] & 0xffc0 == 0xfe80 {
            None
        } else {
            Some(SocketAddr { ip: IpAddr::V6(g), port: 53, scope: 0 })
        },
{
    let w = addr::v6_text(g@);
    let top = g@[0];
    assert(top & 0xffc0 == 0xfe80 <==> 0xfe80 <= top && top <= 0xfebf) by (bit_vector);
    addr::v6_text_reads_back(g@);
    assert(addr::groups(g@) =~= g);
    addr::literal_has_one_family(w);
    addr::ip_text_reads_back(IpAddr::V6(g));
    assert(!IpAddr::V6(g).text().contains('%'));
    lemma_none(w, '%', 0);
    assert(w.take(w.len() as int) =~= w);
}

/// The text of an IPv6 address, a `%` and what stands for a scope, a number or
/// the name of an interface, name the address with that scope; an address in
/// `fe80::/10` counts only with a scope other than zero.
pub proof fn scoped_resolvers_are_named_by_address(
    g: [u16; 8],
    scope: Seq<char>,
    table: Seq<(Seq<char>, u32)>,
)
    ensures
        nameserver_in(addr::v6_text(g@).push('%') + scope, table) == match scope_in(scope, table) {
            Some(id) => if id == 0 && g@[0] & 0xffc0 == 0xfe80 {
                None
            } else {
                Some(SocketAddr { ip: IpAddr::V6(g), port: 53, scope: id })
            },
            None => None,
        },
{
    let w = addr::v6_text(g@);
    let word = w.push('%') + scope;
    let top = g@[0];
    assert(top & 0xffc0 == 0xfe80 <==> 0xfe80 <= top && top <= 0xfebf) by (bit_vector);
    addr::v6_text_reads_back(g@);
    assert(addr::groups(g@) =~= g);
    addr::literal_has_one_family(w);
    addr::ip_text_reads_back(IpAddr::V6(g));
    assert(!IpAddr::V6(g).text().contains('%'));
    text::place_after(w, '%', scope);
    assert(word.take(w.len() as int) =~= w);
    assert(word.skip(w.len() as int + 1) =~= scope);
    let i = w.index_of(':');
    assert(word[i] == ':');
    addr::literal_has_one_family(word);
}

/// A scope that is a number stands for itself. Any other is the name of an
/// interface and stands for the index of the first interface of that name; a
/// name that no interface has stands for none.
pub proof fn scopes_are_numbers_or_names(
    id: u32,
    name: Seq<char>,
    table: Seq<(Seq<char>, u32)>,
    k: int,
)
    ensures
        scope_in(text::dec(id as nat), table) == Some(id),
        text::u32_in(name) is None && 0 <= k < table.len() && table[k].0 == name && table[k].1 != 0
            && (forall|j: int| 0 <= j < k ==> (#[trigger] table[j]).0 != name) ==> scope_in(
            name,
            table,
        ) == Some(table[k].1),
        text::u32_in(name) is None && (forall|j: int|
            0 <= j < table.len() ==> (#[trigger] table[j]).0 != name) ==> scope_in(name, table) is None,
    decreases table.len(),
{
    let n = text::dec(id as nat);
    text::numeral_reads_back(id as nat, 10);
    text::numeral_has_no(id as nat, 10, '+');
    assert(n.contains(n[0]));
    if table.len() > 0 {
        let rest = table.skip(1);
        scopes_are_numbers_or_names(id, name, rest, k - 1);
        assert(forall|j: int| 0 <= j < rest.len() ==> #[trigger] rest[j] == table[j + 1]);
    }
}

/// A datagram answers a query only where the two bytes of its identifier are
/// those of the query.
pub proof fn answer_has_the_identifier(query: Seq<u8>, datagram: Seq<u8>)
    requires
        query.len() >= 2,
        datagram.len() >= 2,
    ensures
        answers(query, datagram) <==> query.take(2) == datagram.take(2),
{
    assert(query.take(2) == datagram.take(2) ==> query.take(2)[0] == datagram.take(2)[0]
        && query.take(2)[1] == datagram.take(2)[1]);
    if query[0] == datagram[0] && query[1] == datagram[1] {
        assert(query.take(2) =~= datagram.take(2));
    }
}

/// Clients resolve through 100.64.0.53, port 53, alone, written as it is or as
/// `::ffff:100.64.0.53`.
pub proof fn proxy_is_one_address(o: [u8; 4], g: [u16; 8], port: u16, scope: u32)
    ensures
        targets_proxy(SocketAddr { ip: IpAddr::V4(o), port, scope }) <==> port == 53
            && crate::server::v4_number(o@) == 0x6440_0035,
        targets_proxy(SocketAddr { ip: IpAddr::V6(g), port, scope }) <==> port == 53 && g@ == seq![
            0u16,
            0u16,
            0u16,
            0u16,
            0u16,
            0xffffu16,
            0x6440u16,
            0x0035u16,
        ],
{
    let mapped = seq![0u16, 0u16, 0u16, 0u16, 0u16, 0xffffu16, 0x6440u16, 0x0035u16];
    if o@ == proxy_ip() {
        assert(o@[0] == 100 && o@[1] == 64 && o@[2] == 0 && o@[3] == 53);
    }
    if crate::server::v4_number(o@) == 0x6440_0035 {
        assert(o@ =~= proxy_ip());
    }
    let m = addr::mapped_octets(g@);
    if addr::is_mapped(g@) && m == proxy_ip() {
        assert(m[0] == 100 && m[1] == 64 && m[2] == 0 && m[3] == 53);
        assert(g@ =~= mapped);
    }
    if g@ == mapped {
        assert(g@[0] == 0 && g@[1] == 0 && g@[2] == 0 && g@[3] == 0 && g@[4] == 0 && g@[5] == 0xffff
            && g@[6] == 0x6440 && g@[7] == 0x35);
        assert(m =~= proxy_ip());
    }
}

} // verus!
