//! Finding the own public address, and punching a hole to the peer's.

use vstd::prelude::*;
use vstd::string::*;
use crate::addr::{IpAddr, SocketAddr};
use crate::bytes;
use crate::fault;
use crate::fault::{Fault, IoFailure};
use crate::identity;
use crate::outside;
use crate::server::BASE_PORT;
use crate::text;
use crate::vocab::Reason;

verus! {

/// The length of a punch marker, in bytes.
pub const PUNCH_MARKER_LEN: usize = 16;

/// How many addresses that the peer is heard from are kept.
pub const MAX_PUNCH_SOURCES: usize = 64;

/// How many more confirmations are sent once a punch has succeeded.
pub const EXTRA_VERIFIES: usize = 3;

/// How many local ports are tried for each server.
pub const PORTS_PER_SERVER: usize = 10;

/// `spora-punch-v1-probe`
pub open spec fn probe_label() -> Seq<u8> {
    seq![
        0x73u8, 0x70u8, 0x6fu8, 0x72u8, 0x61u8, 0x2du8, 0x70u8, 0x75u8, 0x6eu8, 0x63u8, 0x68u8,
        0x2du8, 0x76u8, 0x31u8, 0x2du8, 0x70u8, 0x72u8, 0x6fu8, 0x62u8, 0x65u8,
    ]
}

/// `spora-punch-v1-verify`
pub open spec fn verify_label() -> Seq<u8> {
    seq![
        0x73u8, 0x70u8, 0x6fu8, 0x72u8, 0x61u8, 0x2du8, 0x70u8, 0x75u8, 0x6eu8, 0x63u8, 0x68u8,
        0x2du8, 0x76u8, 0x31u8, 0x2du8, 0x76u8, 0x65u8, 0x72u8, 0x69u8, 0x66u8, 0x79u8,
    ]
}

/// The marker of a label and a secret.
pub open spec fn marker(label: Seq<u8>, secret: Seq<u8>) -> Seq<u8> {
    outside::sha256(label + secret).take(PUNCH_MARKER_LEN as int)
}

fn derive(label: Vec<u8>, secret: &[u8; 16]) -> (m: [u8; 16])
    ensures
        m@ == marker(label@, secret@),
{
    let mut input = label;
    bytes::push_bytes(&mut input, secret);
    let digest = outside::sha256_digest(&input);
    let m = identity::array_16(&digest, 0);
    assert(m@ =~= marker(label@, secret@));
    m
}

/// The markers by which the peers know each other's packets: one to probe, one
/// to confirm. Both peers derive the same from the secret.
pub fn punch_markers(secret: &[u8; 16]) -> (r: ([u8; 16], [u8; 16]))
    ensures
        r.0@ == marker(probe_label(), secret@),
        r.1@ == marker(verify_label(), secret@),
{
    let probe: Vec<u8> = vec![
        0x73u8, 0x70u8, 0x6fu8, 0x72u8, 0x61u8, 0x2du8, 0x70u8, 0x75u8, 0x6eu8, 0x63u8, 0x68u8,
        0x2du8, 0x76u8, 0x31u8, 0x2du8, 0x70u8, 0x72u8, 0x6fu8, 0x62u8, 0x65u8,
    ];
    let verify: Vec<u8> = vec![
        0x73u8, 0x70u8, 0x6fu8, 0x72u8, 0x61u8, 0x2du8, 0x70u8, 0x75u8, 0x6eu8, 0x63u8, 0x68u8,
        0x2du8, 0x76u8, 0x31u8, 0x2du8, 0x76u8, 0x65u8, 0x72u8, 0x69u8, 0x66u8, 0x79u8,
    ];
    assert(probe@ =~= probe_label());
    assert(verify@ =~= verify_label());
    (derive(probe, secret), derive(verify, secret))
}

fn has_addr(v: &Vec<SocketAddr>, a: &SocketAddr) -> (r: bool)
    ensures
        r == v@.contains(*a),
{
    let mut i: usize = 0;
    while i < v.len()
        invariant
            i <= v.len(),
            forall|j: int| 0 <= j < i ==> v@[j] != *a,
        decreases v.len() - i,
    {
        if v[i].same(a) {
            assert(v@[i as int] == *a);
            return true;
        }
        i = i + 1;
    }
    false
}

/// A list with an address that it may hold already.
pub open spec fn with_addr(v: Seq<SocketAddr>, a: SocketAddr) -> Seq<SocketAddr> {
    if v.contains(a) {
        v
    } else {
        v.push(a)
    }
}

/// Whether an address that the peer is heard from is new and there is room for
/// it.
pub open spec fn is_new_source(learned: Seq<SocketAddr>, src: SocketAddr) -> bool {
    !learned.contains(src) && learned.len() < MAX_PUNCH_SOURCES
}

/// Keeps an address that the peer is heard from, which is then punched too.
/// Returns whether it was new and there was room for it.
pub fn record_punch_source(
    learned: &mut Vec<SocketAddr>,
    targets: &mut Vec<SocketAddr>,
    src: SocketAddr,
) -> (added: bool)
    ensures
        added == is_new_source(old(learned)@, src),
        added ==> final(learned)@ == old(learned)@.push(src) && final(targets)@ == with_addr(
            old(targets)@,
            src,
        ),
        !added ==> final(learned)@ == old(learned)@ && final(targets)@ == old(targets)@,
{
    if learned.len() >= MAX_PUNCH_SOURCES || has_addr(learned, &src) {
        return false;
    }
    learned.push(src);
    if !has_addr(targets, &src) {
        targets.push(src);
    }
    true
}

/// What is to be done with a packet that came during a punch.
#[derive(Debug, Clone, Copy, PartialEq, Eq)]
pub enum PunchStep {
    /// It is none of the peer's.
    Ignore,
    /// A confirmation is sent back.
    Reply(SocketAddr),
    /// The path works both ways: a confirmation and a few more are sent back,
    /// and the punch is done.
    Confirmed(SocketAddr),
}

/// What a punch knows: the addresses to probe, those that the peer was heard
/// from, and whether it was heard.
#[verifier::ext_equal]
pub struct PunchParts {
    pub signaled: SocketAddr,
    pub targets: Seq<SocketAddr>,
    pub learned: Seq<SocketAddr>,
    pub heard: bool,
}

/// A punch in progress.
pub struct Punch {
    signaled: SocketAddr,
    targets: Vec<SocketAddr>,
    learned: Vec<SocketAddr>,
    heard: bool,
}

/// Whether a punch keeps to its bounds: it probes the address that the peer has
/// told and those it was heard from, none twice, and not too many.
pub open spec fn punch_ok(p: PunchParts) -> bool {
    &&& p.targets.contains(p.signaled)
    &&& p.targets.no_duplicates()
    &&& p.learned.no_duplicates()
    &&& p.learned.len() <= MAX_PUNCH_SOURCES
    &&& p.targets.len() <= p.learned.len() + 1
    &&& forall|a: SocketAddr| #[trigger] p.learned.contains(a) ==> p.targets.contains(a)
    &&& p.learned.len() > 0 ==> p.heard
}

/// A punch after a packet came, and what is to be done with it.
pub open spec fn punched(
    p: PunchParts,
    msg: Seq<u8>,
    src: SocketAddr,
    probe: Seq<u8>,
    verify: Seq<u8>,
) -> (PunchParts, PunchStep) {
    if msg != probe && msg != verify {
        (p, PunchStep::Ignore)
    } else {
        let next = if is_new_source(p.learned, src) {
            PunchParts {
                learned: p.learned.push(src),
                targets: with_addr(p.targets, src),
                heard: true,
                ..p
            }
        } else {
            PunchParts { heard: true, ..p }
        };
        (
            next,
            if msg == verify {
                PunchStep::Confirmed(src)
            } else {
                PunchStep::Reply(src)
            },
        )
    }
}

/// Twice a time limit, or the largest there is.
pub open spec fn doubled(ms: u64) -> u64 {
    if ms * 2 > u64::MAX {
        u64::MAX
    } else {
        (ms * 2) as u64
    }
}

/// How long a punch may take: both of its phases.
pub fn punch_budget(phase_timeout: u64) -> (ms: u64)
    ensures
        ms == doubled(phase_timeout),
{
    if phase_timeout > u64::MAX / 2 {
        u64::MAX
    } else {
        phase_timeout * 2
    }
}

/// What is said of a punch that took too long.
pub open spec fn punch_timeout(heard: bool, phase_timeout: u64) -> fault::FaultView {
    if heard {
        fault::fault(
            Reason::VerifyTimeout,
            "heard the peer but never confirmed both directions within "@ + text::duration(
                doubled(phase_timeout) as nat,
            ),
        )
    } else {
        fault::fault(
            Reason::PunchTimeout,
            "nothing from the peer within "@ + text::duration(doubled(phase_timeout) as nat),
        )
    }
}

impl Punch {
    pub closed spec fn view(&self) -> PunchParts {
        PunchParts {
            signaled: self.signaled,
            targets: self.targets@,
            learned: self.learned@,
            heard: self.heard,
        }
    }

    /// A punch towards the address that the peer has told.
    pub fn new(signaled: SocketAddr) -> (p: Punch)
        ensures
            punch_ok(p@),
            p@ == (PunchParts {
                signaled,
                targets: seq![signaled],
                learned: Seq::empty(),
                heard: false,
            }),
    {
        let targets = vec![signaled];
        assert(targets@ =~= seq![signaled]);
        assert(targets@[0] == signaled);
        let learned: Vec<SocketAddr> = Vec::new();
        assert(learned@ =~= Seq::empty());
        Punch { signaled, targets, learned, heard: false }
    }

    /// The addresses to probe.
    pub fn targets(&self) -> (v: &Vec<SocketAddr>)
        ensures
            v@ == self@.targets,
    {
        &self.targets
    }

    /// The addresses to send a confirmation to.
    pub fn learned(&self) -> (v: &Vec<SocketAddr>)
        ensures
            v@ == self@.learned,
    {
        &self.learned
    }

    /// What is to be done with a packet that came from `src`.
    pub fn received(&mut self, msg: &[u8], src: SocketAddr, probe: &[u8; 16], verify: &[u8; 16]) -> (s:
        PunchStep)
        requires
            punch_ok(old(self)@),
        ensures
            punch_ok(final(self)@),
            (final(self)@, s) == punched(old(self)@, msg@, src, probe@, verify@),
    {
        let is_verify: bool = bytes::same_bytes(msg, verify);
        if !is_verify && !bytes::same_bytes(msg, probe) {
            return PunchStep::Ignore;
        }
        let ghost before = self@;
        self.heard = true;
        let added: bool = record_punch_source(&mut self.learned, &mut self.targets, src);
        proof {
            source_keeps_bounds(before, src);
        }
        if is_verify {
            PunchStep::Confirmed(src)
        } else {
            PunchStep::Reply(src)
        }
    }

    /// What is said of the punch where it took too long.
    pub fn timed_out(&self, phase_timeout: u64) -> (f: Fault)
        ensures
            f.view() == punch_timeout(self@.heard, phase_timeout),
    {
        let limit = text::duration_text(punch_budget(phase_timeout));
        if self.heard {
            Fault::new(
                Reason::VerifyTimeout,
                String::from_str(
                    "heard the peer but never confirmed both directions within ",
                ).concat(limit.as_str()).as_str(),
            )
        } else {
            Fault::new(
                Reason::PunchTimeout,
                String::from_str("nothing from the peer within ").concat(limit.as_str()).as_str(),
            )
        }
    }
}

proof fn source_keeps_bounds(p: PunchParts, src: SocketAddr)
    requires
        punch_ok(p),
    ensures
        punch_ok(PunchParts { heard: true, ..p }),
        is_new_source(p.learned, src) ==> punch_ok(
            PunchParts {
                learned: p.learned.push(src),
                targets: with_addr(p.targets, src),
                heard: true,
                ..p
            },
        ),
{
    if is_new_source(p.learned, src) {
        let learned = p.learned.push(src);
        let targets = with_addr(p.targets, src);
        let k = p.targets.index_of(p.signaled);
        assert(targets[k] == p.signaled);
        assert forall|a: SocketAddr| #[trigger] learned.contains(a) implies targets.contains(a) by {
            let i = learned.index_of(a);
            if i < p.learned.len() {
                assert(p.learned[i] == a);
                assert(p.learned.contains(a));
                assert(p.targets.contains(a));
                let j = p.targets.index_of(a);
                assert(targets[j] == a);
            } else if p.targets.contains(a) {
                let j = p.targets.index_of(a);
                assert(targets[j] == a);
            } else {
                assert(targets.last() == a);
            }
        }
    }
}

/// Whoever sends packets, the address that the peer has told is probed, and
/// never more than one address beyond those that are kept.
pub proof fn flood_costs_nothing(p: PunchParts)
    requires
        punch_ok(p),
    ensures
        p.targets.contains(p.signaled),
        p.targets.len() <= MAX_PUNCH_SOURCES + 1,
        p.learned.len() <= MAX_PUNCH_SOURCES,
{
}

/// A punch is done only on a confirmation, which the peer sends only once it
/// has heard of this side.
pub proof fn done_only_when_confirmed(
    p: PunchParts,
    msg: Seq<u8>,
    src: SocketAddr,
    probe: Seq<u8>,
    verify: Seq<u8>,
)
    ensures
        punched(p, msg, src, probe, verify).1 is Confirmed <==> msg == verify,
        punched(p, msg, src, probe, verify).1 is Ignore <==> msg != probe && msg != verify,
        punched(p, msg, src, probe, verify).1 is Ignore ==> punched(p, msg, src, probe, verify).0
            == p,
{
}

/// The addresses of one family among the first `n`, in order.
pub open spec fn of_family(v: Seq<SocketAddr>, v6: bool, n: int) -> Seq<SocketAddr>
    decreases n,
{
    if n <= 0 {
        Seq::empty()
    } else {
        let before = of_family(v, v6, n - 1);
        if (v[n - 1].ip is V6) == v6 {
            before.push(v[n - 1])
        } else {
            before
        }
    }
}

/// The addresses of a server, with those of the preferred family first.
pub open spec fn candidates(found: Seq<SocketAddr>, prefer_ipv6: bool) -> Seq<SocketAddr> {
    of_family(found, prefer_ipv6, found.len() as int) + of_family(
        found,
        !prefer_ipv6,
        found.len() as int,
    )
}

fn push_family(found: &Vec<SocketAddr>, v6: bool, out: &mut Vec<SocketAddr>)
    ensures
        final(out)@ == old(out)@ + of_family(found@, v6, found@.len() as int),
{
    let ghost before = out@;
    let mut i: usize = 0;
    assert(out@ =~= before + of_family(found@, v6, 0));
    while i < found.len()
        invariant
            i <= found@.len(),
            out@ == before + of_family(found@, v6, i as int),
        decreases found.len() - i,
    {
        if found[i].is_ipv6() == v6 {
            out.push(found[i]);
        }
        assert(out@ =~= before + of_family(found@, v6, i + 1));
        i = i + 1;
    }
}

/// What to try next in finding the own public address: bind a local address
/// and ask a server.
#[derive(Debug, Clone, Copy, PartialEq, Eq)]
pub struct PierceTry {
    pub local: SocketAddr,
    pub server: SocketAddr,
}

/// The attempt after `n` others: for each server in turn, ten local ports.
pub open spec fn nth_try(servers: Seq<SocketAddr>, n: nat) -> Option<PierceTry> {
    let at = n / 10;
    if at < servers.len() {
        let server = servers[at as int];
        Some(
            PierceTry {
                local: SocketAddr {
                    ip: if server.ip is V6 {
                        IpAddr::V6([0u16, 0u16, 0u16, 0u16, 0u16, 0u16, 0u16, 0u16])
                    } else {
                        IpAddr::V4([0u8, 0u8, 0u8, 0u8])
                    },
                    port: (BASE_PORT + n % 10) as u16,
                    scope: 0,
                },
                server,
            },
        )
    } else {
        None
    }
}

/// The search for the own public address: the servers to ask, how many
/// attempts were made, and how the last one failed.
pub struct Pierce {
    servers: Vec<SocketAddr>,
    tried: usize,
    port: u16,
    last: Option<Fault>,
}

/// What a search holds.
pub struct PierceParts {
    pub servers: Seq<SocketAddr>,
    pub tries: nat,
    pub last: Option<fault::FaultView>,
}

/// A fault, where there is one.
pub open spec fn opt_fault(f: Option<Fault>) -> Option<fault::FaultView> {
    match f {
        Some(x) => Some(x.view()),
        None => None,
    }
}

impl Pierce {
    pub closed spec fn view(&self) -> PierceParts {
        PierceParts {
            servers: self.servers@,
            tries: (self.tried * 10 + (self.port - BASE_PORT)) as nat,
            last: opt_fault(self.last),
        }
    }

    /// Whether the search is at a server and a port of it.
    pub closed spec fn wf(&self) -> bool {
        BASE_PORT <= self.port < BASE_PORT + 10 && self.tried <= self.servers@.len()
            && (self.tried == self.servers@.len() ==> self.port == BASE_PORT)
    }

    /// Starts a search; `found` is what the server's name resolves to. Addresses
    /// of the preferred family are tried first.
    pub fn start(server: &str, found: Result<Vec<SocketAddr>, String>, prefer_ipv6: bool) -> (r: Result<
        Pierce,
        Fault,
    >)
        ensures
            match found {
                Err(e) => r matches Err(f) && f.view() == fault::fault(
                    Reason::DnsFailure,
                    "resolve stun "@ + server@ + ": "@ + e@,
                ),
                Ok(v) => if candidates(v@, prefer_ipv6).len() == 0 {
                    r matches Err(f) && f.view() == fault::fault(
                        Reason::DnsNoRecords,
                        "stun "@ + server@ + " resolved to no address"@,
                    )
                } else {
                    r matches Ok(p) && p.wf() && p@ == (PierceParts {
                        servers: candidates(v@, prefer_ipv6),
                        tries: 0,
                        last: None,
                    })
                },
            },
    {
        match found {
            Err(e) => {
                let mut s = String::from_str("resolve stun ");
                s.append(server);
                s.append(": ");
                s.append(e.as_str());
                Err(Fault::new(Reason::DnsFailure, s.as_str()))
            },
            Ok(v) => {
                let mut servers: Vec<SocketAddr> = Vec::new();
                push_family(&v, prefer_ipv6, &mut servers);
                push_family(&v, !prefer_ipv6, &mut servers);
                assert(servers@ =~= candidates(v@, prefer_ipv6));
                if servers.len() == 0 {
                    let mut s = String::from_str("stun ");
                    s.append(server);
                    s.append(" resolved to no address");
                    return Err(Fault::new(Reason::DnsNoRecords, s.as_str()));
                }
                Ok(Pierce { servers, tried: 0, port: BASE_PORT, last: None })
            },
        }
    }

    /// What to try next; once all was tried, how the last attempt failed.
    pub fn next(&self) -> (r: Result<PierceTry, Fault>)
        requires
            self.wf(),
        ensures
            match nth_try(self@.servers, self@.tries) {
                Some(t) => r matches Ok(x) && x == t,
                None => r matches Err(f) && f.view() == (match self@.last {
                    Some(x) => x,
                    None => fault::fault(Reason::StunFailed, "no STUN candidate could be tried"@),
                }),
            },
    {
        proof {
            assert(self@.tries / 10 == self.tried);
            assert(self@.tries % 10 == self.port - BASE_PORT);
        }
        if self.tried >= self.servers.len() {
            return match &self.last {
                Some(f) => Err(f.clone()),
                None => Err(Fault::new(Reason::StunFailed, "no STUN candidate could be tried")),
            };
        }
        let server = self.servers[self.tried];
        let ip = if server.is_ipv6() {
            IpAddr::V6([0u16, 0u16, 0u16, 0u16, 0u16, 0u16, 0u16, 0u16])
        } else {
            IpAddr::V4([0u8, 0u8, 0u8, 0u8])
        };
        Ok(PierceTry { local: SocketAddr::new(ip, self.port), server })
    }

    fn advance(&mut self, f: Fault)
        requires
            old(self).wf(),
            nth_try(old(self)@.servers, old(self)@.tries) is Some,
        ensures
            final(self).wf(),
            final(self)@ == (PierceParts {
                servers: old(self)@.servers,
                tries: old(self)@.tries + 1,
                last: Some(f.view()),
            }),
    {
        proof {
            assert(self@.tries / 10 == self.tried);
            assert(self.tried < self.servers.len());
        }
        self.last = Some(f);
        if self.port == BASE_PORT + 9 {
            self.port = BASE_PORT;
            self.tried = self.tried + 1;
        } else {
            self.port = self.port + 1;
        }
    }

    /// The local address could not be bound.
    pub fn bind_failed(&mut self, local: &SocketAddr, e: &IoFailure)
        requires
            old(self).wf(),
            nth_try(old(self)@.servers, old(self)@.tries) is Some,
        ensures
            final(self).wf(),
            final(self)@.servers == old(self)@.servers,
            final(self)@.tries == old(self)@.tries + 1,
            final(self)@.last == Some(
                fault::fault(
                    fault::io_reason(e.kind, e.os),
                    "bind "@ + local.text() + ": "@ + e.text@,
                ),
            ),
    {
        let f = Fault::from_io(e).context(
            String::from_str("bind ").concat(local.to_text().as_str()).as_str(),
        );
        self.advance(f);
    }

    /// The server gave no usable answer.
    pub fn query_failed(&mut self, t: &PierceTry, e: &str)
        requires
            old(self).wf(),
            nth_try(old(self)@.servers, old(self)@.tries) is Some,
        ensures
            final(self).wf(),
            final(self)@.servers == old(self)@.servers,
            final(self)@.tries == old(self)@.tries + 1,
            final(self)@.last == Some(
                fault::fault(
                    Reason::StunTimeout,
                    "stun query to "@ + t.server.text() + " from :"@ + text::dec(
                        t.local.port as nat,
                    ) + ": "@ + e@,
                ),
            ),
    {
        let mut s = String::from_str("stun query to ");
        s.append(t.server.to_text().as_str());
        s.append(" from :");
        s.append(text::dec_text(t.local.port as u64).as_str());
        s.append(": ");
        s.append(e);
        self.advance(Fault::new(Reason::StunTimeout, s.as_str()));
    }
}

/// Every server is asked from each of ten local ports before the next one is,
/// and the search then ends.
pub proof fn every_server_is_asked(servers: Seq<SocketAddr>, i: int, k: int)
    requires
        0 <= i < servers.len(),
        0 <= k < 10,
    ensures
        nth_try(servers, (i * 10 + k) as nat) matches Some(t) && t.server == servers[i]
            && t.local.port == BASE_PORT + k && t.local.ip is V6 == servers[i].ip is V6,
        nth_try(servers, (servers.len() * 10) as nat) is None,
{
    assert((i * 10 + k) / 10 == i && (i * 10 + k) % 10 == k);
}

/// A peer is answered where its packet came from: a probe is replied to, a
/// verify packet confirms that address. The address is a target from then on,
/// as long as fewer than 64 have been learned, and no target is ever lost.
pub proof fn heard_peer_becomes_a_target(
    p: PunchParts,
    msg: Seq<u8>,
    src: SocketAddr,
    probe: Seq<u8>,
    verify: Seq<u8>,
)
    requires
        punch_ok(p),
        msg == probe || msg == verify,
    ensures
        ({
            let (next, step) = punched(p, msg, src, probe, verify);
            &&& msg == verify ==> step == PunchStep::Confirmed(src)
            &&& msg != verify ==> step == PunchStep::Reply(src)
            &&& next.heard
            &&& next.signaled == p.signaled
            &&& p.learned.len() < 64 ==> next.targets.contains(src) && next.learned.contains(src)
            &&& p.learned.len() >= 64 ==> next.targets == p.targets && next.learned == p.learned
            &&& next.targets.len() >= p.targets.len() && next.targets.take(p.targets.len() as int)
                == p.targets
            &&& next.learned.len() >= p.learned.len() && next.learned.take(p.learned.len() as int)
                == p.learned
            &&& forall|a: SocketAddr|
                a != src ==> (#[trigger] next.targets.contains(a) <==> p.targets.contains(a))
        }),
{
    let (next, step) = punched(p, msg, src, probe, verify);
    assert(next.targets.take(p.targets.len() as int) =~= p.targets);
    assert(next.learned.take(p.learned.len() as int) =~= p.learned);
    if is_new_source(p.learned, src) {
        assert(next.learned.last() == src);
        if !p.targets.contains(src) {
            assert(next.targets.last() == src);
        }
    }
    assert forall|a: SocketAddr| a != src implies (#[trigger] next.targets.contains(a)
        <==> p.targets.contains(a)) by {
        if p.targets.contains(a) {
            let k = p.targets.index_of(a);
            assert(next.targets[k] == a);
        }
        if next.targets.contains(a) {
            let k = next.targets.index_of(a);
            assert(p.targets[k] == a);
        }
    }
}

/// A punch that nobody confirmed says whether the peer was heard at all, and
/// lasts twice as long as one of its phases.
pub proof fn timeout_says_whether_the_peer_was_heard(heard: bool, phase_timeout: u64)
    ensures
        punch_timeout(heard, phase_timeout).reason == if heard {
            Reason::VerifyTimeout
        } else {
            Reason::PunchTimeout
        },
        2 * phase_timeout <= u64::MAX ==> doubled(phase_timeout) == 2 * phase_timeout,
        2 * phase_timeout > u64::MAX ==> doubled(phase_timeout) == u64::MAX,
{
}

proof fn lemma_of_family(v: Seq<SocketAddr>, v6: bool, n: int)
    requires
        0 <= n <= v.len(),
    ensures
        of_family(v, v6, n) == v.take(n).filter(|a: SocketAddr| (a.ip is V6) == v6),
    decreases n,
{
    reveal(Seq::filter);
    if n > 0 {
        lemma_of_family(v, v6, n - 1);
        assert(v.take(n).drop_last() =~= v.take(n - 1));
    }
}

/// Every address that was found for a server is asked, and no other; those of
/// the preferred family come before all of the other, and within a family they
/// keep their order.
pub proof fn preferred_family_is_asked_first(found: Seq<SocketAddr>, prefer_ipv6: bool)
    ensures
        ({
            let cs = candidates(found, prefer_ipv6);
            let first = found.filter(|a: SocketAddr| (a.ip is V6) == prefer_ipv6);
            let second = found.filter(|a: SocketAddr| (a.ip is V6) != prefer_ipv6);
            &&& cs == first + second
            &&& cs.len() == found.len()
            &&& forall|a: SocketAddr| #[trigger] cs.contains(a) <==> found.contains(a)
            &&& forall|i: int, j: int|
                0 <= i < j < cs.len() && (#[trigger] cs[j]).ip is V6 == prefer_ipv6 ==> (
                #[trigger] cs[i]).ip is V6 == prefer_ipv6
        }),
{
    let cs = candidates(found, prefer_ipv6);
    let is_first = |a: SocketAddr| (a.ip is V6) == prefer_ipv6;
    let is_second = |a: SocketAddr| (a.ip is V6) != prefer_ipv6;
    let other = |a: SocketAddr| (a.ip is V6) == !prefer_ipv6;
    let n = found.len() as int;
    assert(is_second =~= other);
    lemma_of_family(found, prefer_ipv6, n);
    lemma_of_family(found, !prefer_ipv6, n);
    assert(found.take(n) =~= found);
    let first = found.filter(is_first);
    let second = found.filter(is_second);
    lemma_parted(found, is_first, is_second);
    assert forall|a: SocketAddr| #[trigger] cs.contains(a) <==> found.contains(a) by {
        if cs.contains(a) {
            let k = cs.index_of(a);
            if k < first.len() {
                assert(first[k] == a);
                found.lemma_filter_contains_rev(is_first, a);
            } else {
                assert(second[k - first.len()] == a);
                found.lemma_filter_contains_rev(is_second, a);
            }
        }
        if found.contains(a) {
            let i = found.index_of(a);
            if is_first(a) {
                found.lemma_filter_contains(is_first, i);
                let k = first.index_of(a);
                assert(cs[k] == a);
            } else {
                found.lemma_filter_contains(is_second, i);
                let k = second.index_of(a);
                assert(cs[first.len() + k] == a);
            }
        }
    }
    assert forall|i: int, j: int|
        0 <= i < j < cs.len() && (#[trigger] cs[j]).ip is V6 == prefer_ipv6 implies (
    #[trigger] cs[i]).ip is V6 == prefer_ipv6 by {
        if j >= first.len() {
            found.lemma_filter_pred(is_second, j - first.len());
        }
        found.lemma_filter_pred(is_first, i);
    }
}

proof fn lemma_parted(
    v: Seq<SocketAddr>,
    p: spec_fn(SocketAddr) -> bool,
    q: spec_fn(SocketAddr) -> bool,
)
    requires
        forall|a: SocketAddr| #[trigger] p(a) != q(a),
    ensures
        v.filter(p).len() + v.filter(q).len() == v.len(),
    decreases v.len(),
{
    reveal(Seq::filter);
    if v.len() > 0 {
        lemma_parted(v.drop_last(), p, q);
    }
}

/// The two markers of a secret differ in what they are derived from, so that a
/// probe is not taken for a confirmation; each is the beginning of the digest,
/// with the label in front of the secret.
pub proof fn markers_are_of_their_labels(secret: Seq<u8>)
    requires
        secret.len() == 16,
    ensures
        probe_label() + secret != verify_label() + secret,
        forall|label: Seq<u8>, i: int|
            0 <= i < 16 && outside::sha256(label + secret).len() >= 16 ==> (#[trigger] marker(
                label,
                secret,
            )[i]) == outside::sha256(label + secret)[i],
        forall|label: Seq<u8>|
            outside::sha256(label + secret).len() >= 16 ==> (#[trigger] marker(label, secret)).len()
                == 16,
{
    assert((probe_label() + secret).len() != (verify_label() + secret).len());
}

} // verus!
