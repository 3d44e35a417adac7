//! From configured endpoints to addresses to dial.

use vstd::prelude::*;
use vstd::string::*;
use crate::addr;
use crate::addr::SocketAddr;
use crate::fault;
use crate::fault::Fault;
use crate::identity::{RelayEndpoint, RelayProtocol};
use crate::report;
use crate::report::{EndingView, ReportView, StepReport};
use crate::text;
use crate::vocab::{Reason, StepKind};

verus! {

/// What a name resolves to: addresses, or the words of a failure.
pub type Lookup = Result<Vec<SocketAddr>, String>;

/// A host without the brackets round an IPv6 literal.
pub open spec fn bare_host(host: Seq<char>) -> Seq<char> {
    if host.len() >= 2 && host[0] == '[' && host.last() == ']' {
        host.subrange(1, host.len() - 1)
    } else {
        host
    }
}

/// The address of an endpoint whose host is an IP literal.
pub open spec fn literal(host: Seq<char>, port: u16) -> Option<SocketAddr> {
    match addr::ip_in(bare_host(host)) {
        Some(ip) => Some(SocketAddr { ip, port, scope: 0 }),
        None => None,
    }
}

/// The address of an endpoint whose host is an IP literal, in brackets or not;
/// such an endpoint is not looked up.
pub fn literal_addr(relay: &RelayEndpoint) -> (r: Option<SocketAddr>)
    ensures
        r == literal(relay.host@, relay.port),
{
    let host = text::chars_of(relay.host.as_str());
    let n: usize = host.len();
    let bare = if n >= 2 && host[0] == '[' && host[n - 1] == ']' {
        text::copy_chars(&host, 1, n - 1)
    } else {
        text::copy_chars(&host, 0, n)
    };
    assert(bare@ =~= bare_host(relay.host@));
    match addr::parse_ip(&bare) {
        Some(ip) => Some(SocketAddr::new(ip, relay.port)),
        None => None,
    }
}

/// An endpoint as `host:port`.
pub open spec fn host_port(relay: RelayEndpoint) -> Seq<char> {
    relay.host@ + ":"@ + text::dec(relay.port as nat)
}

/// The addresses of an endpoint: that of its literal, or those that its name
/// resolves to.
pub open spec fn resolved(relay: RelayEndpoint, dns: Lookup) -> Result<Seq<SocketAddr>, fault::FaultView> {
    match literal(relay.host@, relay.port) {
        Some(a) => Ok(seq![a]),
        None => match dns {
            Ok(found) => if found@.len() == 0 {
                Err(fault::fault(Reason::DnsNoRecords, "no address for relay "@ + host_port(relay)))
            } else {
                Ok(found@)
            },
            Err(e) => Err(
                fault::fault(
                    Reason::DnsFailure,
                    "resolve relay "@ + host_port(relay) + " failed: "@ + e@,
                ),
            ),
        },
    }
}

fn copy_addrs(v: &Vec<SocketAddr>) -> (out: Vec<SocketAddr>)
    ensures
        out@ == v@,
{
    let mut out: Vec<SocketAddr> = Vec::new();
    let mut i: usize = 0;
    while i < v.len()
        invariant
            i <= v.len(),
            out@ == v@.take(i as int),
        decreases v.len() - i,
    {
        out.push(v[i]);
        i = i + 1;
    }
    out
}

/// The addresses of an endpoint; `dns` is what its name resolves to, which
/// counts only where the host is no IP literal.
pub fn resolve_one_relay(relay: &RelayEndpoint, dns: &Lookup) -> (r: Result<Vec<SocketAddr>, Fault>)
    ensures
        match r {
            Ok(v) => resolved(*relay, *dns) == Ok::<Seq<SocketAddr>, fault::FaultView>(v@),
            Err(f) => resolved(*relay, *dns) == Err::<Seq<SocketAddr>, fault::FaultView>(f.view()),
        },
{
    if let Some(a) = literal_addr(relay) {
        let v = vec![a];
        assert(v@ =~= seq![a]);
        return Ok(v);
    }
    let name = relay.host.clone().concat(":").concat(text::dec_text(relay.port as u64).as_str());
    match dns {
        Ok(found) => {
            if found.len() == 0 {
                return Err(
                    Fault::new(
                        Reason::DnsNoRecords,
                        String::from_str("no address for relay ").concat(name.as_str()).as_str(),
                    ),
                );
            }
            Ok(copy_addrs(found))
        },
        Err(e) => {
            let mut s = String::from_str("resolve relay ");
            s.append(name.as_str());
            s.append(" failed: ");
            s.append(e.as_str());
            Err(Fault::new(Reason::DnsFailure, s.as_str()))
        },
    }
}

/// Something to dial: an address and the protocol to dial it with.
pub type Target = (SocketAddr, RelayProtocol);

/// `out` with the addresses of one endpoint that it does not hold yet.
pub open spec fn with_all(out: Seq<Target>, found: Seq<SocketAddr>, p: RelayProtocol) -> Seq<Target>
    decreases found.len(),
{
    if found.len() == 0 {
        out
    } else {
        let before = with_all(out, found.drop_last(), p);
        if before.contains((found.last(), p)) {
            before
        } else {
            before.push((found.last(), p))
        }
    }
}

/// What the first `n` endpoints resolve to, each address once for a protocol.
/// An endpoint that does not resolve is passed over.
pub open spec fn all_resolved(relays: Seq<RelayEndpoint>, dns: Seq<Lookup>, n: int) -> Seq<Target>
    decreases n,
{
    if n <= 0 {
        Seq::empty()
    } else {
        let before = all_resolved(relays, dns, n - 1);
        match resolved(relays[n - 1], dns[n - 1]) {
            Ok(found) => with_all(before, found, relays[n - 1].protocol),
            Err(_) => before,
        }
    }
}

fn has_target(v: &Vec<Target>, t: &Target) -> (r: bool)
    ensures
        r == v@.contains(*t),
{
    let mut i: usize = 0;
    while i < v.len()
        invariant
            i <= v.len(),
            forall|j: int| 0 <= j < i ==> v@[j] != *t,
        decreases v.len() - i,
    {
        if v[i].0.same(&t.0) && v[i].1 == t.1 {
            assert(v@[i as int] == *t);
            return true;
        }
        i = i + 1;
    }
    false
}

/// The words for endpoints of which none resolves.
pub open spec fn nothing_resolved() -> fault::FaultView {
    fault::fault(Reason::DnsNoRecords, "no relay address resolved from the configured relays"@)
}

/// What the endpoints resolve to, in order, each address once for a protocol.
/// `dns` holds what each endpoint's name resolves to. An endpoint that does
/// not resolve is passed over; it is an error if none does.
pub fn resolve_relays(relays: &Vec<RelayEndpoint>, dns: &Vec<Lookup>) -> (r: Result<
    Vec<Target>,
    Fault,
>)
    requires
        relays@.len() == dns@.len(),
    ensures
        ({
            let all = all_resolved(relays@, dns@, relays@.len() as int);
            match r {
                Ok(v) => v@ == all && v@.len() > 0,
                Err(f) => all.len() == 0 && f.view() == nothing_resolved(),
            }
        }),
{
    let mut out: Vec<Target> = Vec::new();
    let mut i: usize = 0;
    while i < relays.len()
        invariant
            i <= relays@.len() == dns@.len(),
            out@ == all_resolved(relays@, dns@, i as int),
        decreases relays.len() - i,
    {
        match resolve_one_relay(&relays[i], &dns[i]) {
            Ok(found) => {
                let p = relays[i].protocol;
                let ghost before = out@;
                let mut k: usize = 0;
                assert(found@.take(0) =~= Seq::empty());
                while k < found.len()
                    invariant
                        k <= found@.len(),
                        out@ == with_all(before, found@.take(k as int), p),
                    decreases found.len() - k,
                {
                    assert(found@.take(k + 1).drop_last() =~= found@.take(k as int));
                    let t = (found[k], p);
                    if !has_target(&out, &t) {
                        out.push(t);
                    }
                    k = k + 1;
                }
                assert(found@.take(k as int) =~= found@);
            },
            Err(_) => {},
        }
        i = i + 1;
    }
    if out.len() == 0 {
        return Err(
            Fault::new(
                Reason::DnsNoRecords,
                "no relay address resolved from the configured relays",
            ),
        );
    }
    Ok(out)
}

/// The targets of one family among the first `n`, in order.
pub open spec fn of_family(v: Seq<Target>, v6: bool, n: int) -> Seq<Target>
    decreases n,
{
    if n <= 0 {
        Seq::empty()
    } else {
        let before = of_family(v, v6, n - 1);
        if (v[n - 1].0.ip is V6) == v6 {
            before.push(v[n - 1])
        } else {
            before
        }
    }
}

/// Targets with those over IPv6 first; within a family the order stays.
pub open spec fn v6_first(v: Seq<Target>) -> Seq<Target> {
    of_family(v, true, v.len() as int) + of_family(v, false, v.len() as int)
}

/// Targets with those over IPv6 first; within a family the order stays.
pub fn prefer_v6(v: &Vec<Target>) -> (out: Vec<Target>)
    ensures
        out@ == v6_first(v@),
{
    let mut out: Vec<Target> = Vec::new();
    let mut i: usize = 0;
    while i < v.len()
        invariant
            i <= v@.len(),
            out@ == of_family(v@, true, i as int),
        decreases v.len() - i,
    {
        if v[i].0.is_ipv6() {
            out.push(v[i]);
        }
        i = i + 1;
    }
    let ghost six = out@;
    i = 0;
    assert(out@ =~= six + of_family(v@, false, 0));
    while i < v.len()
        invariant
            i <= v@.len(),
            out@ == six + of_family(v@, false, i as int),
        decreases v.len() - i,
    {
        if !v[i].0.is_ipv6() {
            out.push(v[i]);
            assert(out@ =~= six + of_family(v@, false, i + 1));
        }
        i = i + 1;
    }
    out
}

/// What the endpoints resolve to, with those over IPv6 first.
pub fn resolve_relays_preferring_v6(relays: &Vec<RelayEndpoint>, dns: &Vec<Lookup>) -> (r: Result<
    Vec<Target>,
    Fault,
>)
    requires
        relays@.len() == dns@.len(),
    ensures
        ({
            let all = all_resolved(relays@, dns@, relays@.len() as int);
            match r {
                Ok(v) => v@ == v6_first(all) && all.len() > 0,
                Err(f) => all.len() == 0 && f.view() == nothing_resolved(),
            }
        }),
{
    match resolve_relays(relays, dns) {
        Ok(v) => Ok(prefer_v6(&v)),
        Err(f) => Err(f),
    }
}

/// Copies targets.
pub fn copy_targets(v: &Vec<Target>) -> (out: Vec<Target>)
    ensures
        out@ == v@,
{
    let mut out: Vec<Target> = Vec::new();
    let mut i: usize = 0;
    while i < v.len()
        invariant
            i <= v.len(),
            out@ == v@.take(i as int),
        decreases v.len() - i,
    {
        out.push(v[i]);
        i = i + 1;
    }
    out
}

/// The words for targets to try.
pub open spec fn to_try(n: nat) -> Seq<char> {
    text::dec(n) + " endpoint(s) to try"@
}

/// What is recorded of endpoints that resolved.
pub fn resolved_report(n: usize) -> (s: StepReport)
    ensures
        s.view() == (ReportView {
            detail: Some(to_try(n as nat)),
            ..report::done(StepKind::RelayResolve)
        }),
{
    StepReport::new(StepKind::RelayResolve).detail(
        text::dec_text(n as u64).concat(" endpoint(s) to try").as_str(),
    )
}

/// The targets of a dial, from what the endpoints resolve to now. A failure
/// falls back to the targets that are known from before; a success replaces
/// them.
pub fn resolve_for_dial(found: Result<Vec<Target>, Fault>, known: &mut Vec<Target>) -> (r: (
    Vec<Target>,
    StepReport,
))
    ensures
        match found {
            Ok(v) => {
                &&& r.0@ == v@
                &&& final(known)@ == v@
                &&& r.1.view() == (ReportView {
                    detail: Some(to_try(v@.len())),
                    ..report::done(StepKind::RelayResolve)
                })
            },
            Err(f) => {
                &&& r.0@ == old(known)@
                &&& final(known)@ == old(known)@
                &&& r.1.view() == (ReportView {
                    ending: EndingView::Failed(
                        fault::fault(
                            f.reason,
                            f.detail@ + "; falling back to "@ + text::dec(old(known)@.len())
                                + " previously resolved address(es)"@,
                        ),
                    ),
                    ..report::done(StepKind::RelayResolve)
                })
            },
        },
{
    match found {
        Ok(v) => {
            let s = resolved_report(v.len());
            *known = copy_targets(&v);
            (v, s)
        },
        Err(f) => {
            let mut d = f.detail.clone();
            d.append("; falling back to ");
            d.append(text::dec_text(known.len() as u64).as_str());
            d.append(" previously resolved address(es)");
            let s = StepReport::new(StepKind::RelayResolve).fail(f.reason, d.as_str());
            (copy_targets(known), s)
        },
    }
}

proof fn with_all_keeps_distinct(out: Seq<Target>, found: Seq<SocketAddr>, p: RelayProtocol)
    requires
        out.no_duplicates(),
    ensures
        with_all(out, found, p).no_duplicates(),
    decreases found.len(),
{
    if found.len() > 0 {
        with_all_keeps_distinct(out, found.drop_last(), p);
    }
}

/// No address is dialed twice with the same protocol.
pub proof fn targets_are_distinct(relays: Seq<RelayEndpoint>, dns: Seq<Lookup>, n: int)
    requires
        0 <= n <= relays.len(),
        relays.len() == dns.len(),
    ensures
        all_resolved(relays, dns, n).no_duplicates(),
    decreases n,
{
    if n > 0 {
        targets_are_distinct(relays, dns, n - 1);
        match resolved(relays[n - 1], dns[n - 1]) {
            Ok(found) => with_all_keeps_distinct(
                all_resolved(relays, dns, n - 1),
                found,
                relays[n - 1].protocol,
            ),
            Err(_) => {},
        }
    }
}

proof fn with_all_grows(out: Seq<Target>, found: Seq<SocketAddr>, p: RelayProtocol, t: Target)
    ensures
        with_all(out, found, p).contains(t) <==> out.contains(t) || (t.1 == p && found.contains(
            t.0,
        )),
    decreases found.len(),
{
    if found.len() > 0 {
        let init = found.drop_last();
        let before = with_all(out, init, p);
        with_all_grows(out, init, p, t);
        let last = (found.last(), p);
        let after = with_all(out, found, p);
        if found.contains(t.0) {
            let i = found.index_of(t.0);
            if i < init.len() {
                assert(init[i] == t.0);
            }
        }
        if init.contains(t.0) {
            let i = init.index_of(t.0);
            assert(found[i] == t.0);
        }
        if t == last {
            assert(found[found.len() - 1] == t.0);
            if !before.contains(last) {
                assert(after.last() == t);
            }
        }
        if before.contains(t) {
            let i = before.index_of(t);
            assert(after[i] == t);
        }
        if after.contains(t) {
            let i = after.index_of(t);
            if i < before.len() {
                assert(before[i] == t);
            }
        }
    }
}

/// A target is dialed if and only if some endpoint of its protocol resolves to
/// its address: an endpoint that does not resolve takes none of the others with
/// it.
pub proof fn each_endpoint_counts(relays: Seq<RelayEndpoint>, dns: Seq<Lookup>, n: int, t: Target)
    requires
        0 <= n <= relays.len(),
        relays.len() == dns.len(),
    ensures
        all_resolved(relays, dns, n).contains(t) <==> exists|i: int|
            0 <= i < n && (#[trigger] relays[i]).protocol == t.1 && (
            resolved(relays[i], dns[i]) matches Ok(found) && found.contains(t.0)),
    decreases n,
{
    if n > 0 {
        each_endpoint_counts(relays, dns, n - 1, t);
        let before = all_resolved(relays, dns, n - 1);
        match resolved(relays[n - 1], dns[n - 1]) {
            Ok(found) => {
                with_all_grows(before, found, relays[n - 1].protocol, t);
                if t.1 == relays[n - 1].protocol && found.contains(t.0) {
                    assert(relays[n - 1].protocol == t.1);
                }
            },
            Err(_) => {},
        }
        if before.contains(t) {
            let i = choose|i: int|
                0 <= i < n - 1 && (#[trigger] relays[i]).protocol == t.1 && (
                resolved(relays[i], dns[i]) matches Ok(found) && found.contains(t.0));
            assert(relays[i].protocol == t.1);
        }
    }
}

proof fn family_is_pure(v: Seq<Target>, v6: bool, n: int)
    requires
        0 <= n <= v.len(),
    ensures
        forall|i: int|
            0 <= i < of_family(v, v6, n).len() ==> ((#[trigger] of_family(v, v6, n)[i]).0.ip is V6)
                == v6,
        of_family(v, true, n).len() + of_family(v, false, n).len() == n,
    decreases n,
{
    if n > 0 {
        family_is_pure(v, v6, n - 1);
    }
}

/// IPv6 comes first, and nothing is lost.
pub proof fn v6_is_tried_first(v: Seq<Target>, i: int, j: int)
    requires
        0 <= i < j < v6_first(v).len(),
    ensures
        v6_first(v).len() == v.len(),
        v6_first(v)[j].0.ip is V6 ==> v6_first(v)[i].0.ip is V6,
{
    let n = v.len() as int;
    family_is_pure(v, true, n);
    family_is_pure(v, false, n);
    let a = of_family(v, true, n);
    if j >= a.len() {
        assert(v6_first(v)[j] == of_family(v, false, n)[j - a.len()]);
    }
}

proof fn prefix_decides(
    a: Seq<RelayEndpoint>,
    a_dns: Seq<Lookup>,
    b: Seq<RelayEndpoint>,
    b_dns: Seq<Lookup>,
    n: int,
)
    requires
        forall|i: int| 0 <= i < n ==> #[trigger] a[i] == b[i],
        forall|i: int| 0 <= i < n ==> #[trigger] a_dns[i] == b_dns[i],
    ensures
        all_resolved(a, a_dns, n) == all_resolved(b, b_dns, n),
    decreases n,
{
    if n > 0 {
        prefix_decides(a, a_dns, b, b_dns, n - 1);
        assert(a[n - 1] == b[n - 1]);
        assert(a_dns[n - 1] == b_dns[n - 1]);
    }
}

proof fn parts_resolve(
    relays: Seq<RelayEndpoint>,
    dns: Seq<Lookup>,
    m: int,
    found: Seq<SocketAddr>,
    p: RelayProtocol,
    k: int,
)
    requires
        0 <= m,
        0 <= k <= found.len(),
        forall|i: int|
            m <= i < m + k ==> (#[trigger] relays[i]).protocol == p && resolved(relays[i], dns[i])
                == Ok::<Seq<SocketAddr>, fault::FaultView>(seq![found[i - m]]),
    ensures
        all_resolved(relays, dns, m + k) == with_all(
            all_resolved(relays, dns, m),
            found.take(k),
            p,
        ),
    decreases k,
{
    if k > 0 {
        parts_resolve(relays, dns, m, found, p, k - 1);
        let before = all_resolved(relays, dns, m + k - 1);
        let one = seq![found[k - 1]];
        assert(relays[m + k - 1].protocol == p);
        assert(one.drop_last() =~= Seq::<SocketAddr>::empty());
        assert(with_all(before, one.drop_last(), p) == before);
        assert(found.take(k).drop_last() =~= found.take(k - 1));
    }
}

/// A name counts as its addresses: dialing goes on as if, in the place of the
/// endpoint with the name, an endpoint stood for each address that the name
/// resolves to.
pub proof fn name_counts_as_its_addresses(
    before: Seq<RelayEndpoint>,
    before_dns: Seq<Lookup>,
    name: RelayEndpoint,
    lookup: Lookup,
    parts: Seq<RelayEndpoint>,
    part_dns: Seq<Lookup>,
    after: Seq<RelayEndpoint>,
    after_dns: Seq<Lookup>,
)
    requires
        before.len() == before_dns.len(),
        parts.len() == part_dns.len(),
        after.len() == after_dns.len(),
        resolved(name, lookup) matches Ok(found) && found.len() == parts.len(),
        forall|i: int|
            0 <= i < parts.len() ==> (#[trigger] parts[i]).protocol == name.protocol && resolved(
                parts[i],
                part_dns[i],
            ) == Ok::<Seq<SocketAddr>, fault::FaultView>(seq![resolved(name, lookup)->Ok_0[i]]),
    ensures
        all_resolved(
            before.push(name) + after,
            before_dns.push(lookup) + after_dns,
            (before.len() + 1 + after.len()) as int,
        ) == all_resolved(
            before + parts + after,
            before_dns + part_dns + after_dns,
            (before.len() + parts.len() + after.len()) as int,
        ),
    decreases after.len(),
{
    let a = before.push(name) + after;
    let a_dns = before_dns.push(lookup) + after_dns;
    let b = before + parts + after;
    let b_dns = before_dns + part_dns + after_dns;
    let m = before.len() as int;
    if after.len() == 0 {
        let found = resolved(name, lookup)->Ok_0;
        assert(a[m] == name && a_dns[m] == lookup);
        prefix_decides(a, a_dns, b, b_dns, m);
        assert forall|i: int| m <= i < m + parts.len() implies (#[trigger] b[i]).protocol
            == name.protocol && resolved(b[i], b_dns[i]) == Ok::<Seq<SocketAddr>, fault::FaultView>(
            seq![found[i - m]],
        ) by {
            assert(b[i] == parts[i - m]);
        }
        parts_resolve(b, b_dns, m, found, name.protocol, parts.len() as int);
        assert(found.take(parts.len() as int) =~= found);
    } else {
        let rest = after.drop_last();
        let rest_dns = after_dns.drop_last();
        name_counts_as_its_addresses(
            before,
            before_dns,
            name,
            lookup,
            parts,
            part_dns,
            rest,
            rest_dns,
        );
        let a2 = before.push(name) + rest;
        let a2_dns = before_dns.push(lookup) + rest_dns;
        let b2 = before + parts + rest;
        let b2_dns = before_dns + part_dns + rest_dns;
        let na = m + 1 + rest.len();
        let nb = m + parts.len() + rest.len();
        prefix_decides(a, a_dns, a2, a2_dns, na);
        prefix_decides(b, b_dns, b2, b2_dns, nb);
        assert(a[na] == after.last() && b[nb] == after.last());
        assert(a_dns[na] == after_dns.last() && b_dns[nb] == after_dns.last());
    }
}

/// An endpoint whose host is the text of an IP address, an IPv6 one with or
/// without brackets, stands for that address and its own port, whatever a
/// lookup says.
pub proof fn literals_stand_for_themselves(relay: RelayEndpoint, dns: Lookup, ip: addr::IpAddr)
    requires
        relay.host@ == ip.text() || ip is V6 && relay.host@ == seq!['['] + ip.text() + seq![']'],
    ensures
        resolved(relay, dns) == Ok::<Seq<SocketAddr>, fault::FaultView>(
            seq![SocketAddr { ip, port: relay.port, scope: 0 }],
        ),
{
    addr::ip_text_reads_back(ip);
    let h = relay.host@;
    if h == ip.text() {
        assert(!ip.text().contains('['));
        if h.len() >= 2 && h[0] == '[' {
            assert(h.contains('['));
        }
        assert(bare_host(h) == h);
    } else {
        assert(bare_host(h) =~= ip.text());
    }
}

/// An endpoint whose host is no literal stands for all that a lookup finds, in
/// that order; where that fails or finds nothing, the failure says which.
pub proof fn names_are_looked_up(relay: RelayEndpoint, dns: Lookup)
    requires
        literal(relay.host@, relay.port) is None,
    ensures
        match dns {
            Ok(found) => if found@.len() > 0 {
                resolved(relay, dns) == Ok::<Seq<SocketAddr>, fault::FaultView>(found@)
            } else {
                resolved(relay, dns) matches Err(f) && f.reason == Reason::DnsNoRecords
            },
            Err(_) => resolved(relay, dns) matches Err(f) && f.reason == Reason::DnsFailure,
        },
{
}

proof fn lemma_with_all_extends(out: Seq<Target>, found: Seq<SocketAddr>, p: RelayProtocol)
    ensures
        with_all(out, found, p).len() >= out.len(),
        with_all(out, found, p).take(out.len() as int) == out,
    decreases found.len(),
{
    if found.len() > 0 {
        lemma_with_all_extends(out, found.drop_last(), p);
        let before = with_all(out, found.drop_last(), p);
        assert(with_all(out, found, p).take(out.len() as int) =~= before.take(out.len() as int));
    } else {
        assert(out.take(out.len() as int) =~= out);
    }
}

/// Endpoints are dialed in the order in which they are listed: what the first
/// `m` of them resolve to comes before what the others do.
pub proof fn endpoints_keep_their_order(
    relays: Seq<RelayEndpoint>,
    dns: Seq<Lookup>,
    m: int,
    n: int,
)
    requires
        0 <= m <= n <= relays.len(),
        relays.len() == dns.len(),
    ensures
        ({
            let first = all_resolved(relays, dns, m);
            let all = all_resolved(relays, dns, n);
            first.len() <= all.len() && all.take(first.len() as int) == first
        }),
    decreases n,
{
    let first = all_resolved(relays, dns, m);
    let all = all_resolved(relays, dns, n);
    if m < n {
        endpoints_keep_their_order(relays, dns, m, n - 1);
        let most = all_resolved(relays, dns, n - 1);
        match resolved(relays[n - 1], dns[n - 1]) {
            Ok(found) => {
                lemma_with_all_extends(most, found, relays[n - 1].protocol);
                assert(all.take(first.len() as int) =~= all.take(most.len() as int).take(
                    first.len() as int,
                ));
            },
            Err(_) => {},
        }
    } else {
        assert(all.take(first.len() as int) =~= first);
    }
}

/// Where IPv6 is preferred the same targets are dialed, each family in the order
/// that it had.
pub proof fn families_keep_their_order(v: Seq<Target>)
    ensures
        v6_first(v) == v.filter(|t: Target| t.0.ip is V6) + v.filter(|t: Target| !(t.0.ip is V6)),
{
    lemma_of_family(v, v.len() as int);
    assert(v.take(v.len() as int) =~= v);
}

proof fn lemma_of_family(v: Seq<Target>, n: int)
    requires
        0 <= n <= v.len(),
    ensures
        of_family(v, true, n) == v.take(n).filter(|t: Target| t.0.ip is V6),
        of_family(v, false, n) == v.take(n).filter(|t: Target| !(t.0.ip is V6)),
    decreases n,
{
    reveal(Seq::filter);
    if n > 0 {
        lemma_of_family(v, n - 1);
        assert(v.take(n).drop_last() =~= v.take(n - 1));
    }
}

} // verus!
