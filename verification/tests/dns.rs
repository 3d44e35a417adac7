//! The forwarder that answers clients' name queries.

use spora_core::addr::{parse_addr, IpAddr, SocketAddr};
use spora_core::dns::{
    interface_index, is_answer, is_proxy_target, is_site_local, parse_resolv_conf, proxy_socket,
    public_fallback, usable_resolvers, Answer, Attempt, DnsForwarder, DnsUpstream, ForwardError,
    Forwarding, DEFAULT_ATTEMPT_TIMEOUT, DEFAULT_QUARANTINE, MAX_SYSTEM_RESOLVERS, REFRESH_INTERVAL,
};
use spora_core::server::is_local_address;

fn sa(s: &str) -> SocketAddr {
    parse_addr(&s.chars().collect::<Vec<char>>()).unwrap()
}

#[test]
fn proxy_target_matches_exactly_and_v4_mapped() {
    assert!(is_proxy_target(sa("100.64.0.53:53")));
    assert!(is_proxy_target(sa("[::ffff:100.64.0.53]:53")));
    assert!(!is_proxy_target(sa("100.64.0.53:5353")));
    assert!(!is_proxy_target(sa("100.64.0.54:53")));
    assert!(!is_proxy_target(sa("[::1]:53")));
    assert!(is_local_address(proxy_socket().ip));
}

#[test]
fn resolv_conf_parsing() {
    let text = "\
# Generated by NetworkManager
search example.net   # trailing comment
nameserver 192.168.1.1
nameserver 192.168.1.1
nameserver 2606:4700:4700::1111 ; comment
nameserver fe80::1%7
nameserver fe80::2
nameserver not-an-address
options edns0 trust-ad
nameserver 127.0.0.53
";
    let none = Vec::new();
    let got = parse_resolv_conf(text, &none);
    assert_eq!(
        got,
        vec![
            sa("192.168.1.1:53"),
            sa("[2606:4700:4700::1111]:53"),
            sa("[fe80::1%7]:53"),
            sa("127.0.0.53:53"),
        ],
        "dedup, numeric scope kept, unscoped link-local and garbage dropped"
    );
    assert!(parse_resolv_conf("", &none).is_empty());
    assert!(parse_resolv_conf("nameserver\n", &none).is_empty());
}

#[test]
fn a_scope_may_be_an_interface_name() {
    let table = vec![("lo".to_string(), 1), ("eth0".to_string(), 4)];
    assert_eq!(interface_index(&table, "eth0"), Some(4));
    assert_eq!(interface_index(&table, "wlan0"), None);
    let got = parse_resolv_conf("nameserver fe80::1%eth0\nnameserver fe80::1%wlan0\n", &table);
    assert_eq!(got, vec![sa("[fe80::1%4]:53")]);
}

#[test]
fn resolv_conf_cap() {
    let text: String = (1..=20).map(|i| format!("nameserver 10.0.0.{i}\n")).collect();
    assert_eq!(parse_resolv_conf(&text, &Vec::new()).len(), MAX_SYSTEM_RESOLVERS);
}

#[test]
fn site_local_resolvers_are_left_out() {
    let stale = sa("[fec0:0:0:ffff::1]:53");
    let good = sa("[2001:db8::53]:53");
    assert!(is_site_local(&stale.ip));
    assert!(!is_site_local(&good.ip));
    assert_eq!(usable_resolvers(&vec![stale, good, good]), vec![good]);
}

#[test]
fn pick_prefers_live_configured_then_fallback_then_probes_oldest_dead() {
    let a = sa("10.0.0.1:53");
    let b = sa("10.0.0.2:53");
    let pub1 = public_fallback()[0];
    let pub2 = public_fallback()[1];
    let mut fwd = DnsForwarder::new(DnsUpstream::Servers(vec![a, b]));
    let t0 = 0;

    assert_eq!(fwd.pick_at(t0, &vec![]), Some(a));
    assert_eq!(fwd.pick_at(t0, &vec![a]), Some(b), "skips what this query tried");
    assert_eq!(fwd.pick_at(t0, &vec![a, b]), Some(pub1), "then the fallback");
    assert_eq!(fwd.pick_at(t0, &vec![a, b, pub1]), Some(pub2));
    assert_eq!(fwd.pick_at(t0, &vec![a, b, pub1, pub2]), None);

    // An unreachable upstream is skipped at once.
    fwd.failed_at(t0, a);
    assert_eq!(fwd.pick_at(t0, &vec![]), Some(b));
    // Timeouts need several in a row.
    fwd.timed_out_at(t0, b);
    fwd.timed_out_at(t0, b);
    assert_eq!(fwd.pick_at(t0, &vec![]), Some(b), "two strikes is not out");
    fwd.timed_out_at(t0, b);
    assert_eq!(fwd.pick_at(t0, &vec![]), Some(pub1), "three strikes: fallback");
    // An answer heals.
    fwd.answered(b);
    assert_eq!(fwd.pick_at(t0, &vec![]), Some(b));
    // Everything dead: probe the one dead longest, never nothing.
    fwd.failed_at(t0 + 1000, b);
    fwd.failed_at(t0 + 2000, pub1);
    fwd.failed_at(t0 + 3000, pub2);
    let t = t0 + 5000;
    assert_eq!(fwd.pick_at(t, &vec![]), Some(a), "a died first");
    assert_eq!(fwd.pick_at(t, &vec![a]), Some(b));
    // Quarantine expiry revives in place, restoring the preference order.
    let later = t0 + DEFAULT_QUARANTINE + 1000;
    assert_eq!(fwd.pick_at(later, &vec![]), Some(a));
    assert_eq!(fwd.pick_at(later, &vec![a]), Some(b));
}

#[test]
fn explicit_list_without_fallback_can_run_out() {
    let a = sa("10.0.0.1:53");
    let mut fwd = DnsForwarder::with_fallback(DnsUpstream::Servers(vec![a]), Vec::new());
    assert_eq!(fwd.pick_at(0, &vec![]), Some(a));
    assert_eq!(fwd.pick_at(0, &vec![a]), None);
    assert!(fwd.fallback().is_empty());
}

#[test]
fn set_servers_swaps_and_keeps_health() {
    let a = sa("10.0.0.1:53");
    let b = sa("10.0.0.2:53");
    let c = sa("10.0.0.3:53");
    let mut fwd = DnsForwarder::new(DnsUpstream::Servers(vec![a, b]));
    fwd.failed_at(0, a);
    fwd.set_servers(vec![c, a, a]);
    assert_eq!(fwd.upstreams(), vec![c, a], "dedup, new order");
    assert_eq!(fwd.mode(), DnsUpstream::Servers(vec![c, a]));
    assert_eq!(fwd.pick_at(0, &vec![c]), Some(public_fallback()[0]), "a is still dead");
    fwd.set_servers(Vec::new());
    assert_eq!(fwd.mode(), DnsUpstream::System, "empty = unknown = system");
}

#[test]
fn system_mode_always_has_somewhere_to_send() {
    let mut fwd = DnsForwarder::system();
    assert!(fwd.pick_at(0, &vec![]).is_some());
}

#[test]
fn system_mode_is_refreshed_in_time() {
    let mut fwd = DnsForwarder::system();
    assert!(fwd.is_stale(0));
    let a = sa("192.168.1.1:53");
    fwd.refresh(0, vec![a]);
    assert!(!fwd.is_stale(REFRESH_INTERVAL - 1));
    assert!(fwd.is_stale(REFRESH_INTERVAL));
    assert_eq!(fwd.upstreams(), vec![a]);
    assert_eq!(fwd.pick_at(0, &vec![]), Some(a));
}

#[test]
fn timeouts_can_be_set() {
    let mut fwd = DnsForwarder::system();
    assert_eq!(fwd.attempt_timeout(), DEFAULT_ATTEMPT_TIMEOUT);
    fwd.set_attempt_timeout(100);
    assert_eq!(fwd.attempt_timeout(), 100);
    let a = sa("10.0.0.1:53");
    let b = sa("10.0.0.2:53");
    let mut fwd = DnsForwarder::with_fallback(DnsUpstream::Servers(vec![a, b]), Vec::new());
    fwd.set_quarantine(500);
    fwd.failed_at(0, a);
    assert_eq!(fwd.pick_at(499, &vec![]), Some(b));
    assert_eq!(fwd.pick_at(501, &vec![]), Some(a));
}

fn query(id: u16) -> Vec<u8> {
    let mut q = vec![0u8; 12];
    q[..2].copy_from_slice(&id.to_be_bytes());
    q[2] = 0x01;
    q[5] = 1;
    q.extend_from_slice(b"\x07example\x03com\x00\x00\x01\x00\x01");
    q
}

/// How an upstream behaves.
#[derive(Clone, Copy)]
enum Upstream {
    Answers,
    Silent,
    Refuses,
}

/// Runs a query against upstreams that behave as given.
fn forward(
    fwd: &mut DnsForwarder,
    query: &[u8],
    world: &[(SocketAddr, Upstream)],
) -> Result<Answer, ForwardError> {
    let mut run = Forwarding::new();
    loop {
        let up = run.next(fwd, 0)?;
        let behaves = world.iter().find(|(a, _)| *a == up).map(|(_, u)| *u).unwrap();
        match behaves {
            Upstream::Answers => {
                let mut response = query.to_vec();
                response[2] |= 0x80;
                assert!(is_answer(query, &response));
                return Ok(run.answered(fwd, response, None));
            }
            Upstream::Silent => run.failed(fwd, 0, Attempt::Timeout, "timed out"),
            Upstream::Refuses => {
                run.failed(fwd, 0, Attempt::Io("connection refused".to_string()), "timed out")
            }
        }
    }
}

#[test]
fn forwards_and_fails_over_from_a_refused_upstream() {
    let live = sa("127.0.0.1:1001");
    let refused = sa("127.0.0.1:1002");
    let mut fwd =
        DnsForwarder::with_fallback(DnsUpstream::Servers(vec![refused, live]), Vec::new());
    let q = query(0x1234);
    let world = [(refused, Upstream::Refuses), (live, Upstream::Answers)];
    let ans = forward(&mut fwd, &q, &world).unwrap();
    assert_eq!(ans.upstream, live);
    assert_eq!(ans.attempts, 2);
    assert_eq!(&ans.response[..2], &q[..2]);
    assert_eq!(ans.response[2] & 0x80, 0x80, "the fake set QR");
    assert_eq!(fwd.pick_at(0, &vec![]), Some(live), "the refused one is quarantined");
}

#[test]
fn times_out_and_fails_over_from_a_silent_upstream() {
    let silent = sa("127.0.0.1:1001");
    let live = sa("127.0.0.1:1002");
    let mut fwd = DnsForwarder::with_fallback(DnsUpstream::Servers(vec![silent, live]), Vec::new());
    fwd.set_attempt_timeout(100);
    let world = [(silent, Upstream::Silent), (live, Upstream::Answers)];
    let ans = forward(&mut fwd, &query(7), &world).unwrap();
    assert_eq!(ans.upstream, live);
    assert_eq!(ans.attempts, 2);
    // One strike is not a quarantine: the silent one is still preferred.
    assert_eq!(fwd.pick_at(0, &vec![]), Some(silent));
}

#[test]
fn no_upstream_answers() {
    let silent = sa("127.0.0.1:1001");
    let mut fwd = DnsForwarder::with_fallback(DnsUpstream::Servers(vec![silent]), Vec::new());
    fwd.set_attempt_timeout(50);
    match forward(&mut fwd, &query(1), &[(silent, Upstream::Silent)]) {
        Err(ForwardError::Unanswered { attempts: 1, last_upstream, last }) => {
            assert_eq!(last_upstream, silent);
            let e = ForwardError::Unanswered { attempts: 1, last_upstream, last };
            assert_eq!(e.to_text(), "unanswered after 1 attempts (last 127.0.0.1:1001: timed out)");
        }
        other => panic!("expected Unanswered, got {:?}", other.map(|a| a.attempts)),
    }
    let mut none = DnsForwarder::with_fallback(DnsUpstream::Servers(Vec::new()), Vec::new());
    let end = forward(&mut none, &query(1), &[]);
    assert!(matches!(end, Err(ForwardError::NoUpstream)));
    assert_eq!(ForwardError::NoUpstream.to_text(), "no DNS upstream configured");
}

#[test]
fn three_upstreams_are_tried_at_most() {
    let all: Vec<SocketAddr> = (1..=5).map(|i| sa(&format!("127.0.0.1:{i}"))).collect();
    let world: Vec<(SocketAddr, Upstream)> = all.iter().map(|a| (*a, Upstream::Refuses)).collect();
    let mut fwd = DnsForwarder::with_fallback(DnsUpstream::Servers(all.clone()), Vec::new());
    match forward(&mut fwd, &query(1), &world) {
        Err(ForwardError::Unanswered { attempts, last_upstream, .. }) => {
            assert_eq!(attempts, 3);
            assert_eq!(last_upstream, all[2]);
        }
        _ => panic!("expected Unanswered"),
    }
}

#[test]
fn an_answer_has_the_querys_identifier() {
    let q = query(0x0102);
    assert!(!is_answer(&q, &query(0x0103)));
    assert!(is_answer(&q, &q));
}

#[test]
fn an_address_reads_back_from_its_text() {
    for s in ["1.2.3.4:5", "[::1]:53", "[2001:db8::9]:443", "[fe80::1%7]:53", "[::ffff:1.2.3.4]:1"] {
        assert_eq!(sa(s).to_text(), s);
    }
    assert_eq!(sa("[0:0:0:0:0:0:0:1]:53").to_text(), "[::1]:53");
    assert_eq!(sa("[1:0:0:2:0:0:0:3]:9").to_text(), "[1:0:0:2::3]:9");
    assert!(parse_addr(&"1.2.3.4".chars().collect::<Vec<char>>()).is_none());
    assert!(parse_addr(&"01.2.3.4:5".chars().collect::<Vec<char>>()).is_none());
    assert_eq!(sa("1.2.3.4:5").ip, IpAddr::V4([1, 2, 3, 4]));
}

#[test]
fn an_upstream_is_one_wherever_it_is_listed() {
    let google = public_fallback()[0];
    let other = public_fallback()[1];
    let mut fwd = DnsForwarder::new(DnsUpstream::Servers(vec![google]));
    fwd.failed_at(0, google);
    assert_eq!(fwd.pick_at(0, &vec![]), Some(other), "the fallback copy is out too");
    fwd.answered(google);
    assert_eq!(fwd.pick_at(0, &vec![]), Some(google));
    for _ in 0..3 {
        fwd.timed_out_at(0, google);
    }
    assert_eq!(fwd.pick_at(0, &vec![]), Some(other), "three strikes count in both lists");
    assert_eq!(fwd.pick_at(DEFAULT_QUARANTINE, &vec![]), Some(google));
}
