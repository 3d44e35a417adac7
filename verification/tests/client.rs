//! The client's side: tokens, relays, dialing and sampling.

use spora_core::addr::{parse_addr, SocketAddr};
use spora_core::carrier::{relay_client_for, PeerSession};
use spora_core::client::{
    endpoint_refs, first_dial_failed, first_targets, initiator_plan, open_client, open_record, redial,
    sampler_interval, DialEnd, DialNext, DialRun, LinkCounters, QuicStats, SessionMeters,
};
use spora_core::config::{Config, TunnelEvent};
use spora_core::fault::{
    Fault, IoFailure, IoKind, OsError, QuicEnd, QuicFailure, QuicRefusal,
};
use spora_core::identity::{RelayEndpoint, RelayProtocol, Token, Url};
use spora_core::record::{Build, Context, Entry, RecordConfig, Recorder, FORMAT_VERSION};
use spora_core::report::Ending;
use spora_core::resolve::{
    literal_addr, resolve_for_dial, resolve_one_relay, resolve_relays, resolve_relays_preferring_v6,
};
use spora_core::share::MtuPlan;
use spora_core::vocab::{
    Carrier, MtuSource, Outcome, PathKind, Reason, Role, RttSource, StepKind,
};

fn sa(s: &str) -> SocketAddr {
    parse_addr(&s.chars().collect::<Vec<char>>()).unwrap()
}

#[test]
fn a_client_opens_with_its_token() {
    let token = Token {
        routing_key: [1; 20],
        secret: [2; 16],
        relays: vec![RelayEndpoint::new("relay.example", 443)],
    };
    let (read, s) = open_client(&token.to_url()).unwrap();
    assert_eq!(read, token);
    assert_eq!((s.kind, s.ending), (StepKind::TokenParse, Ending::Done));
    let bad = Url::parse("https://spora.to/x/abc?r=h:1").unwrap();
    let f = open_client(&bad).unwrap_err();
    assert_eq!((f.outcome, f.reason, f.detail), (Outcome::NeverConnected, Reason::BadToken, None));
    assert_eq!(f.report.unwrap().ending, Ending::Failed(Fault::new(Reason::BadToken, &f.error)));
    assert!(f.error.contains("/s/"));
}

#[test]
fn the_first_dial_has_nothing_to_fall_back_to() {
    let t = (sa("192.0.2.1:443"), RelayProtocol::UdpQuic);
    let (v, s) = first_targets(Ok(vec![t])).unwrap();
    assert_eq!(v, vec![t]);
    assert_eq!(s.detail.as_deref(), Some("1 endpoint(s) to try"));
    let f = first_targets(Err(Fault::new(Reason::DnsFailure, "gone"))).unwrap_err();
    assert_eq!((f.reason, f.error.as_str(), f.detail), (Reason::DnsFailure, "gone", None));
    let f = first_dial_failed(Fault::new(Reason::ConnectTimeout, "late"));
    assert_eq!(f.error, "initial dial: late");
    assert_eq!(f.detail.as_deref(), Some("late"));
    assert_eq!(f.report, None);
}

#[test]
fn a_later_dial_is_counted_and_told() {
    let r = redial(0);
    assert_eq!((r.cycle, r.event), (1, TunnelEvent::Reconnecting));
    assert_eq!(r.report.kind, StepKind::Reconnect);
    assert_eq!(redial(u64::MAX).cycle, 0);
}

#[test]
fn a_later_dial_falls_back_to_known_addresses() {
    let old = (sa("192.0.2.1:443"), RelayProtocol::UdpQuic);
    let new = (sa("192.0.2.2:443"), RelayProtocol::UdpQuic);
    let mut known = vec![old];
    let (v, s) = resolve_for_dial(Err(Fault::new(Reason::DnsFailure, "gone")), &mut known);
    assert_eq!(v, vec![old]);
    assert_eq!(
        s.ending,
        Ending::Failed(Fault::new(
            Reason::DnsFailure,
            "gone; falling back to 1 previously resolved address(es)"
        ))
    );
    let (v, _) = resolve_for_dial(Ok(vec![new]), &mut known);
    assert_eq!((v, known), (vec![new], vec![new]));
}

#[test]
fn literals_need_no_lookup() {
    let lit = |h: &str| literal_addr(&RelayEndpoint::new(h, 443));
    assert_eq!(lit("192.0.2.1"), Some(sa("192.0.2.1:443")));
    assert_eq!(lit("2001:db8::1"), Some(sa("[2001:db8::1]:443")));
    assert_eq!(lit("[2001:db8::1]"), Some(sa("[2001:db8::1]:443")));
    assert_eq!(lit("relay.example"), None);
    let named = RelayEndpoint::new("relay.example", 443);
    assert_eq!(
        resolve_one_relay(&named, &Ok(vec![])),
        Err(Fault::new(Reason::DnsNoRecords, "no address for relay relay.example:443"))
    );
    assert_eq!(
        resolve_one_relay(&named, &Err("x".to_string())),
        Err(Fault::new(Reason::DnsFailure, "resolve relay relay.example:443 failed: x"))
    );
}

#[test]
fn targets_are_distinct_and_v6_first() {
    let relays = vec![RelayEndpoint::new("a.example", 443), RelayEndpoint::new("192.0.2.1", 443)];
    let a = sa("192.0.2.1:443");
    let b = sa("[2001:db8::1]:443");
    let dns = vec![Ok(vec![a, b]), Err("not looked up".to_string())];
    let p = RelayProtocol::UdpQuic;
    assert_eq!(resolve_relays(&relays, &dns), Ok(vec![(a, p), (b, p)]));
    assert_eq!(resolve_relays_preferring_v6(&relays, &dns), Ok(vec![(b, p), (a, p)]));
}

#[test]
fn a_name_counts_as_the_addresses_it_resolves_to() {
    let name = RelayEndpoint::new("relay.example", 443);
    let parts = vec![RelayEndpoint::new("192.0.2.1", 443), RelayEndpoint::new("2001:db8::1", 443)];
    let last = RelayEndpoint::new("192.0.2.9", 443);
    let found = vec![sa("192.0.2.1:443"), sa("[2001:db8::1]:443")];
    let named = vec![name, last.clone()];
    let listed = vec![parts[0].clone(), parts[1].clone(), last];
    assert_eq!(
        resolve_relays(&named, &vec![Ok(found), Ok(vec![])]),
        resolve_relays(&listed, &vec![Ok(vec![]), Ok(vec![]), Ok(vec![])])
    );
}

#[test]
fn relays_are_dialed_in_order_until_one_answers() {
    let a = (sa("192.0.2.1:443"), RelayProtocol::UdpQuic);
    let b = (sa("192.0.2.2:443"), RelayProtocol::TcpTls);
    let mut d = DialRun::new(vec![a, b]);
    assert_eq!(d.next(), DialNext::Dial(a.0, a.1));
    let s = d.ended(DialEnd::TimedOut(8000));
    assert_eq!(s.via.as_deref(), Some("192.0.2.1:443"));
    assert_eq!((s.carrier, s.path), (Some(Carrier::Quic), Some(PathKind::Relay)));
    assert_eq!(
        s.ending,
        Ending::Failed(Fault::new(
            Reason::ConnectTimeout,
            "relay 192.0.2.1:443 dial timed out after 8s"
        ))
    );
    assert_eq!(d.next(), DialNext::Dial(b.0, b.1));
    assert_eq!(d.ended(DialEnd::Up).ending, Ending::Done);
    let f = Fault::new(Reason::ConnectRefused, "refused");
    d.ended(DialEnd::Failed(f.clone()));
    assert_eq!(d.next(), DialNext::GiveUp(f));
    assert_eq!(
        DialRun::new(vec![]).next(),
        DialNext::GiveUp(Fault::new(Reason::NoRelays, "no relays to dial"))
    );
}

#[test]
fn a_clients_session_is_set_up() {
    let cfg = Config::default();
    let at = sa("[2001:db8::1]:443");
    let session = |p| PeerSession::dialed(relay_client_for(p), at, true, 1280);
    let plan = |p| initiator_plan(&session(p), &(at, p), &cfg);
    let kinds = |p| plan(p).reports.iter().map(|r| r.kind).collect::<Vec<_>>();
    let p = plan(RelayProtocol::UdpQuic);
    assert!(p.upgrade && p.path_ipv6 && !p.drop_signal);
    assert_eq!(p.event, TunnelEvent::RelaySessionEstablished { peer: at });
    assert_eq!(kinds(RelayProtocol::UdpQuic), vec![StepKind::SessionUp]);
    let p = plan(RelayProtocol::Direct);
    assert!(!p.upgrade && p.drop_signal);
    assert_eq!(
        p.reports[1].ending,
        Ending::Skipped(Fault::new(Reason::UpgradeUnsupported, "no direct upgrade attempted"))
    );
    assert_eq!(
        kinds(RelayProtocol::TcpTls),
        vec![StepKind::SessionUp, StepKind::Mtu, StepKind::PathSwap]
    );
    assert_eq!(plan(RelayProtocol::NoiseUdp).mtu, MtuPlan::Declared(1280));
    assert!(plan(RelayProtocol::NoiseUdp).upgrade);
}

#[test]
fn endpoints_are_described_for_the_record() {
    let v = endpoint_refs(&vec![RelayEndpoint::with_protocol("h", 1, RelayProtocol::Direct)]);
    assert_eq!((v[0].host.as_str(), v[0].port), ("h", 1));
    assert_eq!((v[0].carrier, v[0].path), (Carrier::Quic, PathKind::DirectAdvertised));
    assert_eq!(v[0].addr, None);
}

fn build() -> Build {
    Build {
        version: "0".to_string(),
        commit: None,
        dirty: false,
        target: "x".to_string(),
        profile: "debug".to_string(),
    }
}

#[test]
fn a_record_is_kept_only_where_asked_for() {
    let cfg = RecordConfig::in_memory();
    let id = || "0123456789abcdef".to_string();
    let (rec, entry) =
        open_record(Some(&cfg), id(), 5, build(), Role::Client, Some(&[0xab]), vec![], true);
    assert!(rec.is_enabled());
    match entry {
        Some(Entry::Open(o)) => {
            assert_eq!(o.routing_key.as_deref(), Some("ab"));
            assert_eq!((o.at_unix_ms, o.upgrade_enabled), (5, true));
        }
        _ => panic!("no opening"),
    }
    assert_eq!(sampler_interval(&rec), Some(cfg.sample_interval));
    // As many entries are kept in memory as the configuration says.
    for (max_entries, kept) in [(3, 64), (65, 65)] {
        let cfg = RecordConfig { max_entries, ..RecordConfig::in_memory() };
        let (mut rec, _) =
            open_record(Some(&cfg), id(), 5, build(), Role::Client, None, vec![], true);
        let before = rec.snapshot(0).unwrap();
        assert_eq!((before.open.v, before.open.id), (FORMAT_VERSION, id()));
        assert!(before.steps.is_empty() && before.samples.is_empty() && before.close.is_none());
        for n in 0..70 {
            let h = rec.mark(StepKind::RelayDial, Context::none(), n);
            rec.ok(h, n);
        }
        let after = rec.snapshot(70).unwrap();
        assert_eq!(after.steps.len(), kept);
        assert_eq!(after.steps[0].seq, 0);
        assert_eq!(after.gaps[0].dropped, 70 - kept as u64);
    }
    let (rec, entry) = open_record(None, id(), 5, build(), Role::Client, None, vec![], true);
    assert!(!rec.is_enabled() && entry.is_none());
    assert_eq!(sampler_interval(&rec), None);
    assert_eq!(sampler_interval(&Recorder::disabled()), None);
}

#[test]
fn samples_say_where_their_figures_come_from() {
    let c = LinkCounters {
        tx_bytes: 1,
        rx_bytes: 2,
        tx_pkts: 3,
        rx_pkts: 4,
        probes_sent: 9,
        probes_answered: 7,
        last_rtt_us: Some(42_000),
    };
    let m = SessionMeters::new(Carrier::TcpTls, PathKind::Relay, false, 1400);
    let s = m.take_sample(&c, None);
    assert_eq!((s.rtt_us, s.rtt_src), (Some(42_000), Some(RttSource::Keepalive)));
    assert_eq!((s.mtu, s.mtu_src), (Some(1400), Some(MtuSource::Declared)));
    assert_eq!((s.probes_sent, s.probes_lost), (Some(9), Some(2)));
    let mut m = SessionMeters::new(Carrier::Quic, PathKind::Relay, true, 1400);
    let q = QuicStats { rtt_us: 7, cwnd: 8, lost_packets: 9, max_datagram_size: Some(1452) };
    m.on_direct(PathKind::DirectPunched);
    let s = m.take_sample(&c, Some(q));
    assert_eq!(s.path, PathKind::DirectPunched);
    assert_eq!((s.rtt_us, s.rtt_src), (Some(7), Some(RttSource::Quic)));
    assert_eq!((s.cwnd, s.lost_pkts), (Some(8), Some(9)));
    assert_eq!((s.mtu, s.mtu_src), (Some(1452), Some(MtuSource::Discovered)));
    let s = m.take_sample(&LinkCounters { probes_answered: 10, last_rtt_us: None, ..c }, None);
    assert_eq!((s.rtt_src, s.mtu, s.mtu_src, s.probes_lost), (None, None, None, Some(0)));
}

fn io(kind: IoKind, os: Option<OsError>) -> Reason {
    Fault::from_io(&IoFailure { kind, os, text: "x".to_string() }).reason
}

#[test]
fn failures_are_classified() {
    assert_eq!(io(IoKind::ConnectionRefused, None), Reason::ConnectRefused);
    assert_eq!(io(IoKind::ConnectionReset, None), Reason::ConnectReset);
    assert_eq!(io(IoKind::BrokenPipe, None), Reason::ConnectReset);
    assert_eq!(io(IoKind::TimedOut, None), Reason::ConnectTimeout);
    assert_eq!(io(IoKind::PermissionDenied, None), Reason::PermissionDenied);
    assert_eq!(io(IoKind::AddrInUse, None), Reason::BindFailed);
    assert_eq!(io(IoKind::AddrNotAvailable, None), Reason::BindFailed);
    assert_eq!(io(IoKind::NotFound, None), Reason::DnsNoRecords);
    assert_eq!(io(IoKind::Other, Some(OsError::NetUnreachable)), Reason::NoRoute);
    assert_eq!(io(IoKind::Other, Some(OsError::FamilyUnsupported)), Reason::FamilyUnsupported);
    assert_eq!(io(IoKind::Other, Some(OsError::Other)), Reason::SocketError);
    let quic = |end| QuicFailure { end, text: "lost".to_string() };
    assert_eq!(Fault::from_quinn(&quic(QuicEnd::TimedOut)).reason, Reason::IdleTimeout);
    assert_eq!(
        Fault::from_quinn_handshake(&quic(QuicEnd::TimedOut)).reason,
        Reason::HandshakeTimeout
    );
    let tls = quic(QuicEnd::TransportError { code: 0x0100 });
    assert_eq!(Fault::from_quinn(&tls).reason, Reason::CertMismatch);
    let other = quic(QuicEnd::TransportError { code: 0xff });
    assert_eq!(Fault::from_quinn(&other).reason, Reason::ProtocolViolation);
    assert_eq!(
        Fault::from_quinn_connect(QuicRefusal::EndpointStopping, "x").reason,
        Reason::LocalShutdown
    );
    assert_eq!(Fault::unknown("x"), Fault::new(Reason::Unknown, "x"));
    assert_eq!(Fault::new(Reason::Unknown, "x").context("dial").detail, "dial: x");
}
