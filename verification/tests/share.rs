//! The sharer's side: listeners, sessions and carriers.

use spora_core::addr::{parse_addr, SocketAddr};
use spora_core::carrier::PeerSession;
use spora_core::config::{Config, ExitMode, Timings, TunnelEvent};
use spora_core::dispatch::{Dispatcher, Route, Shapes};
use spora_core::fault::{Fault, IoFailure, IoKind};
use spora_core::identity::{RelayEndpoint, RelayProtocol};
use spora_core::report::Ending;
use spora_core::share::{
    accept_report, accept_step, arrival_event, bind_report, boot_failed, mtu_probed, park_cancelled, park_ended, park_fault,
    park_step, park_workers, register_report, relays_of, responder_plan, session_ended, share_plan, AcceptEnd,
    BootFailure, MtuPlan, NoiseAction, NoiseEvent, NoiseRegistrar, ParkEnd, ParkStage, ShareLoop,
    PARK_RETRY_DELAY, REBIND_DELAY, REPARK_DELAY,
};
use spora_core::signal::SignalChannel;
use spora_core::vocab::{Carrier, Outcome, PathKind, Reason, StepKind};

fn sa(s: &str) -> SocketAddr {
    parse_addr(&s.chars().collect::<Vec<char>>()).unwrap()
}

fn direct(host: &str, port: u16) -> RelayEndpoint {
    RelayEndpoint::with_protocol(host, port, RelayProtocol::Direct)
}

fn nz(host: &str, port: u16) -> RelayEndpoint {
    RelayEndpoint::with_protocol(host, port, RelayProtocol::NoiseUdp)
}

#[test]
fn a_plan_resolves_udp_relays_only() {
    let relays = vec![
        RelayEndpoint::new("relay.example", 443),
        direct("198.51.100.1", 4433),
        nz("nz.example", 443),
    ];
    let found = Ok(vec![sa("192.0.2.1:443")]);
    let p = share_plan(&relays, &vec![found]).unwrap();
    assert_eq!(p.register, vec![sa("192.0.2.1:443")]);
    assert_eq!(p.bind_port, 4433);
    assert!(!p.want_v6);
    assert_eq!(relays_of(&relays, RelayProtocol::NoiseUdp).len(), 1);
    let v6 = share_plan(&relays, &vec![Ok(vec![sa("[2001:db8::1]:443")])]).unwrap();
    assert!(v6.want_v6);
    let named = share_plan(&vec![direct("home.example", 1)], &vec![]).unwrap();
    assert!(named.want_v6);
    assert!(named.register.is_empty());
}

#[test]
fn a_plan_can_fail() {
    assert_eq!(share_plan(&vec![], &vec![]), Err("share: Config.relays is empty".to_string()));
    let relays = vec![RelayEndpoint::new("relay.example", 443)];
    assert_eq!(
        share_plan(&relays, &vec![Err("no such host".to_string())]),
        Err("no relay address resolved from the configured relays".to_string())
    );
    let ports = vec![direct("1.2.3.4", 20), direct("1.2.3.5", 3), direct("1.2.3.6", 20)];
    assert_eq!(
        share_plan(&ports, &vec![]),
        Err("share: all direct endpoints must use one port (a single socket), got {3, 20}"
            .to_string())
    );
}

#[test]
fn a_share_that_does_not_come_up_says_why() {
    let e = boot_failed(BootFailure::Storage("disk".to_string()));
    assert_eq!((e.outcome, e.reason), (Outcome::NeverConnected, Reason::StorageError));
    assert_eq!(e.detail.as_deref(), Some("disk"));
    let e = boot_failed(BootFailure::ListenerBind("busy".to_string()));
    assert_eq!((e.reason, e.detail, e.error.as_str()), (Reason::BindFailed, None, "busy"));
    let e = boot_failed(BootFailure::DirectBind("busy".to_string()));
    assert_eq!(e.reason, Reason::BindFailed);
}

#[test]
fn listeners_are_recorded() {
    let at = sa("0.0.0.0:41234");
    let r = bind_report(true, &Ok(Some(at)));
    assert_eq!((r.local, r.path), (Some(at), Some(PathKind::DirectAdvertised)));
    let r = bind_report(false, &Err("busy".to_string()));
    assert_eq!(r.ending, Ending::Failed(Fault::new(Reason::BindFailed, "busy")));
    let r = register_report(2, 30_000);
    assert_eq!(
        r.detail.as_deref(),
        Some("announcing to 2 relay(s) every 30s; relays do not acknowledge")
    );
    assert_eq!(accept_step(true).path, Some(PathKind::DirectAdvertised));
    assert_eq!(accept_step(false).carrier, Some(Carrier::Quic));
    assert_eq!(park_step(&at).carrier, Some(Carrier::TcpTls));
    assert_eq!(park_step(&at).via.as_deref(), Some(at.to_text().as_str()));
    let r = accept_report(false, &AcceptEnd::Accepted(at));
    assert_eq!((r.peer, r.path), (Some(at), Some(PathKind::Relay)));
    let r = accept_report(true, &AcceptEnd::Stopped);
    assert_eq!(r.ending, Ending::Skipped(Fault::new(Reason::Cancelled, "share stopping")));
    let f = Fault::new(Reason::AuthTimeout, "late");
    assert_eq!(accept_report(true, &AcceptEnd::Failed(f.clone())).ending, Ending::Failed(f));
}

#[test]
fn a_session_keeps_the_socket_it_came_on() {
    let mut l = ShareLoop::new();
    let at = sa("192.0.2.1:443");
    let quic = PeerSession::from_quic(at);
    let noise = PeerSession { quic: false, signal: Some(SignalChannel::Noise), ..quic };
    assert!(l.claims_listener(Some(0)));
    let t = l.on_session(&quic, Some(0), Some(Ok(())));
    assert_eq!((t.cancel_previous, t.iteration, t.path), (false, 1, PathKind::Relay));
    assert!(t.close.is_empty());
    assert_eq!(t.roll.unwrap().detail.as_deref(), Some("generation 1"));
    assert_eq!(arrival_event(&quic), TunnelEvent::RelaySessionEstablished { peer: at });
    assert_eq!(l.generation(), 1);

    // A second client: the first session's socket stays until it is gone.
    let t = l.on_session(&quic, Some(1), Some(Ok(())));
    assert!(t.cancel_previous);
    assert!(t.close.is_empty());
    // A third one: the first session's socket goes.
    let t = l.on_session(&quic, Some(2), Some(Ok(())));
    assert_eq!(t.close, vec![0]);
    // One on the direct port claims no listener.
    let t = l.on_session(&quic, None, None);
    assert_eq!(t.path, PathKind::DirectAdvertised);
    assert_eq!(t.close, vec![1]);
    let t = l.on_session(&noise, None, None);
    assert_eq!(t.path, PathKind::Relay);
    assert_eq!(t.close, vec![2]);
    // No new listener: the session's own is kept as the current one.
    let t = l.on_session(&quic, Some(3), Some(Err("busy".to_string())));
    assert_eq!(t.roll.unwrap().ending, Ending::Failed(Fault::new(Reason::BindFailed, "busy")));
    assert_eq!(l.generation(), 3);
    let s = l.stop();
    assert!(s.cancel_session && s.close.is_empty());
    assert!(!l.stop().cancel_session);
}

#[test]
fn a_sharers_session_is_set_up() {
    let mut cfg = Config::default();
    let peer = sa("[2001:db8::1]:443");
    let p = responder_plan(&PeerSession::from_quic(peer), PathKind::Relay, &cfg);
    let kinds: Vec<StepKind> = p.reports.iter().map(|r| r.kind).collect();
    assert_eq!(kinds, vec![StepKind::SessionUp, StepKind::ExitStart]);
    assert!(p.upgrade && p.path_ipv6);
    assert_eq!(p.mtu, MtuPlan::Probe);
    assert_eq!(
        (p.keepalive.interval, p.keepalive.active_window, p.keepalive.recv_timeout),
        (10_000, 30_000, 30_000)
    );
    cfg.enable_direct_upgrade = false;
    cfg.exit_mode = ExitMode::Custom;
    let stream = PeerSession { remote_addr: peer, quic: false, signal: None, fixed_mtu: 1400 };
    let p = responder_plan(&stream, PathKind::Relay, &cfg);
    let kinds: Vec<StepKind> = p.reports.iter().map(|r| r.kind).collect();
    assert_eq!(
        kinds,
        vec![StepKind::SessionUp, StepKind::PathSwap, StepKind::Mtu, StepKind::ExitStart]
    );
    assert_eq!(
        p.reports[1].ending,
        Ending::Skipped(Fault::new(Reason::UpgradeDisabled, "no direct upgrade attempted"))
    );
    assert_eq!(p.reports[2].detail.as_deref(), Some("declared 1400"));
    assert_eq!(p.reports[3].detail.as_deref(), Some("custom handler"));
    assert_eq!(p.mtu, MtuPlan::Declared(1400));
    assert_eq!(p.carrier, Carrier::TcpTls);
}

#[test]
fn a_probed_packet_size_is_reported() {
    let (r, size) = mtu_probed(Some(1452));
    assert_eq!((r.detail.as_deref(), size), (Some("discovered 1452"), Some(1452)));
    assert_eq!(mtu_probed(Some(65536 + 7)).1, Some(7));
    let (r, size) = mtu_probed(None);
    assert_eq!(
        r.ending,
        Ending::Failed(Fault::new(Reason::Unknown, "no datagram size after PMTUD"))
    );
    assert_eq!(size, None);
}

#[test]
fn the_end_of_a_session_is_told() {
    let (r, word, event) = session_ended(true, Carrier::Quic, PathKind::Relay);
    assert_eq!(r.ending, Ending::Failed(Fault::new(Reason::Replaced, "cancelled")));
    assert_eq!(word, "cancelled");
    assert_eq!(event, TunnelEvent::SessionEnded { reason: "cancelled".to_string() });
    let (r, word, _) = session_ended(false, Carrier::Quic, PathKind::Relay);
    assert_eq!(r.ending, Ending::Failed(Fault::new(Reason::TransportClosed, "transport_closed")));
    assert_eq!(word, "transport_closed");
}

#[test]
fn connections_are_parked_at_relays() {
    let (a, b) = (sa("192.0.2.1:443"), sa("192.0.2.2:443"));
    assert_eq!(park_workers(&vec![a, b]), vec![a, a, a, a, b, b, b, b]);
    let (r, wait) = park_ended(&a, &ParkEnd::Spliced);
    assert_eq!((r.detail.as_deref(), wait), (Some("a client was spliced in"), None));
    assert_eq!(park_ended(&a, &ParkEnd::Reaped).1, Some(REPARK_DELAY));
    let refused = IoFailure {
        kind: IoKind::ConnectionRefused,
        os: None,
        text: "refused".to_string(),
    };
    let f = park_fault(ParkStage::Connect, &refused);
    assert_eq!(f, Fault::new(Reason::ConnectRefused, "connect relay: refused"));
    assert_eq!(park_fault(ParkStage::Preamble, &refused).detail, "register preamble: refused");
    assert_eq!(park_fault(ParkStage::Peek, &refused).detail, "park peek: refused");
    assert_eq!(park_ended(&a, &ParkEnd::Failed(f)).1, Some(PARK_RETRY_DELAY));
    assert_eq!(park_cancelled(), Fault::new(Reason::Cancelled, "cancelled while parked"));
}

#[test]
fn the_noise_carrier_binds_until_it_can() {
    let relays = vec![nz("nz.example", 443), RelayEndpoint::new("relay.example", 443)];
    let n = NoiseRegistrar::start(&relays, &vec![Ok(vec![sa("[2001:db8::1]:443")])]).unwrap();
    assert_eq!(n.first(), NoiseAction::Bind { want_v6: true });
    assert_eq!(n.on(NoiseEvent::BindFailed), NoiseAction::Wait { ms: REBIND_DELAY });
    assert_eq!(n.on(NoiseEvent::Waited), NoiseAction::Bind { want_v6: true });
    assert_eq!(n.on(NoiseEvent::Bound), NoiseAction::Serve);
    assert_eq!(n.on(NoiseEvent::Claimed), NoiseAction::Roll { want_v6: true });
    assert_eq!(n.on(NoiseEvent::Cancelled), NoiseAction::End);
    assert!(NoiseRegistrar::start(&relays, &vec![Err("x".to_string())]).is_none());
}

fn first_message(rk: &[u8; 20], client: u32) -> Vec<u8> {
    let mut d = rk.to_vec();
    d.extend_from_slice(&client.to_be_bytes());
    d.extend_from_slice(&[0; 48]);
    d
}

#[test]
fn datagrams_find_their_sessions() {
    let rk = [9u8; 20];
    let shapes = Shapes { data_min: 28, first_min: 72 };
    let mut d = Dispatcher::new();
    let first = first_message(&rk, 77);
    assert_eq!(d.on_datagram(&shapes, &rk, &first), Route::New(77));
    assert_eq!(d.on_datagram(&shapes, &[8; 20], &first), Route::Drop);
    assert!(d.take_client(77, 1000));
    assert!(!d.take_client(78, 1000));
    assert_eq!(d.on_datagram(&shapes, &rk, &first), Route::Again(1000));
    let mut data = 1000u32.to_be_bytes().to_vec();
    data.extend_from_slice(&[0; 30]);
    assert_eq!(d.on_datagram(&shapes, &rk, &data), Route::Session(1000));
    assert_eq!(d.on_datagram(&shapes, &rk, &data[..20]), Route::Drop);

    // The first session that is handed on claims the socket, once.
    assert!(!d.authenticated(false));
    assert!(d.authenticated(true));
    assert!(!d.authenticated(true));
    assert_eq!(d.on_datagram(&shapes, &rk, &first_message(&rk, 78)), Route::Drop);
    assert!(d.session_gone(1000));
}

#[test]
fn a_failed_handshake_leaves_the_socket_open() {
    let rk = [9u8; 20];
    let shapes = Shapes { data_min: 28, first_min: 72 };
    let mut d = Dispatcher::new();
    d.take_client(77, 1000);
    assert!(!d.cleanup(&vec![1000]));
    assert!(!d.handshake_failed(1000, 77));
    assert_eq!(d.on_datagram(&shapes, &rk, &first_message(&rk, 77)), Route::New(77));
    let session = d.draw_client(77);
    assert_eq!(d.on_datagram(&shapes, &rk, &first_message(&rk, 77)), Route::Again(session));
    d.authenticated(true);
    assert!(!d.cleanup(&vec![]));
    assert!(d.cleanup(&vec![session]));
}

#[test]
fn every_client_gets_a_number_of_its_own() {
    let rk = [9u8; 20];
    let shapes = Shapes { data_min: 28, first_min: 72 };
    let mut d = Dispatcher::new();
    let mut given: Vec<u32> = Vec::new();
    for client in 0..100u32 {
        let session = d.draw_client(client);
        assert!(!given.contains(&session));
        given.push(session);
    }
    assert!(given.iter().any(|n| *n != given[0]));
    assert_eq!(d.on_datagram(&shapes, &rk, &first_message(&rk, 42)), Route::Again(given[42]));
}

#[test]
fn defaults_are_as_documented() {
    let t = Timings::default();
    assert_eq!((t.register_interval, t.relay_dial_timeout), (30_000, 8_000));
    let c = Config::default();
    assert_eq!(c.stun_server, "stun.l.google.com:19302");
    assert!(c.enable_direct_upgrade);
    assert_eq!(c.exit_mode, ExitMode::default());
}
