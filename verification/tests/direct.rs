//! From a relayed session to a direct path.

use spora_core::addr::{parse_addr, SocketAddr};
use spora_core::config::TunnelEvent;
use spora_core::connlog::AddrKind;
use spora_core::fault::{Fault, IoFailure, IoKind};
use spora_core::neg::{is_valid_punch_target, recv_endpoint, send_endpoint};
use spora_core::punch::{
    punch_budget, punch_markers, record_punch_source, Pierce, PierceTry, Punch, PunchStep,
    MAX_PUNCH_SOURCES,
};
use spora_core::report::{Ending, StepReport};
use spora_core::server::TunnelError;
use spora_core::signal::{recv_signal, recv_signal_len, send_signal, SignalChannel, MAX_SIGNAL_MSG};
use spora_core::upgrade::{
    neg_err, upgraded, DirectAttempt, DirectError, DirectEvent, DirectPath, DirectRole, DirectState,
    Seen, UpgradeAsk, UpgradeLoop, MAX_DORMANT_ATTEMPTS,
};
use spora_core::vocab::{Carrier, PathKind, Reason, StepKind};

fn sa(s: &str) -> SocketAddr {
    parse_addr(&s.chars().collect::<Vec<char>>()).unwrap()
}

#[test]
fn rejects_dangerous_punch_targets() {
    let bad = [
        "127.0.0.1:443",
        "[::1]:443",
        "0.0.0.0:443",
        "[::]:443",
        "224.0.0.1:443",
        "255.255.255.255:443",
        "203.0.113.5:0",
    ];
    for s in bad {
        assert!(!is_valid_punch_target(&sa(s)), "should reject {s}");
        let told = recv_endpoint(Some(s.as_bytes().to_vec()));
        assert_eq!(told, Err(TunnelError::PunchTargetRefused(format!("refusing punch target {s}"))));
    }
}

#[test]
fn accepts_real_unicast_endpoints() {
    for s in ["203.0.113.5:54321", "192.168.1.50:54321", "[2001:db8::1]:443"] {
        assert!(is_valid_punch_target(&sa(s)), "should accept {s}");
    }
}

#[test]
fn endpoints_are_told_and_read() {
    let a = sa("203.0.113.5:54321");
    assert_eq!(send_endpoint(&a), b"203.0.113.5:54321".to_vec());
    assert_eq!(recv_endpoint(Some(send_endpoint(&a))), Ok(a));
    assert_eq!(recv_endpoint(Some(b" 203.0.113.5:54321\n".to_vec())), Ok(a));
    assert_eq!(recv_endpoint(None), Err(TunnelError::NegChannelClosed));
    let garbled = recv_endpoint(Some(b"somewhere".to_vec()));
    assert_eq!(
        garbled,
        Err(TunnelError::ProtocolError(
            "invalid peer address: invalid socket address syntax".to_string()
        ))
    );
    match recv_endpoint(Some(vec![0xff, 0xfe])) {
        Err(TunnelError::ProtocolError(e)) => {
            let says = core::str::from_utf8(&[0xff, 0xfe]).unwrap_err().to_string();
            assert_eq!(e, format!("invalid UTF-8 in endpoint: {says}"));
        }
        other => panic!("got {other:?}"),
    }
}

#[test]
fn signal_messages_are_framed_by_their_length() {
    assert_eq!(send_signal(b"hello").unwrap(), b"\0\0\0\x05hello".to_vec());
    let mut stream = send_signal(b"one").unwrap();
    stream.extend(send_signal(b"two").unwrap());
    let (first, used) = recv_signal(&stream).unwrap();
    assert_eq!(first, b"one".to_vec());
    assert_eq!(recv_signal(&stream[used..]).unwrap().0, b"two".to_vec());
    assert_eq!(recv_signal(&stream[..5]), None);
    assert_eq!(recv_signal_len([0, 0, 0, 5]), Some(5));
    assert_eq!(recv_signal_len([0, 1, 0, 0]), Some(MAX_SIGNAL_MSG));
    assert_eq!(recv_signal_len([0, 1, 0, 1]), None);
    assert!(SignalChannel::Noise.is_noise() && !SignalChannel::Quic.is_noise());
}

#[test]
fn punch_source_recording_is_deduped_and_bounded() {
    let mut learned = Vec::new();
    let mut targets = Vec::new();
    let a = sa("1.2.3.4:5");

    assert!(record_punch_source(&mut learned, &mut targets, a));
    assert!(learned.contains(&a) && targets.contains(&a));
    assert!(!record_punch_source(&mut learned, &mut targets, a));

    for i in 0..MAX_PUNCH_SOURCES as u32 {
        let s = sa(&format!("10.0.{}.{}:9", i >> 8, i & 0xff));
        record_punch_source(&mut learned, &mut targets, s);
    }
    assert_eq!(learned.len(), MAX_PUNCH_SOURCES, "learned is bounded by the cap");
    let flood = sa("9.9.9.9:9");
    assert!(!record_punch_source(&mut learned, &mut targets, flood));
    assert_eq!(learned.len(), MAX_PUNCH_SOURCES);
}

#[test]
fn markers_come_from_the_secret() {
    let secret = [7u8; 16];
    let (probe, verify) = punch_markers(&secret);
    let digest = |label: &[u8]| {
        let mut input = label.to_vec();
        input.extend_from_slice(&secret);
        ring::digest::digest(&ring::digest::SHA256, &input).as_ref()[..16].to_vec()
    };
    assert_eq!(probe.to_vec(), digest(b"spora-punch-v1-probe"));
    assert_eq!(verify.to_vec(), digest(b"spora-punch-v1-verify"));
    assert_ne!(punch_markers(&[8u8; 16]).0, probe);
}

#[test]
fn a_punch_is_confirmed_by_a_verify_packet() {
    let (probe, verify) = punch_markers(&[7u8; 16]);
    let told = sa("203.0.113.5:1");
    let seen = sa("203.0.113.5:2");
    let mut p = Punch::new(told);
    assert_eq!(p.received(b"noise", seen, &probe, &verify), PunchStep::Ignore);
    let f = p.timed_out(5000);
    assert_eq!((f.reason, f.detail.as_str()), (Reason::PunchTimeout, "nothing from the peer within 10s"));
    assert_eq!(p.received(&probe, seen, &probe, &verify), PunchStep::Reply(seen));
    assert_eq!(*p.targets(), vec![told, seen]);
    assert_eq!(*p.learned(), vec![seen]);
    let f = p.timed_out(750);
    assert_eq!(
        (f.reason, f.detail.as_str()),
        (
            Reason::VerifyTimeout,
            "heard the peer but never confirmed both directions within 1.5s"
        )
    );
    assert_eq!(p.received(&verify, seen, &probe, &verify), PunchStep::Confirmed(seen));
    assert_eq!(punch_budget(5000), 10_000);
}

fn io(kind: IoKind, text: &str) -> IoFailure {
    IoFailure { kind, os: None, text: text.to_string() }
}

#[test]
fn the_preferred_family_is_asked_first() {
    let v4 = sa("192.0.2.1:3478");
    let v6 = sa("[2001:db8::1]:3478");
    let mut p = match Pierce::start("stun.example:3478", Ok(vec![v4, v6]), true) {
        Ok(p) => p,
        Err(f) => panic!("{f:?}"),
    };
    assert_eq!(p.next(), Ok(PierceTry { local: sa("[::]:54321"), server: v6 }));
    p.bind_failed(&sa("[::]:54321"), &io(IoKind::AddrInUse, "in use"));
    let second = p.next().unwrap();
    assert_eq!(second, PierceTry { local: sa("[::]:54322"), server: v6 });
    for _ in 0..9 {
        let t = p.next().unwrap();
        p.query_failed(&t, "no answer");
    }
    assert_eq!(p.next(), Ok(PierceTry { local: sa("0.0.0.0:54321"), server: v4 }));
    for _ in 0..10 {
        let t = p.next().unwrap();
        p.query_failed(&t, "no answer");
    }
    assert_eq!(
        p.next(),
        Err(Fault::new(Reason::StunTimeout, "stun query to 192.0.2.1:3478 from :54330: no answer"))
    );
    let gone = Pierce::start("s", Err("no such host".to_string()), false);
    assert!(matches!(gone, Err(f) if f == Fault::new(Reason::DnsFailure, "resolve stun s: no such host")));
    let empty = Pierce::start("s", Ok(vec![]), false);
    assert!(matches!(empty, Err(f) if f == Fault::new(Reason::DnsNoRecords, "stun s resolved to no address")));
}

#[test]
fn exchange_errors_are_told_apart() {
    let closed = neg_err(TunnelError::NegChannelClosed);
    assert_eq!(
        closed,
        DirectError::SignalClosed(Fault::new(Reason::SignalClosed, "signal channel closed"))
    );
    assert_eq!(closed.reason(), "signal channel closed");
    assert_eq!(
        neg_err(TunnelError::PunchTargetRefused("no".to_string())),
        DirectError::Transient(Fault::new(Reason::TargetRejected, "no"))
    );
    assert_eq!(
        neg_err(TunnelError::ProtocolError("a \"b\"\n".to_string())),
        DirectError::Transient(Fault::new(
            Reason::ProtocolViolation,
            "ProtocolError(\"a \\\"b\\\"\\n\")"
        ))
    );
    assert_eq!(
        neg_err(TunnelError::PierceError("x".to_string())).fault().detail,
        "PierceError(\"x\")"
    );
}

fn role(initiator: bool, noise: bool) -> DirectRole {
    DirectRole {
        initiator,
        noise,
        path_ipv6: false,
        stun_server: "stun.example:3478".to_string(),
        exchange_timeout: 10_000,
        punch_phase: 5_000,
        nz_mtu: 1280,
    }
}

fn kinds(v: &[StepReport]) -> Vec<StepKind> {
    v.iter().map(|r| r.kind).collect()
}

#[test]
fn responder_upgrade_terminates_when_signal_closes() {
    let mut run = UpgradeLoop::new(false);
    let seen = Seen { cancelled: false, replaced: false, knob: None };
    assert_eq!(run.begin(seen), UpgradeAsk::Attempt);
    let mut attempt = DirectAttempt::start(role(false, false));
    assert_eq!(attempt.begins(), Some(StepKind::EndpointExchange));
    let step = attempt.on(DirectEvent::Received(recv_endpoint(None)));
    assert_eq!(kinds(&step.reports), vec![StepKind::EndpointExchange]);
    assert_eq!(step.reports[0].ending, Ending::Abandoned);
    let e = match attempt.state {
        DirectState::Over(Err(e)) => e,
        other => panic!("got {other:?}"),
    };
    let after = run.failed(&e, None, 15_000);
    assert!(
        after.stop,
        "responder upgrade task must terminate once the signal channel is closed"
    );
    assert_eq!(
        after.event,
        TunnelEvent::DirectUpgradeFailed {
            code: Reason::SignalClosed,
            reason: "signal channel closed".to_string()
        }
    );
}

#[test]
fn an_initiators_attempt_from_end_to_end() {
    let ours = sa("203.0.113.9:54321");
    let told = sa("198.51.100.7:6000");
    let seen = sa("198.51.100.7:6001");
    let local = sa("0.0.0.0:54321");
    let mut a = DirectAttempt::start(role(true, false));
    assert_eq!(a.begins(), Some(StepKind::Stun));
    let s = a.on(DirectEvent::Stunned(Ok(ours)));
    assert_eq!(s.reports[0].via.as_deref(), Some("stun.example:3478"));
    assert_eq!(s.reports[0].local, Some(ours));
    assert_eq!(a.begins(), Some(StepKind::EndpointExchange));
    assert!(a.on(DirectEvent::Sent(true)).reports.is_empty());
    let s = a.on(DirectEvent::Received(Ok(told)));
    assert_eq!(kinds(&s.reports), vec![StepKind::EndpointExchange]);
    assert_eq!(a.state, DirectState::Punch { external: ours, peer: told });
    let s = a.on(DirectEvent::Punched(Ok(seen)));
    assert_eq!((s.reports[0].local, s.reports[0].peer), (Some(ours), Some(seen)));
    assert!(s.logs.is_empty());
    assert!(a.on(DirectEvent::LocalAddr(Ok(local))).reports.is_empty());
    assert_eq!(a.begins(), Some(StepKind::DirectHandshake));
    let s = a.on(DirectEvent::Built(Ok(seen)));
    assert_eq!(s.reports[0].carrier, Some(Carrier::Quic));
    assert_eq!(s.reports[0].path, Some(PathKind::DirectPunched));
    let path = DirectPath { peer: seen, local, quic: true, fixed_mtu: 0 };
    assert_eq!(a.state, DirectState::Over(Ok(path)));

    let up = upgraded(&path, true, Carrier::Quic);
    assert_eq!(up.report.ending, Ending::Done);
    let taken = up.taken.unwrap();
    assert_eq!(taken.event, TunnelEvent::DirectUpgradeSucceeded { local, peer: seen });
    assert_eq!(taken.mtu, None);
    let late = upgraded(&path, false, Carrier::Quic);
    assert_eq!(
        late.report.ending,
        Ending::Failed(Fault::new(Reason::SwapFailed, "tunnel already closed"))
    );
    assert_eq!(late.taken, None);
}

#[test]
fn a_responders_attempt_logs_what_it_learns() {
    let ours = sa("203.0.113.9:54321");
    let told = sa("198.51.100.7:6000");
    let seen = sa("198.51.100.7:6001");
    let local = sa("0.0.0.0:54321");
    let mut a = DirectAttempt::start(role(false, true));
    let s = a.on(DirectEvent::Received(Ok(told)));
    assert_eq!(s.logs, vec![(AddrKind::Reported, told)]);
    assert_eq!(a.role.prefers_v6(Some(told)), false);
    let s = a.on(DirectEvent::Stunned(Ok(ours)));
    assert_eq!(s.logs, vec![(AddrKind::SharerPublic, ours)]);
    a.on(DirectEvent::Sent(true));
    let s = a.on(DirectEvent::Punched(Ok(seen)));
    assert_eq!(s.logs, vec![(AddrKind::PunchVerified, seen)]);
    assert_eq!(s.reports[0].local, None);
    a.on(DirectEvent::LocalAddr(Ok(local)));
    let from = sa("198.51.100.7:6002");
    let s = a.on(DirectEvent::Built(Ok(from)));
    assert_eq!(s.reports[0].carrier, Some(Carrier::NoiseUdp));
    let path = DirectPath { peer: from, local, quic: false, fixed_mtu: 1280 };
    assert_eq!(a.state, DirectState::Over(Ok(path)));
    let mtu = upgraded(&path, true, Carrier::NoiseUdp).taken.unwrap().mtu.unwrap();
    assert_eq!(mtu.detail.as_deref(), Some("declared 1280"));
}

fn failed_with(a: &DirectAttempt) -> (Reason, String) {
    match &a.state {
        DirectState::Over(Err(DirectError::Transient(f))) => (f.reason, f.detail.clone()),
        other => panic!("got {other:?}"),
    }
}

#[test]
fn endpoints_of_different_families_end_an_attempt() {
    let ours = sa("[2001:db8::1]:54321");
    let told = sa("198.51.100.7:6000");
    let mut a = DirectAttempt::start(role(true, false));
    a.on(DirectEvent::Stunned(Ok(ours)));
    a.on(DirectEvent::Sent(true));
    let s = a.on(DirectEvent::Received(Ok(told)));
    assert_eq!(kinds(&s.reports), vec![StepKind::EndpointExchange, StepKind::Punch]);
    assert_eq!(
        failed_with(&a),
        (
            Reason::FamilyMismatch,
            "address family mismatch: ours [2001:db8::1]:54321, peer 198.51.100.7:6000".to_string()
        )
    );
}

#[test]
fn every_way_an_attempt_can_fail() {
    let ours = sa("203.0.113.9:54321");
    let told = sa("198.51.100.7:6000");
    let start = |initiator| DirectAttempt::start(role(initiator, false));

    let mut a = start(true);
    let s = a.on(DirectEvent::Stunned(Err(Fault::new(Reason::StunFailed, "none"))));
    assert_eq!(kinds(&s.reports), vec![StepKind::Stun]);
    assert_eq!(failed_with(&a), (Reason::StunFailed, "none".to_string()));

    let mut a = start(false);
    a.on(DirectEvent::Received(Ok(told)));
    let s = a.on(DirectEvent::Stunned(Err(Fault::new(Reason::StunFailed, "none"))));
    assert_eq!(kinds(&s.reports), vec![StepKind::Stun, StepKind::EndpointExchange]);

    let mut a = start(true);
    a.on(DirectEvent::Stunned(Ok(ours)));
    let s = a.on(DirectEvent::Sent(false));
    assert_eq!(s.reports[0].local, Some(ours));
    assert!(matches!(a.state, DirectState::Over(Err(DirectError::SignalClosed(_)))));

    let mut a = start(true);
    a.on(DirectEvent::Stunned(Ok(ours)));
    a.on(DirectEvent::Sent(true));
    a.on(DirectEvent::RecvTimedOut);
    assert_eq!(
        failed_with(&a),
        (Reason::ExchangeTimeout, "no endpoint from the peer within 10s".to_string())
    );

    let punched = |initiator| {
        let mut a = start(initiator);
        if initiator {
            a.on(DirectEvent::Stunned(Ok(ours)));
            a.on(DirectEvent::Sent(true));
            a.on(DirectEvent::Received(Ok(told)));
        } else {
            a.on(DirectEvent::Received(Ok(told)));
            a.on(DirectEvent::Stunned(Ok(ours)));
            a.on(DirectEvent::Sent(true));
        }
        a
    };
    let mut a = punched(true);
    let s = a.on(DirectEvent::Punched(Err(Fault::new(Reason::PunchTimeout, "late"))));
    assert_eq!(s.reports[0].peer, Some(told));
    assert_eq!(failed_with(&a), (Reason::PunchTimeout, "late".to_string()));

    let mut a = punched(true);
    a.on(DirectEvent::Punched(Ok(told)));
    a.on(DirectEvent::LocalAddr(Err(io(IoKind::PermissionDenied, "denied"))));
    assert_eq!(failed_with(&a), (Reason::PermissionDenied, "local_addr: denied".to_string()));

    let built = |e| {
        let mut a = punched(false);
        a.on(DirectEvent::Punched(Ok(told)));
        a.on(DirectEvent::LocalAddr(Ok(ours)));
        let s = a.on(e);
        assert_eq!(kinds(&s.reports), vec![StepKind::DirectHandshake]);
        (failed_with(&a), s.reports[0].ending == Ending::Abandoned)
    };
    assert_eq!(
        built(DirectEvent::AcceptClosed),
        ((Reason::TransportClosed, "direct endpoint closed before accept".to_string()), true)
    );
    assert_eq!(
        built(DirectEvent::AcceptTimedOut),
        (
            (
                Reason::VerifyTimeout,
                "direct accept timed out after 10s (initiator never dialed)".to_string()
            ),
            true
        )
    );
    assert_eq!(
        built(DirectEvent::SetupFailed(Fault::new(Reason::SocketError, "into_std: x"))),
        ((Reason::SocketError, "into_std: x".to_string()), true)
    );
    assert_eq!(
        built(DirectEvent::Built(Err(Fault::new(Reason::HandshakeTimeout, "timed out")))),
        ((Reason::HandshakeTimeout, "timed out".to_string()), false)
    );
}

#[test]
fn a_dormant_client_waits_to_be_woken() {
    let mut run = UpgradeLoop::new(true);
    let dormant = Seen { cancelled: false, replaced: false, knob: Some(0) };
    let e = DirectError::transient(Fault::new(Reason::PunchTimeout, "late"));
    for _ in 0..MAX_DORMANT_ATTEMPTS {
        assert_eq!(run.begin(dormant), UpgradeAsk::Attempt);
        let f = run.failed(&e, Some(0), 15_000);
        assert!(!f.stop);
        assert_eq!(f.delay, 15_000);
    }
    assert_eq!(run.begin(dormant), UpgradeAsk::Park);
    assert_eq!(run.unpark(dormant), UpgradeAsk::Park);
    assert_eq!(run.unpark(Seen { replaced: true, ..dormant }), UpgradeAsk::Stop);
    assert_eq!(run.unpark(Seen { cancelled: true, ..dormant }), UpgradeAsk::Stop);
    let awake = Seen { knob: Some(30), ..dormant };
    assert_eq!(run.unpark(awake), UpgradeAsk::Attempt);
    assert_eq!(run.dormant_attempts, 0);
    assert_eq!(run.begin(Seen { cancelled: true, ..awake }), UpgradeAsk::Stop);
    assert_eq!(run.begin(Seen { replaced: true, ..awake }), UpgradeAsk::Stop);
}
