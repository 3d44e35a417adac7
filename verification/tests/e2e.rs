//! Who is let in, on QUIC connections and on TLS streams.

use spora_core::addr::{parse_addr, SocketAddr};
use spora_core::carrier::{
    dial_failure, relay_client_for, DialStage, Dialer, PeerSession, STREAM_TUNNEL_MTU,
};
use spora_core::e2e::{
    accept_ack, authenticate_incoming, bad_ack_text, client_connect, stage_failure, CloseReason,
    ConnectEnd, IncomingRun, SecretSent, SecretStage, Waited, AUTH_ACK,
};
use spora_core::e2e_tls::{accept, connect, AcceptRun, ConnectRun};
use spora_core::identity::RelayProtocol;
use spora_core::signal::SignalChannel;
use spora_core::vocab::Carrier;

fn sa(s: &str) -> SocketAddr {
    parse_addr(&s.chars().collect::<Vec<char>>()).unwrap()
}

fn refused(run: IncomingRun) -> (Option<CloseReason>, String) {
    match authenticate_incoming(&sa("192.0.2.1:5"), &[7; 16], run) {
        Ok(_) => panic!("should be refused"),
        Err(r) => (r.close, r.error),
    }
}

#[test]
fn the_right_secret_is_let_in() {
    let run = IncomingRun {
        handshake: Waited::Done(()),
        secret: Waited::Done([7; 16]),
        ack: Some(Ok(())),
    };
    assert!(authenticate_incoming(&sa("192.0.2.1:5"), &[7; 16], run).is_ok());
}

#[test]
fn everything_else_is_refused() {
    let done = || Waited::Done(());
    assert_eq!(
        refused(IncomingRun { handshake: done(), secret: Waited::Done([8; 16]), ack: None }),
        (Some(CloseReason::BadSecret), "auth from 192.0.2.1:5: bad secret".to_string())
    );
    assert_eq!(
        refused(IncomingRun { handshake: done(), secret: Waited::TimedOut, ack: None }),
        (Some(CloseReason::AuthTimeout), "auth from 192.0.2.1:5 timed out".to_string())
    );
    let stage = stage_failure(SecretStage::ReadSecret, "reset");
    assert_eq!(stage, "read secret: reset");
    assert_eq!(stage_failure(SecretStage::AcceptStream, "reset"), "accept_bi: reset");
    let (close, error) =
        refused(IncomingRun { handshake: done(), secret: Waited::Failed(stage), ack: None });
    assert_eq!(close, Some(CloseReason::AuthError));
    assert!(error.contains("read secret: reset"), "{error}");
    assert_eq!(
        refused(IncomingRun {
            handshake: Waited::TimedOut,
            secret: Waited::Done([7; 16]),
            ack: None
        }),
        (None, "QUIC handshake timed out".to_string())
    );
    assert_eq!(
        refused(IncomingRun {
            handshake: Waited::Failed("x".to_string()),
            secret: Waited::TimedOut,
            ack: None
        }),
        (None, "QUIC handshake failed: x".to_string())
    );
    let (close, error) = refused(IncomingRun {
        handshake: done(),
        secret: Waited::Done([7; 16]),
        ack: Some(Err("gone".to_string())),
    });
    assert_eq!(close, Some(CloseReason::AckFailed));
    assert_eq!(error, "auth ack to 192.0.2.1:5: gone");
    assert!(accept_ack(&sa("192.0.2.1:5"), Ok(())).is_ok());
    assert_eq!(CloseReason::BadSecret.as_str(), "bad-secret");
    assert_eq!(CloseReason::AckFailed.as_str(), "ack-failed");
    assert_eq!(CloseReason::AuthError.as_str(), "auth-error");
    assert_eq!(CloseReason::AuthTimeout.as_str(), "auth-timeout");
}

fn client(end: Waited<SecretSent>) -> Result<(), (Option<CloseReason>, String)> {
    client_connect(ConnectEnd::Handshake(Waited::Done(())), end).map_err(|r| (r.close, r.error))
}

#[test]
fn a_client_takes_only_the_acknowledgement() {
    assert_eq!(client(Waited::Done(SecretSent::Written)), Ok(()));
    assert_eq!(client(Waited::Done(SecretSent::Acked(AUTH_ACK))), Ok(()));
    assert_eq!(bad_ack_text(0x1f), "unexpected auth ack byte 0x1f");
    assert_eq!(
        client(Waited::Done(SecretSent::Acked(2))),
        Err((Some(CloseReason::AuthError), "auth: unexpected auth ack byte 0x2".to_string()))
    );
    assert_eq!(
        client(Waited::Done(SecretSent::OpenFailed("x".to_string()))),
        Err((Some(CloseReason::AuthError), "auth: open_bi: x".to_string()))
    );
    assert_eq!(
        client(Waited::Done(SecretSent::WriteFailed("x".to_string()))),
        Err((Some(CloseReason::AuthError), "auth: write secret: x".to_string()))
    );
    assert!(client(Waited::Done(SecretSent::NotAcked("x".to_string()))).is_err());
    assert_eq!(
        client(Waited::TimedOut),
        Err((Some(CloseReason::AuthTimeout), "auth send timed out".to_string()))
    );
    let end = client_connect(ConnectEnd::Setup("x".to_string()), Waited::TimedOut);
    assert_eq!(end.unwrap_err().error, "QUIC connect setup: x");
    let end = client_connect(ConnectEnd::Handshake(Waited::TimedOut), Waited::TimedOut);
    assert_eq!(end.unwrap_err().error, "QUIC client handshake timed out");
    let end =
        client_connect(ConnectEnd::Handshake(Waited::Failed("x".to_string())), Waited::TimedOut);
    assert_eq!(end.unwrap_err().error, "QUIC handshake: x");
}

#[test]
fn a_stream_lets_in_only_the_secret() {
    assert_eq!(accept(AcceptRun::Secret(Waited::Done([7; 16]), Ok(())), &[7; 16]), Ok(()));
    assert!(accept(AcceptRun::Secret(Waited::Done([8; 16]), Ok(())), &[7; 16]).is_err());
    assert!(accept(AcceptRun::Secret(Waited::TimedOut, Ok(())), &[7; 16]).is_err());
    assert!(
        accept(AcceptRun::Secret(Waited::Done([7; 16]), Err("x".to_string())), &[7; 16]).is_err()
    );
    assert_eq!(
        accept(AcceptRun::Handshake(Waited::TimedOut), &[7; 16]),
        Err("tls accept timed out".to_string())
    );
    assert_eq!(
        accept(AcceptRun::Version("x".to_string()), &[7; 16]),
        Err("tls server version: x".to_string())
    );
    assert_eq!(
        accept(AcceptRun::Config("x".to_string()), &[7; 16]),
        Err("tls server config: x".to_string())
    );
}

#[test]
fn a_stream_client_waits_for_the_acknowledgement() {
    assert_eq!(connect(ConnectRun::Ack(Waited::Done(AUTH_ACK))), Ok(()));
    assert!(connect(ConnectRun::Ack(Waited::Done(0))).is_err());
    assert!(connect(ConnectRun::Ack(Waited::TimedOut)).is_err());
    assert!(connect(ConnectRun::Write("x".to_string())).is_err());
    assert_eq!(
        connect(ConnectRun::Handshake(Waited::Failed("x".to_string()))),
        Err("tls connect (cert pin/handshake): x".to_string())
    );
    assert_eq!(connect(ConnectRun::Name("x".to_string())), Err("server name: x".to_string()));
    assert_eq!(
        connect(ConnectRun::Version("x".to_string())),
        Err("tls client version: x".to_string())
    );
}

#[test]
fn a_protocol_has_its_carrier() {
    let at = sa("192.0.2.1:443");
    let of = |p| PeerSession::dialed(relay_client_for(p), at, true, 1280);
    assert_eq!(of(RelayProtocol::UdpQuic), PeerSession::from_quic(at));
    assert_eq!(of(RelayProtocol::Direct).carrier(), Carrier::Quic);
    assert_eq!(of(RelayProtocol::TcpTls).carrier(), Carrier::TcpTls);
    assert_eq!(of(RelayProtocol::TcpTls).fixed_mtu, STREAM_TUNNEL_MTU);
    assert_eq!(of(RelayProtocol::TcpTls).signal, None);
    assert_eq!(of(RelayProtocol::NoiseUdp).carrier(), Carrier::NoiseUdp);
    assert_eq!(of(RelayProtocol::NoiseUdp).signal, Some(SignalChannel::Noise));
    assert_eq!(of(RelayProtocol::NoiseUdp).fixed_mtu, 1280);
    assert_eq!(Dialer::TcpTls.protocol(), RelayProtocol::TcpTls);
    assert_eq!(dial_failure(DialStage::TcpConnect, &at, "x"), "tcp connect 192.0.2.1:443: x");
    assert_eq!(dial_failure(DialStage::TcpPreamble, &at, "x"), "tcp preamble write: x");
    assert_eq!(dial_failure(DialStage::NoiseSocket, &at, "x"), "nz socket: x");
}
