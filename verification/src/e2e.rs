//! The end-to-end session over QUIC: the client presents the secret on the
//! first stream, and the sharer acknowledges it.

use vstd::prelude::*;
use vstd::string::*;
use crate::addr::SocketAddr;
use crate::outside;
use crate::text;

verus! {

/// The protocol that both ends name in the TLS handshake.
pub const E2E_ALPN: &'static str = "h3";

/// The name that the client gives to the certificate check, which ignores it.
pub const SERVER_NAME: &'static str = "spora.peer";

/// How long a handshake may take, in milliseconds.
pub const HANDSHAKE_TIMEOUT: u64 = 10_000;

/// How long the exchange of the secret may take, in milliseconds.
pub const AUTH_TIMEOUT: u64 = 5_000;

/// The byte by which the sharer accepts the secret.
pub const AUTH_ACK: u8 = 0x01;

/// The code with which a connection is closed.
pub const CLOSE_CODE: u32 = 1;

/// How something that was waited for ended.
#[derive(Debug, PartialEq, Eq)]
pub enum Waited<T> {
    Done(T),
    Failed(String),
    TimedOut,
}

/// Why a connection is closed.
#[derive(Debug, Clone, Copy, PartialEq, Eq, Structural)]
pub enum CloseReason {
    AuthError,
    AuthTimeout,
    BadSecret,
    AckFailed,
}

impl CloseReason {
    /// The words that the peer is told.
    pub open spec fn text(&self) -> Seq<char> {
        match self {
            CloseReason::AuthError => "auth-error"@,
            CloseReason::AuthTimeout => "auth-timeout"@,
            CloseReason::BadSecret => "bad-secret"@,
            CloseReason::AckFailed => "ack-failed"@,
        }
    }

    /// The words that the peer is told.
    pub fn as_str(&self) -> (s: &'static str)
        ensures
            s@ == self.text(),
    {
        match self {
            CloseReason::AuthError => "auth-error",
            CloseReason::AuthTimeout => "auth-timeout",
            CloseReason::BadSecret => "bad-secret",
            CloseReason::AckFailed => "ack-failed",
        }
    }
}

/// A session that was refused: what the peer is told on closing, where there
/// is a connection to close, and what went wrong.
#[derive(Debug, PartialEq, Eq)]
pub struct Refusal {
    pub close: Option<CloseReason>,
    pub error: String,
}

/// Whether a result is a refusal with these words.
pub open spec fn refused<T>(r: Result<T, Refusal>, close: Option<CloseReason>, error: Seq<char>) -> bool {
    r matches Err(f) && f.close == close && f.error@ == error
}

fn refuse(close: Option<CloseReason>, error: String) -> (f: Refusal)
    ensures
        f.close == close,
        f.error == error,
{
    Refusal { close, error }
}

/// What follows on the handshake of an incoming connection.
pub fn accept_handshake(end: Waited<()>) -> (r: Result<(), Refusal>)
    ensures
        match end {
            Waited::Done(_) => r is Ok,
            Waited::Failed(e) => refused(r, None, "QUIC handshake failed: "@ + e@),
            Waited::TimedOut => refused(r, None, "QUIC handshake timed out"@),
        },
{
    match end {
        Waited::Done(_) => Ok(()),
        Waited::Failed(e) => Err(
            refuse(None, String::from_str("QUIC handshake failed: ").concat(e.as_str())),
        ),
        Waited::TimedOut => Err(refuse(None, String::from_str("QUIC handshake timed out"))),
    }
}

/// The part of the exchange in which a connection failed.
#[derive(Debug, Clone, Copy, PartialEq, Eq, Structural)]
pub enum SecretStage {
    /// The stream was not opened.
    AcceptStream,
    /// The secret was not read.
    ReadSecret,
}

/// What the failure of a stage is called.
pub open spec fn stage_error(stage: SecretStage, e: Seq<char>) -> Seq<char> {
    match stage {
        SecretStage::AcceptStream => "accept_bi: "@ + e,
        SecretStage::ReadSecret => "read secret: "@ + e,
    }
}

/// What the failure of a stage is called.
pub fn stage_failure(stage: SecretStage, e: &str) -> (s: String)
    ensures
        s@ == stage_error(stage, e@),
{
    match stage {
        SecretStage::AcceptStream => String::from_str("accept_bi: ").concat(e),
        SecretStage::ReadSecret => String::from_str("read secret: ").concat(e),
    }
}

/// What follows on waiting for the secret of an incoming connection. It is
/// compared in a time that does not depend on where it differs.
pub fn accept_secret(peer: &SocketAddr, expected: &[u8; 16], end: Waited<[u8; 16]>) -> (r: Result<
    (),
    Refusal,
>)
    ensures
        match end {
            Waited::Done(presented) => if presented@ == expected@ {
                r is Ok
            } else {
                refused(
                    r,
                    Some(CloseReason::BadSecret),
                    "auth from "@ + peer.text() + ": bad secret"@,
                )
            },
            Waited::Failed(e) => refused(
                r,
                Some(CloseReason::AuthError),
                "auth from "@ + peer.text() + ": "@ + e@,
            ),
            Waited::TimedOut => refused(
                r,
                Some(CloseReason::AuthTimeout),
                "auth from "@ + peer.text() + " timed out"@,
            ),
        },
{
    let from = String::from_str("auth from ").concat(peer.to_text().as_str());
    match end {
        Waited::Done(presented) => if outside::equal_in_constant_time(&presented, expected) {
            Ok(())
        } else {
            Err(refuse(Some(CloseReason::BadSecret), from.concat(": bad secret")))
        },
        Waited::Failed(e) => Err(
            refuse(Some(CloseReason::AuthError), from.concat(": ").concat(e.as_str())),
        ),
        Waited::TimedOut => Err(refuse(Some(CloseReason::AuthTimeout), from.concat(" timed out"))),
    }
}

/// What follows on writing the acknowledgement.
pub fn accept_ack(peer: &SocketAddr, written: Result<(), String>) -> (r: Result<(), Refusal>)
    ensures
        match written {
            Ok(_) => r is Ok,
            Err(e) => refused(
                r,
                Some(CloseReason::AckFailed),
                "auth ack to "@ + peer.text() + ": "@ + e@,
            ),
        },
{
    match written {
        Ok(_) => Ok(()),
        Err(e) => Err(
            refuse(
                Some(CloseReason::AckFailed),
                String::from_str("auth ack to ").concat(peer.to_text().as_str()).concat(
                    ": ",
                ).concat(e.as_str()),
            ),
        ),
    }
}

/// What has come of an incoming connection, as far as it got.
pub struct IncomingRun {
    pub handshake: Waited<()>,
    pub secret: Waited<[u8; 16]>,
    /// How the acknowledgement ended, where one was to be written.
    pub ack: Option<Result<(), String>>,
}

/// Whether an incoming connection becomes a session.
pub open spec fn admitted(run: IncomingRun, expected: Seq<u8>) -> bool {
    &&& run.handshake is Done
    &&& run.secret matches Waited::Done(presented) && presented@ == expected
    &&& run.ack matches Some(written) ==> written is Ok
}

/// Decides what becomes of an incoming connection from all that has come of
/// it: the first part that failed decides.
pub fn authenticate_incoming(peer: &SocketAddr, expected: &[u8; 16], run: IncomingRun) -> (r:
    Result<(), Refusal>)
    ensures
        r is Ok <==> admitted(run, expected@),
        run.handshake matches Waited::Failed(e) ==> refused(
            r,
            None,
            "QUIC handshake failed: "@ + e@,
        ),
        run.handshake is TimedOut ==> refused(r, None, "QUIC handshake timed out"@),
        run.handshake is Done && run.secret is TimedOut ==> refused(
            r,
            Some(CloseReason::AuthTimeout),
            "auth from "@ + peer.text() + " timed out"@,
        ),
        run.handshake is Done ==> (run.secret matches Waited::Failed(e) ==> refused(
            r,
            Some(CloseReason::AuthError),
            "auth from "@ + peer.text() + ": "@ + e@,
        )),
        run.handshake is Done ==> (run.secret matches Waited::Done(presented) ==> presented@
            != expected@ ==> refused(
            r,
            Some(CloseReason::BadSecret),
            "auth from "@ + peer.text() + ": bad secret"@,
        )),
        run.handshake is Done ==> (run.secret matches Waited::Done(presented) ==> presented@
            == expected@ ==> (run.ack matches Some(Err(e)) ==> refused(
            r,
            Some(CloseReason::AckFailed),
            "auth ack to "@ + peer.text() + ": "@ + e@,
        ))),
{
    match accept_handshake(run.handshake) {
        Ok(_) => {},
        Err(f) => return Err(f),
    }
    match accept_secret(peer, expected, run.secret) {
        Ok(_) => {},
        Err(f) => return Err(f),
    }
    match run.ack {
        Some(written) => accept_ack(peer, written),
        None => Ok(()),
    }
}

/// How the client's attempt to connect ended.
#[derive(Debug, PartialEq, Eq)]
pub enum ConnectEnd {
    /// The connection could not be started.
    Setup(String),
    Handshake(Waited<()>),
}

/// What follows on the client's attempt to connect.
pub fn connected(end: ConnectEnd) -> (r: Result<(), Refusal>)
    ensures
        match end {
            ConnectEnd::Setup(e) => refused(r, None, "QUIC connect setup: "@ + e@),
            ConnectEnd::Handshake(Waited::Done(_)) => r is Ok,
            ConnectEnd::Handshake(Waited::Failed(e)) => refused(r, None, "QUIC handshake: "@ + e@),
            ConnectEnd::Handshake(Waited::TimedOut) => refused(
                r,
                None,
                "QUIC client handshake timed out"@,
            ),
        },
{
    match end {
        ConnectEnd::Setup(e) => Err(
            refuse(None, String::from_str("QUIC connect setup: ").concat(e.as_str())),
        ),
        ConnectEnd::Handshake(Waited::Done(_)) => Ok(()),
        ConnectEnd::Handshake(Waited::Failed(e)) => Err(
            refuse(None, String::from_str("QUIC handshake: ").concat(e.as_str())),
        ),
        ConnectEnd::Handshake(Waited::TimedOut) => Err(
            refuse(None, String::from_str("QUIC client handshake timed out")),
        ),
    }
}

/// How the client's exchange of the secret went.
#[derive(Debug, PartialEq, Eq)]
pub enum SecretSent {
    /// The stream could not be opened.
    OpenFailed(String),
    /// The secret could not be written.
    WriteFailed(String),
    /// The secret was written, and no acknowledgement is waited for.
    Written,
    /// No acknowledgement came.
    NotAcked(String),
    /// This byte came.
    Acked(u8),
}

/// What an acknowledgement that is none is called.
pub open spec fn bad_ack(byte: u8) -> Seq<char> {
    "unexpected auth ack byte 0x"@ + text::numeral(byte as nat, 16)
}

/// What an acknowledgement that is none is called.
pub fn bad_ack_text(byte: u8) -> (s: String)
    ensures
        s@ == bad_ack(byte),
{
    let mut s = String::from_str("unexpected auth ack byte 0x");
    text::push_numeral(&mut s, byte as u64, 16);
    s
}

/// What went wrong in the client's exchange of the secret.
pub open spec fn secret_error(sent: SecretSent) -> Option<Seq<char>> {
    match sent {
        SecretSent::OpenFailed(e) => Some("open_bi: "@ + e@),
        SecretSent::WriteFailed(e) => Some("write secret: "@ + e@),
        SecretSent::Written => None,
        SecretSent::NotAcked(e) => Some("auth not acked (bad/expired secret?): "@ + e@),
        SecretSent::Acked(b) => if b == AUTH_ACK {
            None
        } else {
            Some(bad_ack(b))
        },
    }
}

/// What follows on the client's exchange of the secret.
pub fn secret_sent(end: Waited<SecretSent>) -> (r: Result<(), Refusal>)
    ensures
        match end {
            Waited::Done(sent) => match secret_error(sent) {
                None => r is Ok,
                Some(e) => refused(r, Some(CloseReason::AuthError), "auth: "@ + e),
            },
            Waited::Failed(e) => refused(r, Some(CloseReason::AuthError), "auth: "@ + e@),
            Waited::TimedOut => refused(
                r,
                Some(CloseReason::AuthTimeout),
                "auth send timed out"@,
            ),
        },
{
    let sent = match end {
        Waited::Done(sent) => sent,
        Waited::Failed(e) => return Err(
            refuse(Some(CloseReason::AuthError), String::from_str("auth: ").concat(e.as_str())),
        ),
        Waited::TimedOut => return Err(
            refuse(Some(CloseReason::AuthTimeout), String::from_str("auth send timed out")),
        ),
    };
    let error = match sent {
        SecretSent::OpenFailed(e) => String::from_str("open_bi: ").concat(e.as_str()),
        SecretSent::WriteFailed(e) => String::from_str("write secret: ").concat(e.as_str()),
        SecretSent::Written => return Ok(()),
        SecretSent::NotAcked(e) => String::from_str(
            "auth not acked (bad/expired secret?): ",
        ).concat(e.as_str()),
        SecretSent::Acked(b) => if b == AUTH_ACK {
            return Ok(());
        } else {
            bad_ack_text(b)
        },
    };
    Err(refuse(Some(CloseReason::AuthError), String::from_str("auth: ").concat(error.as_str())))
}

/// Decides what becomes of the client's connection: the first part that failed
/// decides.
pub fn client_connect(connect: ConnectEnd, secret: Waited<SecretSent>) -> (r: Result<(), Refusal>)
    ensures
        r is Ok <==> (connect matches ConnectEnd::Handshake(Waited::Done(_))) && (
        secret matches Waited::Done(sent) && secret_error(sent) is None),
        connect matches ConnectEnd::Setup(e) ==> refused(r, None, "QUIC connect setup: "@ + e@),
        connect matches ConnectEnd::Handshake(Waited::Failed(e)) ==> refused(
            r,
            None,
            "QUIC handshake: "@ + e@,
        ),
        connect matches ConnectEnd::Handshake(Waited::TimedOut) ==> refused(
            r,
            None,
            "QUIC client handshake timed out"@,
        ),
        connect matches ConnectEnd::Handshake(Waited::Done(_)) ==> match secret {
            Waited::Done(sent) => secret_error(sent) matches Some(e) ==> refused(
                r,
                Some(CloseReason::AuthError),
                "auth: "@ + e,
            ),
            Waited::Failed(e) => refused(r, Some(CloseReason::AuthError), "auth: "@ + e@),
            Waited::TimedOut => refused(
                r,
                Some(CloseReason::AuthTimeout),
                "auth send timed out"@,
            ),
        },
{
    match connected(connect) {
        Ok(_) => secret_sent(secret),
        Err(f) => Err(f),
    }
}

/// What a client that waits for the acknowledgement meets with, from what the
/// sharer decides: the byte, or the end of the stream.
pub open spec fn reply_to(accepted: bool, closed: String) -> SecretSent {
    if accepted {
        SecretSent::Acked(AUTH_ACK)
    } else {
        SecretSent::NotAcked(closed)
    }
}

/// A client is let in if and only if it presents the sharer's secret, and a
/// client that is not let in learns it as an error, where both wait for the
/// acknowledgement and nothing fails on the way.
pub proof fn only_the_secret_is_let_in(presented: [u8; 16], expected: Seq<u8>, closed: String)
    ensures
        ({
            let run = IncomingRun {
                handshake: Waited::Done(()),
                secret: Waited::Done(presented),
                ack: Some(Ok(())),
            };
            &&& admitted(run, expected) <==> presented@ == expected
            &&& secret_error(reply_to(admitted(run, expected), closed)) is None <==> presented@
                == expected
        }),
{
}

/// A peer is let in exactly where the handshake was done in time, the secret
/// came in time and is, byte for byte, the expected one, and the answer, if one
/// is owed, could be written.
pub proof fn admission_needs_every_step(run: IncomingRun, expected: Seq<u8>)
    ensures
        run.handshake is Failed || run.handshake is TimedOut ==> !admitted(run, expected),
        run.secret is Failed || run.secret is TimedOut ==> !admitted(run, expected),
        run.secret matches Waited::Done(presented) ==> (exists|i: int|
            0 <= i < 16 && expected.len() == 16 && presented@[i] != expected[i]) ==> !admitted(
            run,
            expected,
        ),
        run.ack matches Some(Err(_)) ==> !admitted(run, expected),
        run.handshake is Done && (run.secret matches Waited::Done(presented) && expected.len() == 16
            && forall|i: int| 0 <= i < 16 ==> presented@[i] == expected[i]) && !(
        run.ack matches Some(Err(_))) ==> admitted(run, expected),
{
    if let Waited::Done(presented) = run.secret {
        if expected.len() == 16 && (forall|i: int| 0 <= i < 16 ==> presented@[i] == expected[i]) {
            assert(presented@ =~= expected);
        }
    }
}

/// A client takes its secret as accepted where it was written and no answer is
/// owed, or where the answer is the byte one; nothing else will do.
pub proof fn only_the_answer_one_accepts(sent: SecretSent)
    ensures
        secret_error(sent) is None <==> sent is Written || sent == SecretSent::Acked(1u8),
{
}

} // verus!
