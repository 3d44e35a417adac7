//! The end-to-end session over a byte stream: TLS, then the secret and its
//! acknowledgement.

use vstd::prelude::*;
use vstd::string::*;
use crate::e2e;
use crate::e2e::{bad_ack_text, Waited, AUTH_ACK};
use crate::outside;

verus! {

/// How the sharer's side of a stream ended, as far as it got.
pub enum AcceptRun {
    /// The versions of TLS could not be set.
    Version(String),
    /// The certificate could not be used.
    Config(String),
    /// The TLS handshake did not come about.
    Handshake(Waited<()>),
    /// The secret was waited for, and the acknowledgement written where it was
    /// right.
    Secret(Waited<[u8; 16]>, Result<(), String>),
}

/// What went wrong on the sharer's side of a stream.
pub open spec fn accept_error(run: AcceptRun, expected: Seq<u8>) -> Option<Seq<char>> {
    match run {
        AcceptRun::Version(e) => Some("tls server version: "@ + e@),
        AcceptRun::Config(e) => Some("tls server config: "@ + e@),
        AcceptRun::Handshake(Waited::Failed(e)) => Some("tls accept: "@ + e@),
        AcceptRun::Handshake(Waited::TimedOut) => Some("tls accept timed out"@),
        AcceptRun::Handshake(Waited::Done(_)) => None,
        AcceptRun::Secret(Waited::TimedOut, _) => Some("secret read timed out"@),
        AcceptRun::Secret(Waited::Failed(e), _) => Some("read secret: "@ + e@),
        AcceptRun::Secret(Waited::Done(presented), acked) => if presented@ != expected {
            Some("bad secret"@)
        } else {
            match acked {
                Ok(_) => None,
                Err(e) => Some("write ack: "@ + e@),
            }
        },
    }
}

/// Decides what becomes of a stream that a client has opened. A handshake that
/// came about is not the end: the secret is waited for next.
pub fn accept(run: AcceptRun, expected: &[u8; 16]) -> (r: Result<(), String>)
    ensures
        match r {
            Ok(_) => accept_error(run, expected@) is None,
            Err(e) => accept_error(run, expected@) == Some(e@),
        },
{
    match run {
        AcceptRun::Version(e) => Err(String::from_str("tls server version: ").concat(e.as_str())),
        AcceptRun::Config(e) => Err(String::from_str("tls server config: ").concat(e.as_str())),
        AcceptRun::Handshake(Waited::Failed(e)) => Err(
            String::from_str("tls accept: ").concat(e.as_str()),
        ),
        AcceptRun::Handshake(Waited::TimedOut) => Err(String::from_str("tls accept timed out")),
        AcceptRun::Handshake(Waited::Done(_)) => Ok(()),
        AcceptRun::Secret(Waited::TimedOut, _) => Err(String::from_str("secret read timed out")),
        AcceptRun::Secret(Waited::Failed(e), _) => Err(
            String::from_str("read secret: ").concat(e.as_str()),
        ),
        AcceptRun::Secret(Waited::Done(presented), acked) => {
            if !outside::equal_in_constant_time(&presented, expected) {
                return Err(String::from_str("bad secret"));
            }
            match acked {
                Ok(_) => Ok(()),
                Err(e) => Err(String::from_str("write ack: ").concat(e.as_str())),
            }
        },
    }
}

/// How the client's side of a stream ended, as far as it got.
pub enum ConnectRun {
    /// The versions of TLS could not be set.
    Version(String),
    /// The name for the certificate check was refused.
    Name(String),
    /// The TLS handshake did not come about.
    Handshake(Waited<()>),
    /// The secret could not be written.
    Write(String),
    /// The acknowledgement was waited for.
    Ack(Waited<u8>),
}

/// What went wrong on the client's side of a stream.
pub open spec fn connect_error(run: ConnectRun) -> Option<Seq<char>> {
    match run {
        ConnectRun::Version(e) => Some("tls client version: "@ + e@),
        ConnectRun::Name(e) => Some("server name: "@ + e@),
        ConnectRun::Handshake(Waited::Failed(e)) => Some(
            "tls connect (cert pin/handshake): "@ + e@,
        ),
        ConnectRun::Handshake(Waited::TimedOut) => Some("tls connect timed out"@),
        ConnectRun::Handshake(Waited::Done(_)) => None,
        ConnectRun::Write(e) => Some("write secret: "@ + e@),
        ConnectRun::Ack(Waited::TimedOut) => Some("auth ack timed out"@),
        ConnectRun::Ack(Waited::Failed(e)) => Some(
            "auth not acked (bad/expired secret?): "@ + e@,
        ),
        ConnectRun::Ack(Waited::Done(b)) => if b == AUTH_ACK {
            None
        } else {
            Some(e2e::bad_ack(b))
        },
    }
}

/// Decides what becomes of a stream that was opened to the sharer. A handshake
/// that came about is not the end: the secret is written next, and its
/// acknowledgement waited for.
pub fn connect(run: ConnectRun) -> (r: Result<(), String>)
    ensures
        match r {
            Ok(_) => connect_error(run) is None,
            Err(e) => connect_error(run) == Some(e@),
        },
{
    match run {
        ConnectRun::Version(e) => Err(String::from_str("tls client version: ").concat(e.as_str())),
        ConnectRun::Name(e) => Err(String::from_str("server name: ").concat(e.as_str())),
        ConnectRun::Handshake(Waited::Failed(e)) => Err(
            String::from_str("tls connect (cert pin/handshake): ").concat(e.as_str()),
        ),
        ConnectRun::Handshake(Waited::TimedOut) => Err(String::from_str("tls connect timed out")),
        ConnectRun::Handshake(Waited::Done(_)) => Ok(()),
        ConnectRun::Write(e) => Err(String::from_str("write secret: ").concat(e.as_str())),
        ConnectRun::Ack(Waited::TimedOut) => Err(String::from_str("auth ack timed out")),
        ConnectRun::Ack(Waited::Failed(e)) => Err(
            String::from_str("auth not acked (bad/expired secret?): ").concat(e.as_str()),
        ),
        ConnectRun::Ack(Waited::Done(b)) => if b == AUTH_ACK {
            Ok(())
        } else {
            Err(bad_ack_text(b))
        },
    }
}

/// The sharer lets a client in if and only if it presents the secret, where
/// nothing fails on the way; and the client takes the acknowledgement, and no
/// other byte, for that.
pub proof fn stream_admits_only_the_secret(presented: [u8; 16], expected: Seq<u8>, byte: u8)
    ensures
        accept_error(AcceptRun::Secret(Waited::Done(presented), Ok(())), expected) is None
            <==> presented@ == expected,
        connect_error(ConnectRun::Ack(Waited::Done(byte))) is None <==> byte == AUTH_ACK,
{
}

/// A stream is served exactly where nothing failed or came late and the secret
/// that was presented is the expected one; a client takes it as served where
/// nothing failed or came late and the answer is the byte one.
pub proof fn streams_need_every_step(a: AcceptRun, expected: Seq<u8>, c: ConnectRun)
    ensures
        accept_error(a, expected) is None <==> {
            ||| a matches AcceptRun::Handshake(w) && w is Done
            ||| a matches AcceptRun::Secret(w, acked) && acked is Ok && (w matches Waited::Done(p)
                && p@ == expected)
        },
        connect_error(c) is None <==> {
            ||| c matches ConnectRun::Handshake(w) && w is Done
            ||| c matches ConnectRun::Ack(w) && w == Waited::Done(1u8)
        },
{
}

} // verus!
