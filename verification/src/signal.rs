//! The channel on which two authenticated peers exchange messages beside the
//! tunnel's packets.

use vstd::prelude::*;
use vstd::string::*;
use crate::bytes;
use crate::text;

verus! {

/// The longest message that is accepted, in bytes.
pub const MAX_SIGNAL_MSG: usize = 65536;

/// What carries the channel: a stream of a QUIC connection, with a length
/// before each message, or messages inside a Noise session.
#[derive(Debug, Clone, Copy, PartialEq, Eq)]
pub enum SignalChannel {
    Quic,
    Noise,
}

impl SignalChannel {
    /// Whether the channel runs inside a Noise session.
    pub fn is_noise(&self) -> (r: bool)
        ensures
            r == (self is Noise),
    {
        match self {
            SignalChannel::Quic => false,
            SignalChannel::Noise => true,
        }
    }
}

/// A message on a stream: its length in four bytes, then the message.
pub open spec fn frame(data: Seq<u8>) -> Seq<u8> {
    bytes::be32_bytes(data.len()) + data
}

/// Whether a length can be written before a message.
pub open spec fn can_frame(len: nat) -> bool {
    len <= 0xffff_ffff
}

/// What is written on a stream for a message.
pub fn send_signal(data: &[u8]) -> (r: Result<Vec<u8>, String>)
    ensures
        match r {
            Ok(out) => can_frame(data@.len()) && out@ == frame(data@),
            Err(e) => !can_frame(data@.len()) && e@ == "signal message too large: "@ + text::dec(
                data@.len(),
            ) + " bytes"@,
        },
{
    let n: usize = data.len();
    if n > 0xffff_ffff {
        return Err(
            String::from_str("signal message too large: ").concat(
                text::dec_text(n as u64).as_str(),
            ).concat(" bytes"),
        );
    }
    let mut out: Vec<u8> = Vec::new();
    bytes::push_u32(&mut out, n as u32);
    bytes::push_bytes(&mut out, data);
    assert(out@ =~= frame(data@));
    Ok(out)
}

/// The length of the message that follows four bytes of a stream. `None` where
/// it is longer than is accepted: the stream is then given up.
pub fn recv_signal_len(header: [u8; 4]) -> (r: Option<usize>)
    ensures
        ({
            let n = bytes::be32(header@[0], header@[1], header@[2], header@[3]);
            r == if n <= MAX_SIGNAL_MSG {
                Some(n as usize)
            } else {
                None
            }
        }),
{
    let n: u32 = bytes::u32_of(header[0], header[1], header[2], header[3]);
    if n > 65536 {
        None
    } else {
        Some(n as usize)
    }
}

/// The first message of a stream and what follows it. `None` where the stream
/// ends before the message does, or the message is too long.
pub open spec fn message_in(stream: Seq<u8>) -> Option<(Seq<u8>, Seq<u8>)> {
    if stream.len() < 4 {
        None
    } else {
        let n = bytes::be32(stream[0], stream[1], stream[2], stream[3]);
        if n > MAX_SIGNAL_MSG || stream.len() < 4 + n {
            None
        } else {
            Some((stream.subrange(4, 4 + n as int), stream.skip(4 + n as int)))
        }
    }
}

/// The first message of what has come on a stream, and how many bytes it takes
/// with its length. `None` where it is not there yet, or too long.
pub fn recv_signal(stream: &[u8]) -> (r: Option<(Vec<u8>, usize)>)
    ensures
        match r {
            Some((data, used)) => used <= stream@.len() && message_in(stream@) == Some(
                (data@, stream@.skip(used as int)),
            ),
            None => message_in(stream@) is None,
        },
{
    if stream.len() < 4 {
        return None;
    }
    let header: [u8; 4] = [stream[0], stream[1], stream[2], stream[3]];
    match recv_signal_len(header) {
        Some(n) => {
            if stream.len() - 4 < n {
                return None;
            }
            Some((bytes::copy_range(stream, 4, 4 + n), 4 + n))
        },
        None => None,
    }
}

/// A message that is not too long is read back as it was sent, and what
/// follows it is left as it was.
pub proof fn message_reads_back(data: Seq<u8>, rest: Seq<u8>)
    requires
        data.len() <= MAX_SIGNAL_MSG,
    ensures
        message_in(frame(data) + rest) == Some((data, rest)),
{
    bytes::be32_reads_back(data.len());
    let s = frame(data) + rest;
    let h = bytes::be32_bytes(data.len());
    assert(s[0] == h[0] && s[1] == h[1] && s[2] == h[2] && s[3] == h[3]);
    assert(s.subrange(4, 4 + data.len() as int) =~= data);
    assert(s.skip(4 + data.len() as int) =~= rest);
}

/// What is read from a stream is what stands in it behind its length, no
/// message is longer than 65536 bytes, and what follows is left.
pub proof fn read_message_stands_in_the_stream(stream: Seq<u8>)
    ensures
        message_in(stream) matches Some((data, rest)) ==> {
            &&& stream == bytes::be32_bytes(data.len()) + data + rest
            &&& data.len() <= 65536
        },
{
    if let Some((data, rest)) = message_in(stream) {
        let n = data.len();
        let h = bytes::be32_bytes(n);
        bytes::be32_reads_back(n);
        assert(n == bytes::be32(stream[0], stream[1], stream[2], stream[3]));
        assert(stream =~= h + data + rest);
    }
}

/// As long as a message has not come whole, nothing is read.
pub proof fn message_is_read_when_it_is_whole(data: Seq<u8>, k: int)
    requires
        data.len() <= 65536,
        0 <= k < frame(data).len(),
    ensures
        message_in(frame(data).take(k)) is None,
{
    bytes::be32_reads_back(data.len());
    let s = frame(data).take(k);
    let h = bytes::be32_bytes(data.len());
    if k >= 4 {
        assert(s[0] == h[0] && s[1] == h[1] && s[2] == h[2] && s[3] == h[3]);
    }
}

} // verus!
