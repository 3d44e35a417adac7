//! The calls into other crates, each with what is known of its result.

use base64::Engine;
use rand::RngCore;
use subtle::ConstantTimeEq;
use vstd::prelude::*;
use vstd::utf8::*;
use crate::text;

verus! {

/// The SHA-256 digest of a byte string.
pub uninterp spec fn sha256(data: Seq<u8>) -> Seq<u8>;

/// `ring::digest::digest` with `ring::digest::SHA256`: the digest of `data`,
/// which is 32 bytes long.
#[verifier::external_body]
pub(crate) fn sha256_digest(data: &[u8]) -> (d: Vec<u8>)
    ensures
        d@ == sha256(data@),
        d.len() == 32,
{
    ring::digest::digest(&ring::digest::SHA256, data).as_ref().to_vec()
}

/// The character of a six-bit value in the URL-safe base64 alphabet.
pub open spec fn b64_char(v: nat) -> char {
    if v < 26 {
        (65 + v) as char
    } else if v < 52 {
        (71 + v) as char
    } else if v < 62 {
        (v - 4) as char
    } else if v == 62 {
        '-'
    } else {
        '_'
    }
}

/// A byte string in URL-safe base64 without padding.
pub open spec fn b64_text(b: Seq<u8>) -> Seq<char>
    decreases b.len(),
{
    if b.len() == 0 {
        Seq::empty()
    } else if b.len() == 1 {
        seq![b64_char((b[0] / 4) as nat), b64_char((b[0] % 4 * 16) as nat)]
    } else if b.len() == 2 {
        seq![
            b64_char((b[0] / 4) as nat),
            b64_char((b[0] % 4 * 16 + b[1] / 16) as nat),
            b64_char((b[1] % 16 * 4) as nat),
        ]
    } else {
        seq![
            b64_char((b[0] / 4) as nat),
            b64_char((b[0] % 4 * 16 + b[1] / 16) as nat),
            b64_char((b[1] % 16 * 4 + b[2] / 64) as nat),
            b64_char((b[2] % 64) as nat),
        ] + b64_text(b.skip(3))
    }
}

/// `base64::Engine::encode` of `URL_SAFE_NO_PAD`: the text that the URL-safe
/// alphabet without padding gives. The text must fit into memory.
#[verifier::external_body]
pub(crate) fn b64_encode(bytes: &[u8]) -> (s: String)
    requires
        bytes@.len() <= 1_000_000_000,
    ensures
        s@ == b64_text(bytes@),
{
    base64::engine::general_purpose::URL_SAFE_NO_PAD.encode(bytes)
}

/// What is wrong with a text that is not URL-safe base64, in words.
pub uninterp spec fn b64_error(s: Seq<char>) -> Seq<char>;

/// `base64::Engine::decode` of `URL_SAFE_NO_PAD`: the engine refuses padding
/// and stray trailing bits, so a text is accepted exactly when it is the
/// encoding of some bytes, and those are returned.
#[verifier::external_body]
pub(crate) fn b64_decode(s: &str) -> (r: Result<Vec<u8>, String>)
    ensures
        match r {
            Ok(v) => s@ == b64_text(v@),
            Err(e) => e@ == b64_error(s@) && forall|b: Seq<u8>| s@ != #[trigger] b64_text(b),
        },
{
    base64::engine::general_purpose::URL_SAFE_NO_PAD.decode(s).map_err(|e| e.to_string())
}

/// Whether a character stands for itself in the path and the query of a URL.
pub open spec fn url_plain(c: char) -> bool {
    ||| 'a' <= c <= 'z'
    ||| 'A' <= c <= 'Z'
    ||| '0' <= c <= '9'
    ||| c == '-'
    ||| c == '_'
}

/// Whether a character stands for itself in the query of a URL.
pub open spec fn query_plain(c: char) -> bool {
    url_plain(c) || c == '.' || c == ':' || c == '[' || c == ']' || c == '/' || c == '=' || c == '&'
}

/// Whether a text is short enough for the URL parser. It counts bytes in 32
/// bits, a character can come to be twelve bytes, and a buffer of twice that
/// size must be one that can be asked for.
pub open spec fn url_fits(s: Seq<char>) -> bool {
    s.len() * 12 <= u32::MAX && s.len() * 24 <= isize::MAX
}

/// Whether a text is an `https` URL of the share host with nothing in it that
/// a URL parser rewrites: a path of `/s/` and plain characters, and a query.
pub open spec fn plain_share_url(s: Seq<char>, name: Seq<char>, query: Seq<char>) -> bool {
    &&& s == "https://spora.to"@ + "/s/"@ + name + seq!['?'] + query
    &&& forall|i: int| 0 <= i < name.len() ==> url_plain(#[trigger] name[i])
    &&& forall|i: int| 0 <= i < query.len() ==> query_plain(#[trigger] query[i])
    &&& url_fits(s)
}

/// The name and the value of one part of a query.
pub open spec fn query_pair(part: Seq<char>) -> (Seq<char>, Seq<char>) {
    let at = text::place_of(part, '=', 0);
    if at < part.len() {
        (part.take(at), part.skip(at + 1))
    } else {
        (part, Seq::empty())
    }
}

/// The pairs of the non-empty parts of a query between its ampersands.
pub open spec fn query_pairs(parts: Seq<Seq<char>>) -> Seq<(Seq<char>, Seq<char>)>
    decreases parts.len(),
{
    if parts.len() == 0 {
        Seq::empty()
    } else if parts.last().len() == 0 {
        query_pairs(parts.drop_last())
    } else {
        query_pairs(parts.drop_last()).push(query_pair(parts.last()))
    }
}

/// A URL as the parser writes it back, or what is wrong with it in words.
pub uninterp spec fn url_text(s: Seq<char>) -> Result<Seq<char>, Seq<char>>;

/// The path of a URL, percent-encoded, or `None` for a text that is no URL.
pub uninterp spec fn url_path(s: Seq<char>) -> Option<Seq<char>>;

/// The decoded pairs of a URL's query, or `None` for a text that is no URL.
pub uninterp spec fn url_pairs(s: Seq<char>) -> Option<Seq<(Seq<char>, Seq<char>)>>;

/// `url::Url::parse`, written back with `as_str`. An `https` URL of the share
/// host parses whatever its path and query hold, up to the size that the crate
/// can count however much it must escape, and a plain one is written back as it
/// is.
#[verifier::external_body]
pub(crate) fn url_normalize(s: &str) -> (r: Result<String, String>)
    ensures
        match r {
            Ok(t) => url_text(s@) == Result::<Seq<char>, Seq<char>>::Ok(t@),
            Err(e) => url_text(s@) == Result::<Seq<char>, Seq<char>>::Err(e@),
        },
        "https://spora.to/s/"@.is_prefix_of(s@) && url_fits(s@) ==> r is Ok,
        forall|name: Seq<char>, query: Seq<char>| #[trigger]
            plain_share_url(s@, name, query) ==> r is Ok && r->Ok_0@ == s@,
{
    url::Url::parse(s).map(|u| u.as_str().to_string()).map_err(|e| e.to_string())
}

/// `url::Url::path` of the parsed text; a plain path is returned as it stands.
#[verifier::external_body]
pub(crate) fn url_path_of(s: &str) -> (r: Option<String>)
    ensures
        match r {
            Some(p) => url_path(s@) == Some(p@),
            None => url_path(s@) is None,
        },
        r is Some <==> url_text(s@) is Ok,
        forall|name: Seq<char>, query: Seq<char>| #[trigger]
            plain_share_url(s@, name, query) ==> r is Some && r->0@ == "/s/"@ + name,
{
    url::Url::parse(s).ok().map(|u| u.path().to_string())
}

/// Names and values as text.
pub open spec fn pair_texts(v: Seq<(String, String)>) -> Seq<(Seq<char>, Seq<char>)> {
    Seq::new(v.len(), |i: int| (v[i].0@, v[i].1@))
}

/// `url::Url::query_pairs` of the parsed text; a plain query is split at its
/// ampersands and equal signs, and nothing in it is decoded.
#[verifier::external_body]
pub(crate) fn url_pairs_of(s: &str) -> (r: Option<Vec<(String, String)>>)
    ensures
        match r {
            Some(p) => url_pairs(s@) == Some(pair_texts(p@)),
            None => url_pairs(s@) is None,
        },
        r is Some <==> url_text(s@) is Ok,
        forall|name: Seq<char>, query: Seq<char>| #[trigger]
            plain_share_url(s@, name, query) ==> r is Some && pair_texts(r->0@) == query_pairs(
                text::split(query, '&'),
            ),
{
    url::Url::parse(s).ok().map(|u| u.query_pairs().into_owned().collect())
}

/// Whether a DER private key starts like one of the known kinds: a sequence
/// that holds an integer of one byte, which is followed by another sequence,
/// or is zero, or is one.
pub open spec fn key_looks_known(key: Seq<u8>) -> bool {
    let skip: int = if key[1] < 128 {
        2
    } else {
        2 + (key[1] - 128)
    };
    &&& key.len() >= 2
    &&& key[0] == 0x30
    &&& key.len() >= skip + 3
    &&& key[skip] == 2
    &&& key[skip + 1] == 1
    &&& key[skip + 2] == 0 || key[skip + 2] == 1 || (key.len() > skip + 3 && key[skip + 3] == 0x30)
}

/// `rustls::pki_types::PrivateKeyDer::try_from` on a vector: it looks at the
/// first bytes alone to tell the kinds of key apart.
#[verifier::external_body]
pub(crate) fn private_key_parses(der: &[u8]) -> (r: Result<(), String>)
    ensures
        match r {
            Ok(_) => key_looks_known(der@),
            Err(e) => !key_looks_known(der@) && e@ == "unknown or invalid key format"@,
        },
{
    rustls::pki_types::PrivateKeyDer::try_from(der.to_vec()).map(|_| ()).map_err(|e| e.to_string())
}

/// The texts of a list of strings.
pub open spec fn texts(v: Seq<String>) -> Seq<Seq<char>> {
    Seq::new(v.len(), |i: int| v[i]@)
}

/// Whether `rcgen::generate_simple_self_signed` can give a certificate, in DER,
/// and a key, in PKCS#8, for a list of names.
pub uninterp spec fn self_signed(names: Seq<Seq<char>>, cert: Seq<u8>, key: Seq<u8>) -> bool;

/// `rcgen::generate_simple_self_signed`: a fresh certificate for the names and
/// its ECDSA P-256 key, which `ring` takes back. It fails when the system has
/// no random numbers to give, and on a name that is no ASCII text. Which
/// certificate and key come out is left to chance.
#[verifier::external_body]
pub(crate) fn self_signed_cert(names: Vec<String>) -> (r: Option<(Vec<u8>, Vec<u8>)>)
    ensures
        match r {
            Some((cert, key)) => {
                &&& self_signed(texts(names@), cert@, key@)
                &&& key_looks_known(key@)
                &&& key_rejection(key@) is None
            },
            None => true,
        },
{
    let made = rcgen::generate_simple_self_signed(names).ok();
    made.map(|c| (c.cert.der().to_vec(), c.key_pair.serialize_der()))
}

/// `rand::RngCore::fill_bytes` of the thread's generator: sixteen random bytes.
#[verifier::external_body]
pub(crate) fn random_16() -> (r: [u8; 16]) {
    let mut b = [0u8; 16];
    rand::thread_rng().fill_bytes(&mut b);
    b
}

/// `rand::random`: a random number of 64 bits.
#[verifier::external_body]
pub(crate) fn random_u64() -> (r: u64) {
    rand::random::<u64>()
}

/// `rand::random`: a random number of 32 bits.
#[verifier::external_body]
pub(crate) fn random_u32() -> (r: u32) {
    rand::random::<u32>()
}

/// `subtle::ConstantTimeEq::ct_eq` on byte strings: whether they are equal.
#[verifier::external_body]
pub(crate) fn equal_in_constant_time(a: &[u8], b: &[u8]) -> (r: bool)
    ensures
        r == (a@ == b@),
{
    bool::from(a.ct_eq(b))
}

/// What `core::str::from_utf8` says of bytes that are no UTF-8 text.
pub uninterp spec fn utf8_error(bytes: Seq<u8>) -> Seq<char>;

/// Calls `core::str::from_utf8`. It gives the text that the bytes encode if
/// they are valid UTF-8, and else an error, of which the words are named.
#[verifier::external_body]
pub(crate) fn text_of_utf8(bytes: &[u8]) -> (r: Result<String, String>)
    ensures
        match r {
            Ok(s) => valid_utf8(bytes@) && s@ == decode_utf8(bytes@),
            Err(e) => !valid_utf8(bytes@) && e@ == utf8_error(bytes@),
        },
{
    match core::str::from_utf8(bytes) {
        Ok(s) => Ok(String::from(s)),
        Err(e) => Err(e.to_string()),
    }
}

/// A text in quotes, as `{:?}` writes it.
pub uninterp spec fn debug_text(s: Seq<char>) -> Seq<char>;

/// Calls `format!` with `{:?}` on a text. The result is named.
#[verifier::external_body]
pub(crate) fn quoted(s: &str) -> (r: String)
    ensures
        r@ == debug_text(s@),
{
    format!("{:?}", s)
}

/// A Noise handshake of the `snow` crate.
#[verifier::external_type_specification]
#[verifier::external_body]
pub struct ExHandshakeState(snow::HandshakeState);

/// The transport phase of a Noise session of the `snow` crate.
#[verifier::external_type_specification]
#[verifier::external_body]
pub struct ExStatelessTransportState(snow::StatelessTransportState);

/// What a handshake was set up with: whether this side writes first, the
/// prologue, and the pre-shared key.
pub uninterp spec fn noise_setup(hs: snow::HandshakeState) -> (bool, Seq<u8>, Seq<u8>);

/// The messages that a handshake has written and read, in order.
pub uninterp spec fn noise_messages(hs: snow::HandshakeState) -> Seq<Seq<u8>>;

/// Whether a handshake of two messages is to write its next one, after `n`.
pub open spec fn noise_to_write(initiator: bool, n: nat) -> bool {
    n < 2 && initiator == (n == 0)
}

/// Whether a handshake of two messages is to read its next one, after `n`.
pub open spec fn noise_to_read(initiator: bool, n: nat) -> bool {
    n < 2 && initiator != (n == 0)
}

/// Whether a handshake of two messages holds that its turn is to write, after
/// `n`. It does so still after the last one where it has read that.
pub open spec fn noise_turn(initiator: bool, n: nat) -> bool {
    initiator == (n != 1)
}

/// Whether two handshakes are the two sides of one: they were set up alike but
/// for who writes first, and have exchanged the same messages.
pub open spec fn noise_sides(a: snow::HandshakeState, b: snow::HandshakeState) -> bool {
    &&& noise_setup(a).0 != noise_setup(b).0
    &&& noise_setup(a).1 == noise_setup(b).1
    &&& noise_setup(a).2 == noise_setup(b).2
    &&& noise_messages(a) == noise_messages(b)
}

/// The part of the set-up of a handshake that failed.
#[derive(Debug, Clone, Copy, PartialEq, Eq, Structural)]
pub enum NoiseStage {
    Params,
    Prologue,
    Psk,
    Build,
}

/// `snow::Builder` with its `prologue` and its `psk` at a place, and
/// `build_initiator`, for the one pattern and place that the contract names: a
/// handshake of which no message has been exchanged, for the side that
/// writes first. Nothing is drawn at random here and each of the four steps
/// succeeds for that pattern.
#[verifier::external_body]
pub(crate) fn noise_initiator(pattern: &str, prologue: &[u8], place: u8, psk: &[u8; 32]) -> (r: Result<
    snow::HandshakeState,
    (NoiseStage, String),
>)
    requires
        pattern@ == "Noise_NNpsk0_25519_ChaChaPoly_BLAKE2s"@,
        place == 0,
    ensures
        r is Ok,
        r matches Ok(hs) ==> noise_setup(hs) == (true, prologue@, psk@) && noise_messages(hs)
            == Seq::<Seq<u8>>::empty(),
{
    let params = pattern.parse();
    let params = params.map_err(|e: snow::Error| (NoiseStage::Params, e.to_string()))?;
    let b = snow::Builder::new(params).prologue(prologue);
    let b = b.map_err(|e| (NoiseStage::Prologue, e.to_string()))?.psk(place, psk);
    let b = b.map_err(|e| (NoiseStage::Psk, e.to_string()))?;
    b.build_initiator().map_err(|e| (NoiseStage::Build, e.to_string()))
}

/// `snow::Builder` with its `prologue` and its `psk` at a place, and
/// `build_responder`, for the one pattern and place that the contract names: a
/// handshake of which no message has been exchanged, for the side that
/// reads first. Nothing is drawn at random here and each of the four steps
/// succeeds for that pattern.
#[verifier::external_body]
pub(crate) fn noise_responder(pattern: &str, prologue: &[u8], place: u8, psk: &[u8; 32]) -> (r: Result<
    snow::HandshakeState,
    (NoiseStage, String),
>)
    requires
        pattern@ == "Noise_NNpsk0_25519_ChaChaPoly_BLAKE2s"@,
        place == 0,
    ensures
        r is Ok,
        r matches Ok(hs) ==> noise_setup(hs) == (false, prologue@, psk@) && noise_messages(hs)
            == Seq::<Seq<u8>>::empty(),
{
    let params = pattern.parse();
    let params = params.map_err(|e: snow::Error| (NoiseStage::Params, e.to_string()))?;
    let b = snow::Builder::new(params).prologue(prologue);
    let b = b.map_err(|e| (NoiseStage::Prologue, e.to_string()))?.psk(place, psk);
    let b = b.map_err(|e| (NoiseStage::Psk, e.to_string()))?;
    b.build_responder().map_err(|e| (NoiseStage::Build, e.to_string()))
}

/// What a handshake makes of the next message: its payload, or nothing where
/// the tag does not fit the key.
pub uninterp spec fn noise_payload(hs: snow::HandshakeState, msg: Seq<u8>) -> Option<Seq<u8>>;

/// `snow::HandshakeState::write_message` into a buffer of `room` bytes: the
/// message, which is an ephemeral key of 32 bytes and the payload with a tag
/// of 16, and which the other side reads back to the payload. It fails when it
/// is not this side's turn, or the message is longer than the buffer or than
/// 65535 bytes, and can fail for want of random numbers; a failure leaves the
/// handshake where it was. Which bytes the message has depends on chance. A
/// payload that the cipher does not take, of 2^38 bytes less 64, is left out.
#[verifier::external_body]
pub(crate) fn noise_write(hs: &mut snow::HandshakeState, payload: &[u8], room: usize) -> (r: Result<
    Vec<u8>,
    String,
>)
    requires
        room <= isize::MAX,
        payload@.len() < 274877906880,
    ensures
        noise_setup(*final(hs)) == noise_setup(*old(hs)),
        match r {
            Ok(m) => {
                &&& noise_to_write(noise_setup(*old(hs)).0, noise_messages(*old(hs)).len())
                &&& m@.len() == payload@.len() + 48
                &&& m@.len() <= room
                &&& m@.len() <= 65535
                &&& noise_messages(*final(hs)) == noise_messages(*old(hs)).push(m@)
                &&& forall|peer: snow::HandshakeState| #[trigger]
                    noise_sides(*old(hs), peer) ==> noise_payload(peer, m@) == Some(payload@)
            },
            Err(e) => {
                &&& noise_messages(*final(hs)) == noise_messages(*old(hs))
                &&& if !noise_turn(noise_setup(*old(hs)).0, noise_messages(*old(hs)).len()) {
                    e@ == "state error: NotTurnToWrite"@
                } else if noise_messages(*old(hs)).len() >= 2 {
                    e@ == "state error: HandshakeAlreadyFinished"@
                } else if payload@.len() + 48 > room || payload@.len() + 48 > 65535 {
                    e@ == "input error"@ || e@ == "RNG error"@
                } else {
                    e@ == "RNG error"@
                }
            },
        },
{
    let mut out = vec![0u8; room];
    let n = hs.write_message(payload, &mut out).map_err(|e| e.to_string())?;
    out.truncate(n);
    Ok(out)
}

/// `snow::HandshakeState::read_message` into a buffer of `room` bytes: the
/// payload of the message. It fails when it is not this side's turn, when the
/// message is shorter than a key and a tag or longer than 65535 bytes, and when
/// its tag does not fit the key, as with a wrong pre-shared key; a failure
/// leaves the handshake where it was.
#[verifier::external_body]
pub(crate) fn noise_read(hs: &mut snow::HandshakeState, msg: &[u8], room: usize) -> (r: Result<
    Vec<u8>,
    String,
>)
    requires
        room >= msg@.len(),
        room == msg@.len() || room <= 65535,
    ensures
        noise_setup(*final(hs)) == noise_setup(*old(hs)),
        match r {
            Ok(p) => {
                &&& noise_to_read(noise_setup(*old(hs)).0, noise_messages(*old(hs)).len())
                &&& noise_payload(*old(hs), msg@) == Some(p@)
                &&& msg@.len() == p@.len() + 48
                &&& msg@.len() <= 65535
                &&& noise_messages(*final(hs)) == noise_messages(*old(hs)).push(msg@)
            },
            Err(e) => {
                &&& noise_messages(*final(hs)) == noise_messages(*old(hs))
                &&& if msg@.len() > 65535 {
                    e@ == "input error"@
                } else if noise_turn(noise_setup(*old(hs)).0, noise_messages(*old(hs)).len()) {
                    e@ == "state error: NotTurnToRead"@
                } else if noise_messages(*old(hs)).len() >= 2 {
                    e@ == "state error: HandshakeAlreadyFinished"@
                } else if msg@.len() < 32 {
                    e@ == "input error"@
                } else {
                    e@ == "decrypt error"@ && (msg@.len() < 48 || noise_payload(*old(hs), msg@)
                        is None)
                }
            },
        },
{
    let mut out = vec![0u8; room];
    let n = hs.read_message(msg, &mut out).map_err(|e| e.to_string())?;
    out.truncate(n);
    Ok(out)
}

/// `snow::HandshakeState::is_handshake_finished`: whether both messages of
/// the handshake have been exchanged.
#[verifier::external_body]
pub(crate) fn noise_finished(hs: &snow::HandshakeState) -> (r: bool)
    ensures
        r == (noise_messages(*hs).len() == 2),
{
    hs.is_handshake_finished()
}

/// The hash of a handshake, from its prologue, its pre-shared key and the
/// messages that were exchanged.
pub uninterp spec fn noise_hash(prologue: Seq<u8>, psk: Seq<u8>, messages: Seq<Seq<u8>>) -> Seq<u8>;

/// `snow::HandshakeState::get_handshake_hash`: 32 bytes, as BLAKE2s gives. What
/// goes into it is known to both sides: the prologue, the pre-shared key, and
/// the messages as they were sent.
#[verifier::external_body]
pub(crate) fn noise_hash_of(hs: &snow::HandshakeState) -> (h: Vec<u8>)
    ensures
        h@ == noise_hash(noise_setup(*hs).1, noise_setup(*hs).2, noise_messages(*hs)),
        h@.len() == 32,
{
    hs.get_handshake_hash().to_vec()
}

/// What the two sides of a session agreed on: whether this side wrote first,
/// the prologue, the pre-shared key and the messages of the handshake.
pub uninterp spec fn noise_agreed(t: snow::StatelessTransportState) -> (
    (bool, Seq<u8>, Seq<u8>),
    Seq<Seq<u8>>,
);

/// `snow::HandshakeState::into_stateless_transport_mode`: succeeds when the
/// handshake is finished. The keys of the session are those that the handshake
/// has agreed on.
#[verifier::external_body]
pub(crate) fn noise_transport(hs: snow::HandshakeState) -> (r: Result<
    snow::StatelessTransportState,
    String,
>)
    ensures
        match r {
            Ok(t) => noise_messages(hs).len() == 2 && noise_agreed(t) == (
                noise_setup(hs),
                noise_messages(hs),
            ),
            Err(e) => noise_messages(hs).len() != 2 && e@ == "state error: HandshakeNotFinished"@,
        },
{
    hs.into_stateless_transport_mode().map_err(|e| e.to_string())
}

/// Whether two sessions are the two ends of one.
pub open spec fn noise_ends(
    a: snow::StatelessTransportState,
    b: snow::StatelessTransportState,
) -> bool {
    &&& noise_agreed(a).0.0 != noise_agreed(b).0.0
    &&& noise_agreed(a).0.1 == noise_agreed(b).0.1
    &&& noise_agreed(a).0.2 == noise_agreed(b).0.2
    &&& noise_agreed(a).1 == noise_agreed(b).1
}

/// What a session makes of a plain text under a counter.
pub uninterp spec fn noise_sealed(
    t: snow::StatelessTransportState,
    counter: u64,
    plain: Seq<u8>,
) -> Seq<u8>;

/// `snow::StatelessTransportState::write_message` into a buffer of `room` bytes:
/// the sealed text, which is 16 bytes longer than the plain text and which the
/// other end opens to the plain text under the same counter. It fails when the
/// sealed text would be longer than 65535 bytes, and for the largest counter,
/// which is reserved.
#[verifier::external_body]
pub(crate) fn noise_seal(
    t: &snow::StatelessTransportState,
    counter: u64,
    plain: &[u8],
    room: usize,
) -> (r: Result<Vec<u8>, String>)
    requires
        plain@.len() + 16 <= room,
        room <= isize::MAX,
    ensures
        match r {
            Ok(c) => {
                &&& plain@.len() + 16 <= 65535
                &&& counter != u64::MAX
                &&& c@ == noise_sealed(*t, counter, plain@)
                &&& c@.len() == plain@.len() + 16
                &&& forall|end: snow::StatelessTransportState| #[trigger]
                    noise_ends(*t, end) ==> noise_opened(end, counter, c@) == Some(plain@)
            },
            Err(e) => if plain@.len() + 16 > 65535 {
                e@ == "input error"@
            } else {
                counter == u64::MAX && e@ == "state error: Exhausted"@
            },
        },
{
    let mut out = vec![0u8; room];
    let n = t.write_message(counter, plain, &mut out).map_err(|e| e.to_string())?;
    out.truncate(n);
    Ok(out)
}

/// What a session makes of a sealed text under a counter: nothing where the
/// tag does not fit.
pub uninterp spec fn noise_opened(
    t: snow::StatelessTransportState,
    counter: u64,
    sealed: Seq<u8>,
) -> Option<Seq<u8>>;

/// `snow::StatelessTransportState::read_message` into a buffer of the sealed
/// text's length: the plain text, which is 16 bytes shorter, where the tag
/// fits. A text that is shorter than a tag or longer than 65535 bytes fails, as
/// does the largest counter.
#[verifier::external_body]
pub(crate) fn noise_open(t: &snow::StatelessTransportState, counter: u64, sealed: &[u8]) -> (r:
    Result<Vec<u8>, String>)
    ensures
        match r {
            Ok(p) => {
                &&& sealed@.len() <= 65535
                &&& counter != u64::MAX
                &&& noise_opened(*t, counter, sealed@) == Some(p@)
                &&& sealed@.len() == p@.len() + 16
            },
            Err(e) => if sealed@.len() > 65535 {
                e@ == "input error"@
            } else if sealed@.len() < 16 {
                e@ == "decrypt error"@
            } else if counter == u64::MAX {
                e@ == "state error: Exhausted"@
            } else {
                noise_opened(*t, counter, sealed@) is None && e@ == "decrypt error"@
            },
        },
{
    let mut out = vec![0u8; sealed.len()];
    let n = t.read_message(counter, sealed, &mut out).map_err(|e| e.to_string())?;
    out.truncate(n);
    Ok(out)
}

/// Why `ring::signature::EcdsaKeyPair::from_pkcs8` rejects a key for P-256, in
/// its words, or nothing where it takes the key.
pub uninterp spec fn key_rejection(key: Seq<u8>) -> Option<Seq<char>>;

/// Whether a signature of a message fits each certificate that was made together
/// with a key, for one name of up to 253 characters.
pub open spec fn signs(key: Seq<u8>, message: Seq<u8>, signature: Seq<u8>) -> bool {
    forall|names: Seq<Seq<char>>, cert: Seq<u8>| #[trigger]
        self_signed(names, cert, key) && names.len() == 1 && names[0].len() <= 253 ==> cert_parses(
            cert,
        ) && signature_fits(cert, message, signature)
}

/// Why a message was not signed.
#[derive(Debug, PartialEq, Eq)]
pub enum SignFailure {
    Rejected(String),
    Failed,
}

/// `ring::signature::EcdsaKeyPair::from_pkcs8` for P-256 with SHA-256, and
/// `sign` of the pair that it gives: a signature of the message, in ASN.1, which
/// fits the key's certificate. A key that cannot be used is rejected in words
/// that are named. A key that can be used fails only for want of random numbers,
/// which is told as a rejection by the first call and without words by the
/// second. Which of the many signatures it is depends on random numbers.
#[verifier::external_body]
pub(crate) fn ecdsa_sign(key: &[u8], message: &[u8]) -> (r: Result<Vec<u8>, SignFailure>)
    ensures
        match r {
            Ok(s) => {
                &&& key_rejection(key@) is None
                &&& s@.len() > 0
                &&& signs(key@, message@, s@)
            },
            Err(SignFailure::Rejected(words)) => match key_rejection(key@) {
                Some(w) => words@ == w,
                None => words@ == "RNG failed"@,
            },
            Err(SignFailure::Failed) => key_rejection(key@) is None,
        },
{
    let rng = ring::rand::SystemRandom::new();
    let alg = &ring::signature::ECDSA_P256_SHA256_ASN1_SIGNING;
    let pair = ring::signature::EcdsaKeyPair::from_pkcs8(alg, key, &rng);
    let pair = pair.map_err(|e| SignFailure::Rejected(e.to_string()))?;
    pair.sign(&rng, message).map(|s| s.as_ref().to_vec()).map_err(|_| SignFailure::Failed)
}

/// Whether `webpki::EndEntityCert::try_from` reads a certificate.
pub uninterp spec fn cert_parses(cert: Seq<u8>) -> bool;

/// Whether `webpki::EndEntityCert::verify_signature` finds that the key of a
/// certificate has signed a message, with ECDSA on P-256 and SHA-256.
pub uninterp spec fn signature_fits(cert: Seq<u8>, message: Seq<u8>, signature: Seq<u8>) -> bool;

/// `webpki::EndEntityCert::try_from`, and `verify_signature` on what it reads:
/// `None` where the certificate cannot be read, else whether the signature is
/// one of its key.
#[verifier::external_body]
pub(crate) fn check_signature(cert: &[u8], message: &[u8], signature: &[u8]) -> (r: Option<bool>)
    ensures
        match r {
            Some(fits) => cert_parses(cert@) && fits == signature_fits(
                cert@,
                message@,
                signature@,
            ),
            None => !cert_parses(cert@),
        },
{
    let der = rustls::pki_types::CertificateDer::from(cert);
    let eec = webpki::EndEntityCert::try_from(&der).ok()?;
    Some(eec.verify_signature(webpki::ring::ECDSA_P256_SHA256, message, signature).is_ok())
}

} // verus!
