//! The end-to-end Noise handshake, and the message by which the sharer proves
//! its identity in it.
//!
//! The pattern has no static keys. The secret is mixed in first, so that a
//! first message from someone without it is refused; the sharer's certificate
//! and a signature over the handshake's hash, which bind its identity to this
//! session, come as the first message of the transport phase.

use vstd::prelude::*;
use vstd::string::*;
use crate::bytes;
use crate::fault::Fault;
use crate::identity;
use crate::identity::Identity;
use crate::outside;
use crate::outside::{NoiseStage, SignFailure};
use crate::vocab::Reason;

verus! {

/// Room for a handshake message beside its payload, in bytes.
pub const NOISE_HS_MAX: usize = 128;

/// The length of the tag on a sealed text, in bytes.
pub const NOISE_TAG_LEN: usize = 16;

/// The pattern of the handshake: no static keys, and a pre-shared key that is
/// mixed in first.
pub const NOISE_PATTERN: &'static str = "Noise_NNpsk0_25519_ChaChaPoly_BLAKE2s";

/// The place of the pre-shared key in the pattern.
pub const PSK_PLACE: u8 = 0;

/// `spora-noise-psk-v1`
pub open spec fn psk_domain() -> Seq<u8> {
    seq![
        0x73u8, 0x70u8, 0x6fu8, 0x72u8, 0x61u8, 0x2du8, 0x6eu8, 0x6fu8, 0x69u8, 0x73u8, 0x65u8,
        0x2du8, 0x70u8, 0x73u8, 0x6bu8, 0x2du8, 0x76u8, 0x31u8,
    ]
}

/// `spora-noise-v1`
pub open spec fn prologue_prefix() -> Seq<u8> {
    seq![
        0x73u8, 0x70u8, 0x6fu8, 0x72u8, 0x61u8, 0x2du8, 0x6eu8, 0x6fu8, 0x69u8, 0x73u8, 0x65u8,
        0x2du8, 0x76u8, 0x31u8,
    ]
}

/// `spora-noise-auth-v1`
pub open spec fn auth_domain() -> Seq<u8> {
    seq![
        0x73u8, 0x70u8, 0x6fu8, 0x72u8, 0x61u8, 0x2du8, 0x6eu8, 0x6fu8, 0x69u8, 0x73u8, 0x65u8,
        0x2du8, 0x61u8, 0x75u8, 0x74u8, 0x68u8, 0x2du8, 0x76u8, 0x31u8,
    ]
}

/// The pre-shared key of a routing key and a secret.
pub open spec fn psk_of(routing_key: Seq<u8>, secret: Seq<u8>) -> Seq<u8> {
    outside::sha256(psk_domain() + routing_key + secret)
}

/// The first 32 bytes.
fn array_32(b: &Vec<u8>) -> (a: [u8; 32])
    requires
        b@.len() == 32,
    ensures
        a@ == b@,
{
    let mut a: [u8; 32] = [0u8;32];
    let mut i: usize = 0;
    while i < 32
        invariant
            i <= 32,
            b@.len() == 32,
            forall|j: int| 0 <= j < i ==> a@[j] == b@[j],
        decreases 32 - i,
    {
        a[i] = b[i];
        i = i + 1;
    }
    assert(a@ =~= b@);
    a
}

/// The pre-shared key, which both peers derive from the routing key and the
/// secret.
pub fn derive_psk(routing_key: &[u8; 20], secret: &[u8; 16]) -> (psk: [u8; 32])
    ensures
        psk@ == psk_of(routing_key@, secret@),
{
    let mut input: Vec<u8> = vec![
        0x73u8, 0x70u8, 0x6fu8, 0x72u8, 0x61u8, 0x2du8, 0x6eu8, 0x6fu8, 0x69u8, 0x73u8, 0x65u8,
        0x2du8, 0x70u8, 0x73u8, 0x6bu8, 0x2du8, 0x76u8, 0x31u8,
    ];
    assert(input@ =~= psk_domain());
    bytes::push_bytes(&mut input, routing_key);
    bytes::push_bytes(&mut input, secret);
    array_32(&outside::sha256_digest(&input))
}

/// What both peers mix into the handshake first: a prefix and the routing key.
pub fn prologue(routing_key: &[u8; 20]) -> (p: Vec<u8>)
    ensures
        p@ == prologue_prefix() + routing_key@,
{
    let mut p: Vec<u8> = vec![
        0x73u8, 0x70u8, 0x6fu8, 0x72u8, 0x61u8, 0x2du8, 0x6eu8, 0x6fu8, 0x69u8, 0x73u8, 0x65u8,
        0x2du8, 0x76u8, 0x31u8,
    ];
    assert(p@ =~= prologue_prefix());
    bytes::push_bytes(&mut p, routing_key);
    p
}

/// What is signed: a prefix and the hash of the handshake.
pub open spec fn signed_input(handshake_hash: Seq<u8>) -> Seq<u8> {
    auth_domain() + handshake_hash
}

fn sign_input(handshake_hash: &[u8; 32]) -> (v: Vec<u8>)
    ensures
        v@ == signed_input(handshake_hash@),
{
    let mut v: Vec<u8> = vec![
        0x73u8, 0x70u8, 0x6fu8, 0x72u8, 0x61u8, 0x2du8, 0x6eu8, 0x6fu8, 0x69u8, 0x73u8, 0x65u8,
        0x2du8, 0x61u8, 0x75u8, 0x74u8, 0x68u8, 0x2du8, 0x76u8, 0x31u8,
    ];
    assert(v@ =~= auth_domain());
    bytes::push_bytes(&mut v, handshake_hash);
    v
}

/// Whether a fault is a failure of the cryptography at a stage.
pub open spec fn crypto_fault(f: Fault, stage: Seq<char>, words: Seq<char>) -> bool {
    f.reason == Reason::CryptoError && f.detail@ == stage + words
}

fn crypto_error(stage: &str, words: &str) -> (f: Fault)
    ensures
        crypto_fault(f, stage@, words@),
{
    Fault::new(Reason::CryptoError, String::from_str(stage).concat(words).as_str())
}

/// What a failed set-up of the handshake is called.
pub open spec fn stage_words(s: NoiseStage) -> Seq<char> {
    match s {
        NoiseStage::Params => "noise params: "@,
        NoiseStage::Prologue => "noise prologue: "@,
        NoiseStage::Psk => "noise psk: "@,
        NoiseStage::Build => "noise handshake build: "@,
    }
}

/// The fault of a failed set-up of the handshake.
pub fn build_fault(stage: NoiseStage, words: &str) -> (f: Fault)
    ensures
        crypto_fault(f, stage_words(stage), words@),
{
    match stage {
        NoiseStage::Params => crypto_error("noise params: ", words),
        NoiseStage::Prologue => crypto_error("noise prologue: ", words),
        NoiseStage::Psk => crypto_error("noise psk: ", words),
        NoiseStage::Build => crypto_error("noise handshake build: ", words),
    }
}

/// What is wrong with a message of `len` bytes that cannot be read, after `n`.
pub open spec fn read_problem(initiator: bool, n: nat, len: nat) -> Seq<char> {
    if len > 65535 {
        "input error"@
    } else if outside::noise_turn(initiator, n) {
        "state error: NotTurnToRead"@
    } else if n >= 2 {
        "state error: HandshakeAlreadyFinished"@
    } else if len < 32 {
        "input error"@
    } else {
        "decrypt error"@
    }
}

/// A Noise handshake in progress.
pub struct NoiseHandshake {
    hs: snow::HandshakeState,
}

impl NoiseHandshake {
    /// Whether this side writes first.
    pub closed spec fn is_initiator(&self) -> bool {
        outside::noise_setup(self.hs).0
    }

    /// What both sides mix in first.
    pub closed spec fn spec_prologue(&self) -> Seq<u8> {
        outside::noise_setup(self.hs).1
    }

    /// The key that both sides have before.
    pub closed spec fn psk(&self) -> Seq<u8> {
        outside::noise_setup(self.hs).2
    }

    /// The messages that were exchanged, in order.
    pub closed spec fn messages(&self) -> Seq<Seq<u8>> {
        outside::noise_messages(self.hs)
    }

    /// What this side makes of the next message, where its tag fits.
    pub closed spec fn payload(&self, msg: Seq<u8>) -> Option<Seq<u8>> {
        outside::noise_payload(self.hs, msg)
    }

    /// The hash of all that was exchanged.
    pub open spec fn hash(&self) -> Seq<u8> {
        outside::noise_hash(self.spec_prologue(), self.psk(), self.messages())
    }

    /// Whether this and another are the two sides of one handshake.
    pub open spec fn faces(&self, peer: NoiseHandshake) -> bool {
        &&& self.is_initiator() != peer.is_initiator()
        &&& self.spec_prologue() == peer.spec_prologue()
        &&& self.psk() == peer.psk()
        &&& self.messages() == peer.messages()
    }

    /// Whether nothing has happened to a handshake.
    pub open spec fn stands(&self, before: NoiseHandshake) -> bool {
        &&& self.is_initiator() == before.is_initiator()
        &&& self.spec_prologue() == before.spec_prologue()
        &&& self.psk() == before.psk()
        &&& self.messages() == before.messages()
    }

    /// Whether a handshake has gone on by a message.
    pub open spec fn went_on(&self, before: NoiseHandshake, msg: Seq<u8>) -> bool {
        &&& self.is_initiator() == before.is_initiator()
        &&& self.spec_prologue() == before.spec_prologue()
        &&& self.psk() == before.psk()
        &&& self.messages() == before.messages().push(msg)
    }

    /// Whether a handshake is at its start: one side of the routing key and the
    /// secret.
    pub open spec fn starts(&self, initiator: bool, routing_key: Seq<u8>, secret: Seq<u8>) -> bool {
        &&& self.is_initiator() == initiator
        &&& self.spec_prologue() == prologue_prefix() + routing_key
        &&& self.psk() == psk_of(routing_key, secret)
        &&& self.messages() == Seq::<Seq<u8>>::empty()
    }

    fn build(routing_key: &[u8; 20], secret: &[u8; 16], initiator: bool) -> (r: Result<
        NoiseHandshake,
        Fault,
    >)
        ensures
            r is Ok,
            r matches Ok(h) ==> h.starts(initiator, routing_key@, secret@),
    {
        let psk = derive_psk(routing_key, secret);
        let prologue = prologue(routing_key);
        let made = if initiator {
            outside::noise_initiator(NOISE_PATTERN, &prologue, PSK_PLACE, &psk)
        } else {
            outside::noise_responder(NOISE_PATTERN, &prologue, PSK_PLACE, &psk)
        };
        match made {
            Ok(hs) => Ok(NoiseHandshake { hs }),
            Err(e) => Err(build_fault(e.0, e.1.as_str())),
        }
    }

    /// The client's side, which writes first.
    pub fn initiator(routing_key: &[u8; 20], secret: &[u8; 16]) -> (r: Result<
        NoiseHandshake,
        Fault,
    >)
        ensures
            r is Ok,
            r matches Ok(h) ==> h.starts(true, routing_key@, secret@),
    {
        NoiseHandshake::build(routing_key, secret, true)
    }

    /// The sharer's side, which reads first.
    pub fn responder(identity: &Identity) -> (r: Result<NoiseHandshake, Fault>)
        ensures
            r is Ok,
            r matches Ok(h) ==> h.starts(false, identity.routing_key@, identity.secret@),
    {
        NoiseHandshake::build(&identity.routing_key, &identity.secret, false)
    }

    /// Writes the next message of the handshake. The other side reads it back
    /// to the payload. Where it is this side's turn and the message is no longer
    /// than 65535 bytes, it fails only for want of random numbers.
    pub fn write_message(&mut self, payload: &[u8]) -> (r: Result<Vec<u8>, Fault>)
        requires
            payload@.len() + NOISE_HS_MAX <= isize::MAX,
            payload@.len() < 274877906880,
        ensures
            match r {
                Ok(m) => {
                    &&& outside::noise_to_write(old(self).is_initiator(), old(self).messages().len())
                    &&& m@.len() == payload@.len() + 48
                    &&& m@.len() <= 65535
                    &&& final(self).went_on(*old(self), m@)
                    &&& forall|peer: NoiseHandshake| #[trigger]
                        old(self).faces(peer) ==> peer.payload(m@) == Some(payload@)
                },
                Err(f) => {
                    &&& final(self).stands(*old(self))
                    &&& if !outside::noise_turn(
                        old(self).is_initiator(),
                        old(self).messages().len(),
                    ) {
                        crypto_fault(f, "noise write: "@, "state error: NotTurnToWrite"@)
                    } else if old(self).messages().len() >= 2 {
                        crypto_fault(f, "noise write: "@, "state error: HandshakeAlreadyFinished"@)
                    } else if payload@.len() + 48 > 65535 {
                        crypto_fault(f, "noise write: "@, "input error"@) || crypto_fault(
                            f,
                            "noise write: "@,
                            "RNG error"@,
                        )
                    } else {
                        crypto_fault(f, "noise write: "@, "RNG error"@)
                    }
                },
            },
    {
        let ghost before = *self;
        match outside::noise_write(&mut self.hs, payload, NOISE_HS_MAX + payload.len()) {
            Ok(m) => {
                assert forall|peer: NoiseHandshake| #[trigger]
                    before.faces(peer) implies peer.payload(m@) == Some(payload@) by {
                    assert(outside::noise_sides(before.hs, peer.hs));
                }
                Ok(m)
            },
            Err(e) => Err(crypto_error("noise write: ", e.as_str())),
        }
    }

    /// Reads the next message of the handshake, and returns its payload. The
    /// first message fails where it was made with another secret.
    pub fn read_message(&mut self, msg: &[u8]) -> (r: Result<Vec<u8>, Fault>)
        ensures
            r is Ok <==> outside::noise_to_read(
                old(self).is_initiator(),
                old(self).messages().len(),
            ) && 48 <= msg@.len() <= 65535 && old(self).payload(msg@) is Some,
            match r {
                Ok(p) => {
                    &&& old(self).payload(msg@) == Some(p@)
                    &&& msg@.len() == p@.len() + 48
                    &&& final(self).went_on(*old(self), msg@)
                },
                Err(f) => final(self).stands(*old(self)) && crypto_fault(
                    f,
                    "noise read: "@,
                    read_problem(old(self).is_initiator(), old(self).messages().len(), msg@.len()),
                ),
            },
    {
        let room: usize = if msg.len() > NOISE_HS_MAX {
            msg.len()
        } else {
            NOISE_HS_MAX
        };
        match outside::noise_read(&mut self.hs, msg, room) {
            Ok(p) => Ok(p),
            Err(e) => Err(crypto_error("noise read: ", e.as_str())),
        }
    }

    /// Whether both messages were exchanged.
    pub fn is_finished(&self) -> (r: bool)
        ensures
            r == (self.messages().len() == 2),
    {
        outside::noise_finished(&self.hs)
    }

    /// The session that a finished handshake has agreed on.
    pub fn into_session(self) -> (r: Result<NoiseSession, Fault>)
        ensures
            match r {
                Ok(s) => self.messages().len() == 2 && s.handshake_hash@ == self.hash()
                    && s.comes_of(self),
                Err(f) => self.messages().len() != 2 && crypto_fault(
                    f,
                    "noise transport mode: "@,
                    "state error: HandshakeNotFinished"@,
                ),
            },
    {
        let handshake_hash = array_32(&outside::noise_hash_of(&self.hs));
        match outside::noise_transport(self.hs) {
            Ok(transport) => Ok(NoiseSession { transport, handshake_hash }),
            Err(e) => Err(crypto_error("noise transport mode: ", e.as_str())),
        }
    }
}

/// An established Noise session. Each packet is sealed under a counter of its
/// own.
pub struct NoiseSession {
    pub transport: snow::StatelessTransportState,
    /// The hash of the handshake, which the sharer signs.
    pub handshake_hash: [u8; 32],
}

impl NoiseSession {
    /// What the session makes of a plain text under a counter.
    pub closed spec fn sealed(&self, counter: u64, plain: Seq<u8>) -> Seq<u8> {
        outside::noise_sealed(self.transport, counter, plain)
    }

    /// What the session makes of a sealed text under a counter.
    pub closed spec fn opened(&self, counter: u64, sealed: Seq<u8>) -> Option<Seq<u8>> {
        outside::noise_opened(self.transport, counter, sealed)
    }

    /// Whether the session is the one that a handshake has agreed on.
    pub closed spec fn comes_of(&self, h: NoiseHandshake) -> bool {
        outside::noise_agreed(self.transport) == (
            outside::noise_setup(h.hs),
            outside::noise_messages(h.hs),
        )
    }

    /// Whether this and another are the two ends of one session.
    pub closed spec fn faces(&self, peer: NoiseSession) -> bool {
        outside::noise_ends(self.transport, peer.transport)
    }

    /// Seals a plain text under a counter. The other end opens it to the plain
    /// text under the same counter.
    pub fn encrypt(&self, counter: u64, plaintext: &[u8]) -> (r: Result<Vec<u8>, Fault>)
        requires
            plaintext@.len() + NOISE_TAG_LEN <= isize::MAX,
        ensures
            r is Ok <==> plaintext@.len() + NOISE_TAG_LEN <= 65535 && counter != u64::MAX,
            match r {
                Ok(c) => c@ == self.sealed(counter, plaintext@) && c@.len() == plaintext@.len()
                    + NOISE_TAG_LEN && forall|peer: NoiseSession| #[trigger]
                    self.faces(peer) ==> peer.opened(counter, c@) == Some(plaintext@),
                Err(f) => crypto_fault(
                    f,
                    "noise encrypt: "@,
                    if plaintext@.len() + NOISE_TAG_LEN > 65535 {
                        "input error"@
                    } else {
                        "state error: Exhausted"@
                    },
                ),
            },
    {
        let room: usize = plaintext.len() + NOISE_TAG_LEN;
        match outside::noise_seal(&self.transport, counter, plaintext, room) {
            Ok(c) => {
                assert forall|peer: NoiseSession| #[trigger] self.faces(peer) implies peer.opened(
                    counter,
                    c@,
                ) == Some(plaintext@) by {
                    assert(outside::noise_ends(self.transport, peer.transport));
                }
                Ok(c)
            },
            Err(e) => Err(crypto_error("noise encrypt: ", e.as_str())),
        }
    }

    /// Opens a sealed text under a counter. It fails where the tag does not
    /// fit: with another key or counter, or where the text was changed.
    pub fn decrypt(&self, counter: u64, ciphertext: &[u8]) -> (r: Result<Vec<u8>, Fault>)
        ensures
            r is Ok <==> NOISE_TAG_LEN <= ciphertext@.len() <= 65535 && counter != u64::MAX
                && self.opened(counter, ciphertext@) is Some,
            match r {
                Ok(p) => self.opened(counter, ciphertext@) == Some(p@) && ciphertext@.len()
                    == p@.len() + NOISE_TAG_LEN,
                Err(f) => crypto_fault(
                    f,
                    "noise decrypt: "@,
                    if ciphertext@.len() > 65535 {
                        "input error"@
                    } else if ciphertext@.len() >= NOISE_TAG_LEN && counter == u64::MAX {
                        "state error: Exhausted"@
                    } else {
                        "decrypt error"@
                    },
                ),
            },
    {
        match outside::noise_open(&self.transport, counter, ciphertext) {
            Ok(p) => Ok(p),
            Err(e) => Err(crypto_error("noise decrypt: ", e.as_str())),
        }
    }
}

/// The sharer's proof: its certificate after its length, and a signature.
pub open spec fn cert_auth(cert: Seq<u8>, signature: Seq<u8>) -> Seq<u8> {
    bytes::be16_bytes(cert.len()) + cert + signature
}

/// The sharer's proof, from its certificate and a signature.
pub fn frame_cert_auth(cert: &[u8], signature: &[u8]) -> (out: Vec<u8>)
    requires
        cert@.len() <= 65535,
    ensures
        out@ == cert_auth(cert@, signature@),
{
    let mut out: Vec<u8> = Vec::new();
    bytes::push_u16(&mut out, cert.len() as u16);
    bytes::push_bytes(&mut out, cert);
    bytes::push_bytes(&mut out, signature);
    assert(out@ =~= cert_auth(cert@, signature@));
    out
}

/// Builds the sharer's proof for a session: its certificate, and a signature
/// over the handshake's hash. It fails where the key is rejected, and else only
/// where there are no random numbers. The proof of an identity that was made here
/// is accepted.
pub fn build_cert_auth(identity: &Identity, handshake_hash: &[u8; 32]) -> (r: Result<
    Vec<u8>,
    Fault,
>)
    requires
        identity@.cert.len() <= 65535,
    ensures
        match r {
            Ok(out) => {
                &&& outside::key_rejection(identity@.key) is None
                &&& exists|signature: Seq<u8>|
                    out@ == #[trigger] cert_auth(identity@.cert, signature) && signature.len() > 0
                        && outside::signs(
                        identity@.key,
                        signed_input(handshake_hash@),
                        signature,
                    )
                &&& outside::self_signed(identity::peer_names(), identity@.cert, identity@.key)
                    && identity@.routing_key == identity::routing_key_of(identity@.cert)
                    ==> auth_wrong(out@, identity@.routing_key, handshake_hash@) is None
            },
            Err(f) => match outside::key_rejection(identity@.key) {
                Some(words) => crypto_fault(f, "noise auth: rejected key: "@, words),
                None => crypto_fault(f, "noise auth: rejected key: "@, "RNG failed"@)
                    || crypto_fault(f, "noise auth: signing failed"@, ""@),
            },
        },
{
    let input = sign_input(handshake_hash);
    match outside::ecdsa_sign(&identity.key_der_bytes, &input) {
        Ok(sig) => {
            let out = frame_cert_auth(&identity.cert_der_bytes, &sig);
            proof {
                reveal_strlit("spora.peer");
                proof_is_checked(
                    identity@.cert,
                    sig@,
                    identity@.routing_key,
                    handshake_hash@,
                );
            }
            assert(out@ == cert_auth(identity@.cert, sig@));
            Ok(out)
        },
        Err(e) => {
            proof {
                reveal_strlit("");
                assert("noise auth: signing failed"@ + ""@ =~= "noise auth: signing failed"@);
            }
            Err(sign_fault(e))
        },
    }
}

/// The fault of a message that was not signed.
pub fn sign_fault(e: SignFailure) -> (f: Fault)
    ensures
        f.reason == Reason::CryptoError,
        f.detail@ == (match e {
            SignFailure::Rejected(words) => "noise auth: rejected key: "@ + words@,
            SignFailure::Failed => "noise auth: signing failed"@,
        }),
{
    match e {
        SignFailure::Rejected(words) => crypto_error("noise auth: rejected key: ", words.as_str()),
        SignFailure::Failed => Fault::new(Reason::CryptoError, "noise auth: signing failed"),
    }
}

/// What is found wrong with a proof, with the code and the words of it.
pub open spec fn auth_wrong(auth: Seq<u8>, routing_key: Seq<u8>, handshake_hash: Seq<u8>) -> Option<
    (Reason, Seq<char>),
> {
    let n = bytes::be16(auth[0], auth[1]);
    let cert = auth.subrange(2, 2 + n as int);
    let signature = auth.skip(2 + n as int);
    if auth.len() < 2 {
        Some((Reason::ProtocolViolation, "noise auth: truncated"@))
    } else if auth.len() < 2 + n + 1 {
        Some((Reason::ProtocolViolation, "noise auth: truncated cert/sig"@))
    } else if identity::routing_key_of(cert) != routing_key {
        Some((Reason::CertMismatch, "noise auth: routing key does not match cert"@))
    } else if !outside::cert_parses(cert) {
        Some((Reason::CertMismatch, "noise auth: bad cert"@))
    } else if !outside::signature_fits(cert, signed_input(handshake_hash), signature) {
        Some((Reason::CertMismatch, "noise auth: bad signature"@))
    } else {
        None
    }
}

/// Verifies the sharer's proof: the certificate is that of the routing key,
/// and its key has signed this session's hash.
pub fn verify_cert_auth(auth: &[u8], routing_key: &[u8; 20], handshake_hash: &[u8; 32]) -> (r:
    Result<(), Fault>)
    ensures
        match r {
            Ok(_) => auth_wrong(auth@, routing_key@, handshake_hash@) is None,
            Err(f) => auth_wrong(auth@, routing_key@, handshake_hash@) == Some(
                (f.reason, f.detail@),
            ),
        },
{
    if auth.len() < 2 {
        return Err(Fault::new(Reason::ProtocolViolation, "noise auth: truncated"));
    }
    let n: usize = bytes::u16_of(auth[0], auth[1]) as usize;
    if auth.len() < 2 + n + 1 {
        return Err(Fault::new(Reason::ProtocolViolation, "noise auth: truncated cert/sig"));
    }
    let cert = vstd::slice::slice_subrange(auth, 2, 2 + n);
    let signature = vstd::slice::slice_subrange(auth, 2 + n, auth.len());
    assert(signature@ =~= auth@.skip(2 + n as int));
    let actual = identity::derive_routing_key(cert);
    if !bytes::same_bytes(&actual, routing_key) {
        return Err(
            Fault::new(Reason::CertMismatch, "noise auth: routing key does not match cert"),
        );
    }
    let input = sign_input(handshake_hash);
    match outside::check_signature(cert, &input, signature) {
        None => Err(Fault::new(Reason::CertMismatch, "noise auth: bad cert")),
        Some(fits) => if fits {
            Ok(())
        } else {
            Err(Fault::new(Reason::CertMismatch, "noise auth: bad signature"))
        },
    }
}

/// A proof is accepted if and only if its certificate is the one that the
/// routing key stands for and can be read, and its signature is one of that
/// certificate's key over this session's hash.
pub proof fn proof_is_checked(
    cert: Seq<u8>,
    signature: Seq<u8>,
    routing_key: Seq<u8>,
    handshake_hash: Seq<u8>,
)
    requires
        cert.len() <= 65535,
        signature.len() > 0,
    ensures
        auth_wrong(cert_auth(cert, signature), routing_key, handshake_hash) is None <==> {
            &&& identity::routing_key_of(cert) == routing_key
            &&& outside::cert_parses(cert)
            &&& outside::signature_fits(cert, signed_input(handshake_hash), signature)
        },
{
    let auth = cert_auth(cert, signature);
    bytes::be16_reads_back(cert.len());
    let h = bytes::be16_bytes(cert.len());
    assert(auth[0] == h[0] && auth[1] == h[1]);
    assert(auth.subrange(2, 2 + cert.len() as int) =~= cert);
    assert(auth.skip(2 + cert.len() as int) =~= signature);
}

/// The sides of a handshake take turns: where one is to write its next message
/// the other is to read it, and after two messages neither has one to write or
/// to read.
pub proof fn handshake_takes_turns(initiator: bool, n: nat)
    ensures
        !(outside::noise_to_write(initiator, n) && outside::noise_to_read(initiator, n)),
        outside::noise_to_write(initiator, n) <==> outside::noise_to_read(!initiator, n),
        n < 2 <==> outside::noise_to_write(initiator, n) || outside::noise_to_read(initiator, n),
{
}

/// The two sides of a handshake, set up from the same routing key and secret,
/// face each other; they do so still once one has read what the other has
/// written, and come to have the same hash.
pub proof fn sides_stay_together(
    a: NoiseHandshake,
    b: NoiseHandshake,
    routing_key: Seq<u8>,
    secret: Seq<u8>,
    c: NoiseHandshake,
    d: NoiseHandshake,
    msg: Seq<u8>,
)
    ensures
        a.starts(true, routing_key, secret) && b.starts(false, routing_key, secret) ==> a.faces(b),
        a.faces(b) && c.went_on(a, msg) && d.went_on(b, msg) ==> c.faces(d),
        a.faces(b) ==> a.hash() == b.hash(),
{
}

/// The sessions that the two sides of a handshake come to are the two ends of
/// one: what one seals, the other opens.
pub proof fn sides_become_ends(a: NoiseHandshake, b: NoiseHandshake, s: NoiseSession, t: NoiseSession)
    requires
        a.faces(b),
        s.comes_of(a),
        t.comes_of(b),
    ensures
        s.faces(t),
{
}

/// The bytes of words of ASCII characters.
pub open spec fn ascii(words: Seq<char>) -> Seq<u8> {
    Seq::new(words.len(), |i: int| words[i] as u8)
}

/// What is hashed and signed is labelled with words of its own, so that nothing
/// that is made for one purpose passes for another.
pub proof fn purposes_are_labelled()
    ensures
        psk_domain() == ascii("spora-noise-psk-v1"@),
        prologue_prefix() == ascii("spora-noise-v1"@),
        auth_domain() == ascii("spora-noise-auth-v1"@),
        crate::punch::probe_label() == ascii("spora-punch-v1-probe"@),
        crate::punch::verify_label() == ascii("spora-punch-v1-verify"@),
{
    reveal_strlit("spora-noise-psk-v1");
    reveal_strlit("spora-noise-v1");
    reveal_strlit("spora-noise-auth-v1");
    reveal_strlit("spora-punch-v1-probe");
    reveal_strlit("spora-punch-v1-verify");
    assert(psk_domain() =~= ascii("spora-noise-psk-v1"@));
    assert(prologue_prefix() =~= ascii("spora-noise-v1"@));
    assert(auth_domain() =~= ascii("spora-noise-auth-v1"@));
    assert(crate::punch::probe_label() =~= ascii("spora-punch-v1-probe"@));
    assert(crate::punch::verify_label() =~= ascii("spora-punch-v1-verify"@));
}

/// A proof of identity is accepted only where it is whole, its certificate is
/// the one that the routing key was made of, and its signature is that
/// certificate's over the label and the handshake's hash.
pub proof fn accepted_proof_is_whole(auth: Seq<u8>, routing_key: Seq<u8>, handshake_hash: Seq<u8>)
    requires
        auth_wrong(auth, routing_key, handshake_hash) is None,
    ensures
        exists|cert: Seq<u8>, signature: Seq<u8>|
            auth == #[trigger] cert_auth(cert, signature) && signature.len() > 0
                && identity::routing_key_of(cert) == routing_key && outside::cert_parses(cert)
                && outside::signature_fits(cert, auth_domain() + handshake_hash, signature),
{
    let n = bytes::be16(auth[0], auth[1]);
    let cert = auth.subrange(2, 2 + n as int);
    let signature = auth.skip(2 + n as int);
    bytes::be16_reads_back(n);
    let h = bytes::be16_bytes(n);
    assert(cert.len() == n);
    assert(auth =~= cert_auth(cert, signature));
}

} // verus!
