//! Noise sessions and the proof that goes with them.

use spora_core::e2e_noise::{
    build_cert_auth, build_fault, derive_psk, frame_cert_auth, prologue, sign_fault,
    verify_cert_auth, NoiseHandshake, NoiseSession, NOISE_PATTERN,
};
use spora_core::fault::Fault;
use spora_core::identity::{Identity, ROUTING_KEY_LEN, SECRET_LEN};
use spora_core::outside::{NoiseStage, SignFailure};
use spora_core::vocab::Reason;

fn fresh() -> Identity {
    Identity::generate().expect("random numbers")
}

/// Drives a handshake between both sides, and returns their sessions.
fn handshake_pair(
    rk: &[u8; ROUTING_KEY_LEN],
    b_secret: &[u8; SECRET_LEN],
    identity: &Identity,
) -> Result<(NoiseSession, NoiseSession), Fault> {
    let mut b = NoiseHandshake::initiator(rk, b_secret)?;
    let mut a = NoiseHandshake::responder(identity)?;

    let msg1 = b.write_message(&[])?;
    a.read_message(&msg1)?;
    let msg2 = a.write_message(&[])?;
    b.read_message(&msg2)?;

    assert!(a.is_finished() && b.is_finished());
    Ok((a.into_session()?, b.into_session()?))
}

fn pair(identity: &Identity) -> (NoiseSession, NoiseSession) {
    match handshake_pair(&identity.routing_key, &identity.secret, identity) {
        Ok(x) => x,
        Err(f) => panic!("handshake: {f:?}"),
    }
}

#[test]
fn full_handshake_and_cert_auth_succeeds() {
    let identity = fresh();
    let rk = identity.routing_key;
    let (a_sess, b_sess) = pair(&identity);

    assert_eq!(a_sess.handshake_hash, b_sess.handshake_hash);

    let auth = build_cert_auth(&identity, &a_sess.handshake_hash).expect("build auth");
    let ct = a_sess.encrypt(0, &auth).expect("encrypt auth");
    let pt = b_sess.decrypt(0, &ct).expect("decrypt auth");
    verify_cert_auth(&pt, &rk, &b_sess.handshake_hash).expect("auth must verify");

    let c1 = a_sess.encrypt(1, b"hello from A").unwrap();
    assert_eq!(b_sess.decrypt(1, &c1).unwrap(), b"hello from A");
    let c2 = b_sess.encrypt(1, b"hi from B").unwrap();
    assert_eq!(a_sess.decrypt(1, &c2).unwrap(), b"hi from B");
}

#[test]
fn wrong_secret_fails_the_first_message() {
    let identity = fresh();
    let rk = identity.routing_key;
    let wrong = [0xABu8; SECRET_LEN];
    let err = match handshake_pair(&rk, &wrong, &identity) {
        Ok(_) => panic!("a wrong secret must not complete the handshake"),
        Err(e) => e,
    };
    assert_eq!(
        err.reason,
        Reason::CryptoError,
        "expected a decryption failure, got: {}",
        err.detail
    );
}

#[test]
fn cert_auth_rejects_a_routing_key_mismatch() {
    let identity = fresh();
    let (a_sess, b_sess) = pair(&identity);
    let auth = build_cert_auth(&identity, &a_sess.handshake_hash).unwrap();
    let pt = b_sess.decrypt(0, &a_sess.encrypt(0, &auth).unwrap()).unwrap();
    let mut bogus = identity.routing_key;
    bogus[0] ^= 0xFF;
    let err = verify_cert_auth(&pt, &bogus, &b_sess.handshake_hash).unwrap_err();
    assert_eq!(err.reason, Reason::CertMismatch, "{}", err.detail);
}

#[test]
fn cert_auth_rejects_a_tampered_signature() {
    let identity = fresh();
    let (a_sess, b_sess) = pair(&identity);
    let mut auth = build_cert_auth(&identity, &a_sess.handshake_hash).unwrap();
    let last = auth.len() - 1;
    auth[last] ^= 0x01;
    let ct = a_sess.encrypt(0, &auth).unwrap();
    let pt = b_sess.decrypt(0, &ct).unwrap();
    assert!(verify_cert_auth(&pt, &identity.routing_key, &b_sess.handshake_hash).is_err());
}

#[test]
fn cert_auth_rejects_a_different_sessions_hash() {
    let identity = fresh();
    let (a1, _b1) = pair(&identity);
    let (_a2, b2) = pair(&identity);
    assert_ne!(a1.handshake_hash, b2.handshake_hash, "sessions differ");
    let auth = build_cert_auth(&identity, &a1.handshake_hash).unwrap();
    assert!(verify_cert_auth(&auth, &identity.routing_key, &b2.handshake_hash).is_err());
}

#[test]
fn every_flaw_of_a_proof_is_named() {
    let identity = fresh();
    let hash = [3u8; 32];
    let flaw = |auth: &[u8], rk: &[u8; 20]| match verify_cert_auth(auth, rk, &hash) {
        Ok(_) => panic!("should be refused"),
        Err(f) => (f.reason, f.detail),
    };
    let rk = &identity.routing_key;
    assert_eq!(
        flaw(&[0], rk),
        (Reason::ProtocolViolation, "noise auth: truncated".to_string())
    );
    assert_eq!(
        flaw(&[0, 9, 1], rk),
        (Reason::ProtocolViolation, "noise auth: truncated cert/sig".to_string())
    );
    assert_eq!(
        flaw(&frame_cert_auth(b"other", b"s"), rk),
        (Reason::CertMismatch, "noise auth: routing key does not match cert".to_string())
    );
    let garbled = spora_core::identity::derive_routing_key(b"no certificate");
    assert_eq!(
        flaw(&frame_cert_auth(b"no certificate", b"s"), &garbled),
        (Reason::CertMismatch, "noise auth: bad cert".to_string())
    );
    assert_eq!(
        flaw(&frame_cert_auth(identity.cert_der(), b"s"), rk),
        (Reason::CertMismatch, "noise auth: bad signature".to_string())
    );
}

#[test]
fn a_proof_is_framed_by_the_certificates_length() {
    assert_eq!(frame_cert_auth(b"abc", b"xy"), b"\0\x03abcxy".to_vec());
}

#[test]
fn sides_take_turns_and_carry_payloads() {
    let identity = fresh();
    let mut b = NoiseHandshake::initiator(&identity.routing_key, &identity.secret).ok().unwrap();
    let mut a = NoiseHandshake::responder(&identity).ok().unwrap();
    assert!(a.write_message(&[]).is_err());
    assert!(b.read_message(&[0u8; 48]).is_err());
    assert!(!b.is_finished());
    let msg1 = b.write_message(b"one").unwrap();
    assert_eq!(msg1.len(), 3 + 48);
    assert!(b.write_message(b"two").is_err());
    assert!(a.read_message(&msg1[..47]).is_err());
    assert_eq!(a.read_message(&msg1).unwrap(), b"one");
    let msg2 = a.write_message(b"two").unwrap();
    assert_eq!(b.read_message(&msg2).unwrap(), b"two");
    assert!(a.read_message(&msg1).is_err());
}

#[test]
fn an_unfinished_handshake_gives_no_session() {
    let b = NoiseHandshake::initiator(&[1; 20], &[2; 16]).ok().unwrap();
    match b.into_session() {
        Ok(_) => panic!("should fail"),
        Err(f) => {
            assert_eq!(f.reason, Reason::CryptoError);
            assert_eq!(f.detail, "noise transport mode: state error: HandshakeNotFinished");
        }
    }
}

#[test]
fn sealing_and_opening_have_their_limits() {
    let identity = fresh();
    let (a, b) = pair(&identity);
    assert_eq!(a.encrypt(0, &vec![0; 65520]).unwrap_err().detail, "noise encrypt: input error");
    assert_eq!(
        a.encrypt(u64::MAX, b"x").unwrap_err().detail,
        "noise encrypt: state error: Exhausted"
    );
    assert_eq!(a.encrypt(0, &vec![0; 65519]).unwrap().len(), 65535);
    let sealed = a.encrypt(5, b"x").unwrap();
    assert_eq!(b.decrypt(6, &sealed).unwrap_err().detail, "noise decrypt: decrypt error");
    assert_eq!(b.decrypt(5, &sealed[..15]).unwrap_err().detail, "noise decrypt: decrypt error");
    assert_eq!(
        b.decrypt(u64::MAX, &sealed).unwrap_err().detail,
        "noise decrypt: state error: Exhausted"
    );
    assert_eq!(b.decrypt(5, &vec![0; 65536]).unwrap_err().detail, "noise decrypt: input error");
    assert_eq!(b.decrypt(5, &sealed).unwrap(), b"x");
}

#[test]
fn keys_come_from_the_routing_key_and_the_secret() {
    let mut input = b"spora-noise-psk-v1".to_vec();
    input.extend_from_slice(&[1; 20]);
    input.extend_from_slice(&[2; 16]);
    let digest = ring::digest::digest(&ring::digest::SHA256, &input);
    assert_eq!(&derive_psk(&[1; 20], &[2; 16])[..], digest.as_ref());
    let mut p = b"spora-noise-v1".to_vec();
    p.extend_from_slice(&[1; 20]);
    assert_eq!(prologue(&[1; 20]), p);
}

#[test]
fn a_key_that_cannot_sign_is_reported() {
    let mut identity = fresh();
    identity.key_der_bytes = vec![1, 2, 3];
    let f = build_cert_auth(&identity, &[0; 32]).unwrap_err();
    assert_eq!(f.reason, Reason::CryptoError);
    assert!(f.detail.starts_with("noise auth: rejected key: "), "{}", f.detail);
    assert_eq!(sign_fault(SignFailure::Failed).detail, "noise auth: signing failed");
}

#[test]
fn a_handshake_says_why_it_cannot_go_on() {
    let identity = fresh();
    let mut b = NoiseHandshake::initiator(&identity.routing_key, &identity.secret).ok().unwrap();
    let mut a = NoiseHandshake::responder(&identity).ok().unwrap();
    let detail = |r: Result<Vec<u8>, Fault>| {
        let f = r.unwrap_err();
        assert_eq!(f.reason, Reason::CryptoError);
        f.detail
    };
    assert_eq!(detail(a.write_message(&[])), "noise write: state error: NotTurnToWrite");
    assert_eq!(detail(b.read_message(&[0; 48])), "noise read: state error: NotTurnToRead");
    assert_eq!(detail(b.read_message(&[0; 65536])), "noise read: input error");
    assert_eq!(detail(b.write_message(&[0; 65488])), "noise write: input error");
    assert_eq!(detail(a.read_message(&[0; 31])), "noise read: input error");
    assert_eq!(detail(a.read_message(&[0; 47])), "noise read: decrypt error");
    assert_eq!(detail(a.read_message(&[0; 48])), "noise read: decrypt error");
    let msg1 = b.write_message(&[0; 65487]).unwrap();
    assert_eq!(msg1.len(), 65535);
    assert_eq!(a.read_message(&msg1).unwrap().len(), 65487);
    let msg2 = a.write_message(&[]).unwrap();
    b.read_message(&msg2).unwrap();
    assert_eq!(detail(b.write_message(&[])), "noise write: state error: HandshakeAlreadyFinished");
    assert_eq!(detail(a.write_message(&[])), "noise write: state error: NotTurnToWrite");
    assert_eq!(detail(b.read_message(&msg2)), "noise read: state error: NotTurnToRead");
    assert_eq!(detail(a.read_message(&msg1)), "noise read: state error: HandshakeAlreadyFinished");
}

#[test]
fn a_handshake_can_always_be_set_up() {
    for n in 0..=255u8 {
        assert!(NoiseHandshake::initiator(&[n; 20], &[n; 16]).is_ok());
    }
    assert_eq!(NOISE_PATTERN, "Noise_NNpsk0_25519_ChaChaPoly_BLAKE2s");
    assert_eq!(
        build_fault(NoiseStage::Psk, "initialization error: ParameterOverwrite").detail,
        "noise psk: initialization error: ParameterOverwrite"
    );
}

#[test]
fn a_key_of_the_wrong_form_is_named() {
    let mut identity = fresh();
    identity.key_der_bytes = vec![0x30, 0x03, 0x02, 0x01, 0x00];
    let f = build_cert_auth(&identity, &[0; 32]).unwrap_err();
    assert_eq!(f.detail, "noise auth: rejected key: InvalidEncoding");
}
