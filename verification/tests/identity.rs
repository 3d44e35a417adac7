//! Identities, tokens and share URLs.

use base64::engine::general_purpose::URL_SAFE_NO_PAD;
use base64::Engine;
use spora_core::identity::{
    certified_names, derive_routing_key, Identity, RelayEndpoint, RelayProtocol, RoutingKeyVerifier, Token, Url,
    IDENTITY_VERSION, ROUTING_KEY_LEN, SECRET_LEN, TOKEN_BLOB_LEN,
};

const IDENTITY_MAGIC: [u8; 4] = *b"sIDv";

fn relay(host: &str, port: u16) -> RelayEndpoint {
    RelayEndpoint::new(host, port)
}

fn fresh() -> Identity {
    Identity::generate().expect("random numbers")
}

fn blob() -> String {
    URL_SAFE_NO_PAD.encode([0u8; TOKEN_BLOB_LEN])
}

#[test]
fn token_url_round_trip() {
    let routing_key = [0x42u8; ROUTING_KEY_LEN];
    let secret = [0x99u8; SECRET_LEN];
    let token = Token { routing_key, secret, relays: vec![relay("relay.spora.dev", 443)] };

    let url = token.to_url();
    let parsed = Token::from_url(&url).unwrap();

    assert_eq!(parsed, token);
    assert!(url.as_str().starts_with("https://spora.to/s/"));
    assert!(url.as_str().ends_with("?r=relay.spora.dev:443"), "got {}", url.as_str());
}

#[test]
fn token_url_round_trips_multiple_relays() {
    let token = Token {
        routing_key: [0x42u8; ROUTING_KEY_LEN],
        secret: [0x99u8; SECRET_LEN],
        relays: vec![
            relay("2001:db8::1", 443),
            relay("relay.spora.dev", 443),
            relay("167.71.66.250", 8443),
        ],
    };
    let url = token.to_url();
    let parsed = Token::from_url(&url).unwrap();
    assert_eq!(parsed, token, "order and every endpoint must round-trip");
    let read = url::Url::parse(url.as_str()).unwrap();
    assert_eq!(read.query_pairs().filter(|(k, _)| k == "r").count(), 3);
}

#[test]
fn identity_generation_yields_matching_routing_key() {
    let id = fresh();
    assert_eq!(id.routing_key, derive_routing_key(&id.cert_der_bytes));
    assert_eq!(id.routing_key.len(), ROUTING_KEY_LEN);
    assert!(id.secret.iter().any(|&b| b != 0), "secret should be random, not all zeros");
}

#[test]
fn two_identities_differ() {
    let a = fresh();
    let b = fresh();
    assert_ne!(a.routing_key, b.routing_key);
    assert_ne!(a.secret, b.secret);
}

#[test]
fn token_from_identity_round_trip() {
    let id = fresh();
    let token = id.token(vec![relay("relay.example.com", 4242)]);
    let url = token.to_url();
    let parsed = Token::from_url(&url).unwrap();
    assert_eq!(parsed.routing_key, id.routing_key);
    assert_eq!(parsed.secret, id.secret);
    assert_eq!(parsed.relays, vec![relay("relay.example.com", 4242)]);
}

#[test]
fn token_url_round_trips_ipv6_relay_literal() {
    let token = Token {
        routing_key: [0x42u8; ROUTING_KEY_LEN],
        secret: [0x99u8; SECRET_LEN],
        relays: vec![relay("2001:db8::1", 443)],
    };
    let url = token.to_url();
    assert!(
        url.as_str().ends_with("?r=[2001:db8::1]:443"),
        "v6 literal must be bracketed, got {}",
        url.as_str()
    );
    let parsed = Token::from_url(&url).unwrap();
    assert_eq!(parsed, token, "relay host must come back bare (no brackets)");

    // A literal that is bracketed already comes back bare too.
    let pre_bracketed = Token { relays: vec![relay("[2001:db8::1]", 443)], ..token.clone() };
    let parsed = Token::from_url(&pre_bracketed.to_url()).unwrap();
    assert_eq!(parsed.relays, vec![relay("2001:db8::1", 443)]);
}

#[test]
fn relay_endpoint_protocol_tag_round_trips() {
    let token = Token {
        routing_key: [0x42u8; ROUTING_KEY_LEN],
        secret: [0x99u8; SECRET_LEN],
        relays: vec![
            RelayEndpoint::new("relay.example", 443),
            RelayEndpoint::with_protocol("1.2.3.4", 8443, RelayProtocol::Direct),
            RelayEndpoint::with_protocol("2001:db8::9", 443, RelayProtocol::Direct),
        ],
    };
    let url = token.to_url();
    let s = url.as_str();
    assert!(s.contains("r=relay.example:443"), "default stays bare: {s}");
    assert!(s.contains("r=direct/1.2.3.4:8443"), "direct is tagged: {s}");
    assert!(s.contains("r=direct/[2001:db8::9]:443"), "direct v6 bracketed inside the tag: {s}");
    assert_eq!(Token::from_url(&url).unwrap(), token, "protocol must round-trip");
}

#[test]
fn from_url_rejects_unknown_protocol() {
    let bad = Url::parse(&format!("https://spora.to/s/{}?r=warpspeed/1.2.3.4:443", blob())).unwrap();
    let err = Token::from_url(&bad).unwrap_err();
    assert!(err.contains("unknown relay protocol"), "got: {err}");
}

#[test]
fn quic_tag_parses_as_the_default_protocol() {
    let url =
        Url::parse(&format!("https://spora.to/s/{}?r=quic/relay.example:443", blob())).unwrap();
    let ep = &Token::from_url(&url).unwrap().relays[0];
    assert_eq!(ep.protocol, RelayProtocol::UdpQuic);
    assert_eq!(ep.host, "relay.example");
}

#[test]
fn from_url_rejects_unbracketed_ipv6_literal() {
    let bad = Url::parse(&format!("https://spora.to/s/{}?r=2001:db8::1:443", blob())).unwrap();
    let err = Token::from_url(&bad).unwrap_err();
    assert!(err.contains("bracketed"), "got: {}", err);
}

#[test]
fn from_url_rejects_malformed_bracketed_literal() {
    for r in ["[2001:db8::1]443", "[not-v6]:443", "[2001:db8::1]"] {
        let bad = Url::parse(&format!("https://spora.to/s/{}?r={}", blob(), r)).unwrap();
        assert!(Token::from_url(&bad).is_err(), "should reject ?r={}", r);
    }
}

#[test]
fn from_url_rejects_short_blob() {
    let bad = Url::parse("https://spora.to/s/aGVsbG8?r=h:1").unwrap();
    let err = Token::from_url(&bad).unwrap_err();
    assert!(err.contains("36"), "got: {}", err);
}

#[test]
fn from_url_rejects_missing_query() {
    let bad = Url::parse(&format!("https://spora.to/s/{}", blob())).unwrap();
    let err = Token::from_url(&bad).unwrap_err();
    assert!(err.contains("?r="), "got: {}", err);
}

#[test]
fn from_url_rejects_wrong_path() {
    let bad = Url::parse(&format!("https://spora.to/x/{}?r=h:1", blob())).unwrap();
    let err = Token::from_url(&bad).unwrap_err();
    assert!(err.contains("/s/"), "got: {}", err);
}

#[test]
fn from_url_rejects_bad_port() {
    let bad = Url::parse(&format!("https://spora.to/s/{}?r=h:notaport", blob())).unwrap();
    let err = Token::from_url(&bad).unwrap_err();
    assert!(err.contains("port"), "got: {}", err);
}

#[test]
fn from_url_rejects_a_missing_token_and_bad_base64() {
    let empty = Url::parse("https://spora.to/s/?r=h:1").unwrap();
    assert_eq!(Token::from_url(&empty).unwrap_err(), "URL path is missing the token after /s/");
    let garbled = Url::parse("https://spora.to/s/a!b?r=h:1").unwrap();
    let err = Token::from_url(&garbled).unwrap_err();
    assert!(err.starts_with("invalid base64 in URL token: "), "got: {err}");
}

#[test]
fn a_text_that_is_no_url_is_refused() {
    assert!(Url::parse("not a url").is_err());
}

#[test]
fn routing_key_verifier_accepts_matching() {
    let id = fresh();
    let verifier = RoutingKeyVerifier::new(id.routing_key);
    let result = verifier.verify_server_cert(id.cert_der());
    assert!(result.is_ok(), "verifier should accept matching cert");
}

#[test]
fn identity_to_from_bytes_round_trip() {
    let id = fresh();
    let bytes = id.to_bytes();
    let restored = Identity::from_bytes(&bytes).unwrap();
    assert_eq!(restored.cert_der_bytes, id.cert_der_bytes);
    assert_eq!(restored.key_der_bytes, id.key_der_bytes);
    assert_eq!(restored.routing_key, id.routing_key);
    assert_eq!(restored.secret, id.secret);
}

#[test]
fn identity_from_bytes_rejects_bad_magic() {
    let mut bytes = fresh().to_bytes();
    bytes[0] ^= 0xFF;
    let err = match Identity::from_bytes(&bytes) {
        Ok(_) => panic!("expected error"),
        Err(e) => e,
    };
    assert!(err.contains("magic"), "got: {}", err);
}

#[test]
fn identity_from_bytes_rejects_wrong_version() {
    let mut bytes = fresh().to_bytes();
    bytes[IDENTITY_MAGIC.len()] = 99;
    let err = match Identity::from_bytes(&bytes) {
        Ok(_) => panic!("expected error"),
        Err(e) => e,
    };
    assert!(err.contains("version"), "got: {}", err);
}

#[test]
fn identity_from_bytes_rejects_truncated() {
    let bytes = fresh().to_bytes();
    let truncated = &bytes[..bytes.len() - 5];
    let err = match Identity::from_bytes(truncated) {
        Ok(_) => panic!("expected error"),
        Err(e) => e,
    };
    assert!(err.contains("truncated"), "got: {}", err);
}

#[test]
fn identity_from_bytes_rejects_huge_length_field() {
    let mut bytes = Vec::new();
    bytes.extend_from_slice(&IDENTITY_MAGIC);
    bytes.push(IDENTITY_VERSION);
    bytes.extend_from_slice(&u32::MAX.to_be_bytes());
    bytes.extend_from_slice(&[0u8; 8]);
    let err = match Identity::from_bytes(&bytes) {
        Ok(_) => panic!("expected error for huge length field"),
        Err(e) => e,
    };
    assert!(err.contains("truncated"), "got: {}", err);
}

#[test]
fn identity_from_bytes_rejects_trailing_garbage() {
    let mut bytes = fresh().to_bytes();
    bytes.extend_from_slice(b"junk");
    let err = match Identity::from_bytes(&bytes) {
        Ok(_) => panic!("expected error"),
        Err(e) => e,
    };
    assert!(err.contains("trailing"), "got: {}", err);
}

#[test]
fn identity_from_bytes_rejects_a_key_that_does_not_parse() {
    let mut id = fresh();
    id.key_der_bytes = vec![1, 2, 3];
    let err = match Identity::from_bytes(&id.to_bytes()) {
        Ok(_) => panic!("expected error"),
        Err(e) => e,
    };
    assert!(!err.is_empty());
}

#[test]
fn routing_key_verifier_rejects_mismatched() {
    let id1 = fresh();
    let id2 = fresh();
    let verifier = RoutingKeyVerifier::new(id1.routing_key);
    let result = verifier.verify_server_cert(id2.cert_der());
    assert!(result.is_err(), "verifier should reject mismatched cert");
}

#[test]
fn a_routing_key_is_the_head_of_the_certificates_digest() {
    // SHA-256 of "abc".
    let rk = derive_routing_key(b"abc");
    assert_eq!(
        rk,
        [
            0xba, 0x78, 0x16, 0xbf, 0x8f, 0x01, 0xcf, 0xea, 0x41, 0x41, 0x40, 0xde, 0x5d, 0xae, 0x22,
            0x23, 0xb0, 0x03, 0x61, 0xa3
        ]
    );
}

#[test]
fn a_generated_key_and_certificate_belong_together() {
    let id = fresh();
    let key = ring::signature::EcdsaKeyPair::from_pkcs8(
        &ring::signature::ECDSA_P256_SHA256_ASN1_SIGNING,
        id.key_der(),
        &ring::rand::SystemRandom::new(),
    )
    .unwrap();
    let signed = key.sign(&ring::rand::SystemRandom::new(), b"message").unwrap();
    let cert = rustls::pki_types::CertificateDer::from(id.cert_der().to_vec());
    let end = webpki::EndEntityCert::try_from(&cert).unwrap();
    assert!(end.verify_signature(webpki::ring::ECDSA_P256_SHA256, b"message", signed.as_ref()).is_ok());
}

#[test]
fn an_identity_is_made_of_a_certificate_a_key_and_a_secret() {
    let id = Identity::of_made(Some((vec![1, 2, 3], vec![4, 5])), [7u8; 16]).unwrap();
    assert_eq!((id.cert_der(), id.key_der()), (&[1u8, 2, 3][..], &[4u8, 5][..]));
    assert_eq!(id.routing_key, derive_routing_key(&[1, 2, 3]));
    assert_eq!(id.secret, [7u8; 16]);
    assert!(Identity::of_made(None, [7u8; 16]).is_none());
}

#[test]
fn a_certificate_is_for_the_name_of_a_peer() {
    assert_eq!(certified_names(), vec!["spora.peer".to_string()]);
    let id = fresh();
    let name = b"spora.peer";
    assert!(id.cert_der().windows(name.len()).any(|w| w == name));
}

#[test]
fn hosts_in_brackets_come_back_without_them() {
    let hosts = ["[2001:db8::1]", "relay.example", "2001:db8::2"];
    let token = |hosts: &[&str]| Token {
        routing_key: [7; ROUTING_KEY_LEN],
        secret: [8; SECRET_LEN],
        relays: hosts.iter().map(|h| relay(h, 443)).collect(),
    };
    let bare = token(&["2001:db8::1", "relay.example", "2001:db8::2"]);
    let url = token(&hosts).to_url();
    assert_eq!(url.as_str(), bare.to_url().as_str());
    assert_eq!(Token::from_url(&url).unwrap(), bare);
}
