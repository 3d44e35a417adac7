//! The sharer's identity, and the share URL that a client needs to reach it.
//!
//! An [`Identity`] bundles a certificate and its key, the `routing_key` that
//! the certificate hashes to, and a random `secret`. A [`Token`] is what a
//! client gets of it, with the endpoints at which the sharer can be reached,
//! and is written as `https://spora.to/s/<base64url(routing_key || secret)>`
//! with one `r=` parameter for each endpoint.

use vstd::prelude::*;
use vstd::string::*;
use crate::addr;
use crate::bytes;
use crate::outside;
use crate::text;

verus! {

/// The length of a routing key: as many bytes as a QUIC connection id can hold.
pub const ROUTING_KEY_LEN: usize = 20;

/// The length of the secret that authorizes a client.
pub const SECRET_LEN: usize = 16;

/// The length of the bytes in a share URL: a routing key and a secret.
pub const TOKEN_BLOB_LEN: usize = 36;

/// The version of the format in which identities are stored.
pub const IDENTITY_VERSION: u8 = 1;

/// The routing key of a certificate: the first bytes of its SHA-256 digest.
pub open spec fn routing_key_of(cert: Seq<u8>) -> Seq<u8> {
    outside::sha256(cert).take(ROUTING_KEY_LEN as int)
}

/// The first twenty bytes at `from`.
pub fn array_20(b: &[u8], from: usize) -> (a: [u8; 20])
    requires
        from + 20 <= b.len(),
    ensures
        a@ == b@.subrange(from as int, from + 20),
{
    let mut a: [u8; 20] = [0u8;20];
    let mut i: usize = 0;
    while i < 20
        invariant
            i <= 20,
            from + 20 <= b.len(),
            forall|j: int| 0 <= j < i ==> a@[j] == b@[from + j],
        decreases 20 - i,
    {
        a[i] = b[from + i];
        i = i + 1;
    }
    assert(a@ =~= b@.subrange(from as int, from + 20));
    a
}

/// The first sixteen bytes at `from`.
pub fn array_16(b: &[u8], from: usize) -> (a: [u8; 16])
    requires
        from + 16 <= b.len(),
    ensures
        a@ == b@.subrange(from as int, from + 16),
{
    let mut a: [u8; 16] = [0u8;16];
    let mut i: usize = 0;
    while i < 16
        invariant
            i <= 16,
            from + 16 <= b.len(),
            forall|j: int| 0 <= j < i ==> a@[j] == b@[from + j],
        decreases 16 - i,
    {
        a[i] = b[from + i];
        i = i + 1;
    }
    assert(a@ =~= b@.subrange(from as int, from + 16));
    a
}

/// The routing key of a DER certificate.
pub fn derive_routing_key(cert_der: &[u8]) -> (rk: [u8; 20])
    ensures
        rk@ == routing_key_of(cert_der@),
{
    let full = outside::sha256_digest(cert_der);
    let rk = array_20(&full, 0);
    assert(rk@ =~= routing_key_of(cert_der@));
    rk
}

/// A sharer's identity.
pub struct Identity {
    pub cert_der_bytes: Vec<u8>,
    pub key_der_bytes: Vec<u8>,
    pub routing_key: [u8; 20],
    pub secret: [u8; 16],
}

/// What an identity holds.
#[verifier::ext_equal]
pub struct IdentityParts {
    pub cert: Seq<u8>,
    pub key: Seq<u8>,
    pub routing_key: Seq<u8>,
    pub secret: Seq<u8>,
}

impl Identity {
    pub open spec fn view(&self) -> IdentityParts {
        IdentityParts {
            cert: self.cert_der_bytes@,
            key: self.key_der_bytes@,
            routing_key: self.routing_key@,
            secret: self.secret@,
        }
    }
}

impl IdentityParts {
    /// Whether the routing key is that of the certificate, the key is one that
    /// can be read back, and both fit the length fields.
    pub open spec fn wf(&self) -> bool {
        &&& self.routing_key == routing_key_of(self.cert)
        &&& self.secret.len() == SECRET_LEN
        &&& outside::key_looks_known(self.key)
        &&& self.cert.len() < 0x1_0000_0000
        &&& self.key.len() < 0x1_0000_0000
    }
}

/// The four bytes that start a stored identity: `sIDv`.
pub open spec fn magic() -> Seq<u8> {
    seq![0x73u8, 0x49u8, 0x44u8, 0x76u8]
}

/// A stored identity: the magic, the version, the certificate and the key each
/// after its length, and the secret.
pub open spec fn identity_bytes(id: IdentityParts) -> Seq<u8> {
    magic().push(IDENTITY_VERSION) + bytes::be32_bytes(id.cert.len()) + id.cert
        + bytes::be32_bytes(id.key.len()) + id.key + id.secret
}

/// The field that stands after its length at `at`, and where it ends. A place
/// past the end has no length either.
pub open spec fn field_in(b: Seq<u8>, at: int, name: Seq<char>) -> Result<
    (Seq<u8>, int),
    Seq<char>,
> {
    if b.len() < at + 4 {
        Err("identity blob: "@ + name + " length truncated"@)
    } else {
        let len = bytes::be32(b[at], b[at + 1], b[at + 2], b[at + 3]);
        if b.len() < at + 4 + len {
            Err("identity blob: "@ + name + " bytes truncated"@)
        } else {
            Ok((b.subrange(at + 4, at + 4 + len), at + 4 + len))
        }
    }
}

/// The identity that stored bytes hold, or what is wrong with them.
pub open spec fn identity_in(b: Seq<u8>) -> Result<IdentityParts, Seq<char>> {
    if b.len() < 5 {
        Err("identity blob: header truncated"@)
    } else if b.take(4) != magic() {
        Err("identity blob: bad magic"@)
    } else if b[4] != IDENTITY_VERSION {
        Err(
            "identity blob: unsupported version "@ + text::dec(b[4] as nat) + " (expected "@
                + text::dec(IDENTITY_VERSION as nat) + ")"@,
        )
    } else {
        match field_in(b, 5, "cert"@) {
            Err(e) => Err(e),
            Ok((cert, at)) => match field_in(b, at, "key"@) {
                Err(e) => Err(e),
                Ok((key, end)) => if b.len() < end + SECRET_LEN {
                    Err("identity blob: secret truncated"@)
                } else if b.len() > end + SECRET_LEN {
                    Err(
                        "identity blob: "@ + text::dec((b.len() - end - SECRET_LEN) as nat)
                            + " trailing bytes after secret"@,
                    )
                } else if !outside::key_looks_known(key) {
                    Err(
                        "identity blob: invalid private key DER: "@
                            + "unknown or invalid key format"@,
                    )
                } else {
                    Ok(
                        IdentityParts {
                            cert,
                            key,
                            routing_key: routing_key_of(cert),
                            secret: b.subrange(end, end + SECRET_LEN),
                        },
                    )
                },
            },
        }
    }
}

fn read_lp_field(b: &[u8], at: usize, name: &str) -> (r: Result<(Vec<u8>, usize), String>)
    ensures
        match r {
            Ok(x) => field_in(b@, at as int, name@) == Result::<(Seq<u8>, int), Seq<char>>::Ok(
                (x.0@, x.1 as int),
            ) && x.1 <= b.len(),
            Err(e) => field_in(b@, at as int, name@) == Result::<(Seq<u8>, int), Seq<char>>::Err(
                e@,
            ),
        },
{
    if at > b.len() || b.len() - at < 4 {
        let e = String::from_str("identity blob: ").concat(name).concat(" length truncated");
        return Err(e);
    }
    let len: u32 = bytes::u32_of(b[at], b[at + 1], b[at + 2], b[at + 3]);
    let start: usize = at + 4;
    if ((b.len() - start) as u64) < len as u64 {
        let e = String::from_str("identity blob: ").concat(name).concat(" bytes truncated");
        return Err(e);
    }
    let end: usize = start + len as usize;
    Ok((bytes::copy_range(b, start, end), end))
}

/// The names that the certificate of an identity is for: one that stands for
/// every peer.
pub open spec fn peer_names() -> Seq<Seq<char>> {
    seq!["spora.peer"@]
}

/// The names that the certificate of an identity is for.
pub fn certified_names() -> (names: Vec<String>)
    ensures
        outside::texts(names@) == peer_names(),
{
    let mut names: Vec<String> = Vec::new();
    names.push(String::from_str("spora.peer"));
    assert(outside::texts(names@) =~= peer_names());
    names
}

impl Identity {
    /// The certificate, in DER.
    pub fn cert_der(&self) -> (b: &[u8])
        ensures
            b@ == self@.cert,
    {
        self.cert_der_bytes.as_slice()
    }

    /// The private key, in DER.
    pub fn key_der(&self) -> (b: &[u8])
        ensures
            b@ == self@.key,
    {
        self.key_der_bytes.as_slice()
    }

    /// A fresh identity: a self-signed ECDSA P-256 certificate and a random
    /// secret. `None` when the system has no random numbers to give.
    pub fn generate() -> (r: Option<Identity>)
        ensures
            r is Some ==> r->0@.routing_key == routing_key_of(r->0@.cert)
                && outside::key_looks_known(r->0@.key) && outside::key_rejection(r->0@.key) is None
                && outside::self_signed(peer_names(), r->0@.cert, r->0@.key),
    {
        let made = outside::self_signed_cert(certified_names());
        let secret = outside::random_16();
        Identity::of_made(made, secret)
    }

    /// The identity of a certificate and its key, where they could be made, and
    /// of a secret.
    pub fn of_made(made: Option<(Vec<u8>, Vec<u8>)>, secret: [u8; 16]) -> (r: Option<Identity>)
        ensures
            match made {
                Some((cert, key)) => r is Some && r->0@ == (IdentityParts {
                    cert: cert@,
                    key: key@,
                    routing_key: routing_key_of(cert@),
                    secret: secret@,
                }),
                None => r is None,
            },
    {
        match made {
            Some((cert_der_bytes, key_der_bytes)) => {
                let routing_key = derive_routing_key(&cert_der_bytes);
                Some(Identity { cert_der_bytes, key_der_bytes, routing_key, secret })
            },
            None => None,
        }
    }

    /// The token for a client that reaches this identity at `relays`.
    pub fn token(&self, relays: Vec<RelayEndpoint>) -> (t: Token)
        ensures
            t.routing_key == self.routing_key,
            t.secret == self.secret,
            t.relays == relays,
    {
        Token { routing_key: self.routing_key, secret: self.secret, relays }
    }

    /// The bytes in which an identity is stored.
    pub fn to_bytes(&self) -> (out: Vec<u8>)
        ensures
            out@ == identity_bytes(self@),
    {
        let mut out: Vec<u8> = Vec::new();
        out.push(0x73);
        out.push(0x49);
        out.push(0x44);
        out.push(0x76);
        out.push(IDENTITY_VERSION);
        assert(out@ =~= magic().push(IDENTITY_VERSION));
        bytes::push_u32(&mut out, (self.cert_der_bytes.len() as u64 % 0x1_0000_0000) as u32);
        bytes::push_bytes(&mut out, &self.cert_der_bytes);
        bytes::push_u32(&mut out, (self.key_der_bytes.len() as u64 % 0x1_0000_0000) as u32);
        bytes::push_bytes(&mut out, &self.key_der_bytes);
        bytes::push_bytes(&mut out, &self.secret);
        proof {
            lemma_be32_mod(self.cert_der_bytes@.len());
            lemma_be32_mod(self.key_der_bytes@.len());
        }
        out
    }

    /// The identity that stored bytes hold. Its routing key is computed anew.
    pub fn from_bytes(b: &[u8]) -> (r: Result<Identity, String>)
        ensures
            match r {
                Ok(id) => identity_in(b@) == Result::<IdentityParts, Seq<char>>::Ok(id@),
                Err(e) => identity_in(b@) == Result::<IdentityParts, Seq<char>>::Err(e@),
            },
    {
        if b.len() < 5 {
            return Err(String::from_str("identity blob: header truncated"));
        }
        if !(b[0] == 0x73 && b[1] == 0x49 && b[2] == 0x44 && b[3] == 0x76) {
            proof {
                if b@.take(4) == magic() {
                    assert(b@.take(4)[0] == b@[0] && b@.take(4)[1] == b@[1] && b@.take(4)[2]
                        == b@[2] && b@.take(4)[3] == b@[3]);
                }
            }
            return Err(String::from_str("identity blob: bad magic"));
        }
        assert(b@.take(4) =~= magic());
        if b[4] != IDENTITY_VERSION {
            let e = String::from_str("identity blob: unsupported version ").concat(
                text::dec_text(b[4] as u64).as_str(),
            ).concat(" (expected ").concat(text::dec_text(IDENTITY_VERSION as u64).as_str()).concat(
                ")",
            );
            return Err(e);
        }
        let (cert_der_bytes, at) = match read_lp_field(b, 5, "cert") {
            Ok(x) => x,
            Err(e) => return Err(e),
        };
        let (key_der_bytes, end) = match read_lp_field(b, at, "key") {
            Ok(x) => x,
            Err(e) => return Err(e),
        };
        if b.len() - end < SECRET_LEN {
            return Err(String::from_str("identity blob: secret truncated"));
        }
        if b.len() - end > SECRET_LEN {
            let e = String::from_str("identity blob: ").concat(
                text::dec_text((b.len() - end - SECRET_LEN) as u64).as_str(),
            ).concat(" trailing bytes after secret");
            return Err(e);
        }
        let secret = array_16(b, end);
        if let Err(e) = outside::private_key_parses(&key_der_bytes) {
            return Err(
                String::from_str("identity blob: invalid private key DER: ").concat(e.as_str()),
            );
        }
        let routing_key = derive_routing_key(&cert_der_bytes);
        Ok(Identity { cert_der_bytes, key_der_bytes, routing_key, secret })
    }
}

proof fn lemma_be32_mod(n: nat)
    ensures
        bytes::be32_bytes(n % 0x1_0000_0000) == bytes::be32_bytes(n),
{
    let m = n % 0x1_0000_0000;
    let q = n / 0x1_0000_0000;
    assert(n == m + 0x1_0000_0000 * q);
    assert(n / 256 == m / 256 + 16777216 * q);
    assert(n / 65536 == m / 65536 + 65536 * q);
    assert(n / 16777216 == m / 16777216 + 256 * q);
    lemma_mod_256(m, 16777216 * q);
    lemma_mod_256(m / 256, 65536 * q);
    lemma_mod_256(m / 65536, 256 * q);
    lemma_mod_256(m / 16777216, q);
}

proof fn lemma_mod_256(a: nat, k: nat)
    ensures
        (a + 256 * k) % 256 == a % 256,
{
}

/// A stored identity loads back as it was.
pub proof fn identity_reads_back(id: IdentityParts)
    requires
        id.wf(),
    ensures
        identity_in(identity_bytes(id)) == Result::<IdentityParts, Seq<char>>::Ok(id),
{
    let b = identity_bytes(id);
    let head = magic().push(IDENTITY_VERSION);
    let c = bytes::be32_bytes(id.cert.len());
    let k = bytes::be32_bytes(id.key.len());
    bytes::be32_reads_back(id.cert.len());
    bytes::be32_reads_back(id.key.len());
    let at = 9 + id.cert.len() as int;
    let end = at + 4 + id.key.len() as int;
    assert(b.take(4) =~= magic());
    assert(b[5] == c[0] && b[6] == c[1] && b[7] == c[2] && b[8] == c[3]);
    assert(b.subrange(9, at) =~= id.cert);
    assert(b[at] == k[0] && b[at + 1] == k[1] && b[at + 2] == k[2] && b[at + 3] == k[3]);
    assert(b.subrange(at + 4, end) =~= id.key);
    assert(b.subrange(end, end + SECRET_LEN) =~= id.secret);
}

/// Which protocol reaches an endpoint.
#[derive(Clone, Copy, Debug, PartialEq, Eq, Structural, Hash)]
pub enum RelayProtocol {
    /// A UDP relay that carries end-to-end QUIC.
    UdpQuic,
    /// No relay: the sharer's own listener.
    Direct,
    /// A TCP relay that carries end-to-end TLS.
    TcpTls,
    /// A UDP relay that carries end-to-end Noise.
    NoiseUdp,
}

impl Default for RelayProtocol {
    fn default() -> (p: RelayProtocol)
        ensures
            p == RelayProtocol::UdpQuic,
    {
        RelayProtocol::UdpQuic
    }
}

impl RelayProtocol {
    /// The tag in front of an endpoint of this protocol in a share URL; the
    /// default protocol has none.
    pub open spec fn tag(self) -> Option<Seq<char>> {
        match self {
            RelayProtocol::UdpQuic => None,
            RelayProtocol::Direct => Some("direct"@),
            RelayProtocol::TcpTls => Some("tcp"@),
            RelayProtocol::NoiseUdp => Some("nz"@),
        }
    }

    /// The protocol that a tag names; the default may be spelled out.
    pub open spec fn of_tag(tag: Seq<char>) -> Option<RelayProtocol> {
        if tag == "quic"@ || tag == "udpquic"@ {
            Some(RelayProtocol::UdpQuic)
        } else if tag == "direct"@ {
            Some(RelayProtocol::Direct)
        } else if tag == "tcp"@ {
            Some(RelayProtocol::TcpTls)
        } else if tag == "nz"@ {
            Some(RelayProtocol::NoiseUdp)
        } else {
            None
        }
    }

    /// Whether the sharer is reached through a relay that it registers with.
    pub fn is_relayed(self) -> (r: bool)
        ensures
            r == (self != RelayProtocol::Direct),
    {
        match self {
            RelayProtocol::UdpQuic | RelayProtocol::TcpTls | RelayProtocol::NoiseUdp => true,
            RelayProtocol::Direct => false,
        }
    }

    fn url_tag(self) -> (r: Option<&'static str>)
        ensures
            match r {
                Some(t) => self.tag() == Some(t@),
                None => self.tag() is None,
            },
    {
        match self {
            RelayProtocol::UdpQuic => None,
            RelayProtocol::Direct => Some("direct"),
            RelayProtocol::TcpTls => Some("tcp"),
            RelayProtocol::NoiseUdp => Some("nz"),
        }
    }

    fn from_url_tag(tag: &str) -> (r: Option<RelayProtocol>)
        ensures
            r == RelayProtocol::of_tag(tag@),
    {
        if text::same_text(tag, "quic") || text::same_text(tag, "udpquic") {
            Some(RelayProtocol::UdpQuic)
        } else if text::same_text(tag, "direct") {
            Some(RelayProtocol::Direct)
        } else if text::same_text(tag, "tcp") {
            Some(RelayProtocol::TcpTls)
        } else if text::same_text(tag, "nz") {
            Some(RelayProtocol::NoiseUdp)
        } else {
            None
        }
    }
}

/// Where a sharer can be reached: a bare host name or IP literal (an IPv6
/// literal without brackets), a port, and the protocol.
#[derive(Debug, PartialEq, Eq)]
pub struct RelayEndpoint {
    pub host: String,
    pub port: u16,
    pub protocol: RelayProtocol,
}

/// What an endpoint holds.
#[verifier::ext_equal]
pub struct Endpoint {
    pub host: Seq<char>,
    pub port: u16,
    pub protocol: RelayProtocol,
}

impl RelayEndpoint {
    pub open spec fn view(&self) -> Endpoint {
        Endpoint { host: self.host@, port: self.port, protocol: self.protocol }
    }
}

/// What a token holds.
#[verifier::ext_equal]
pub struct TokenParts {
    pub routing_key: Seq<u8>,
    pub secret: Seq<u8>,
    pub relays: Seq<Endpoint>,
}

/// What a client gets out of a share URL.
#[derive(Debug, PartialEq, Eq)]
pub struct Token {
    pub routing_key: [u8; 20],
    pub secret: [u8; 16],
    pub relays: Vec<RelayEndpoint>,
}

/// The endpoints of a vector.
pub open spec fn endpoints(v: Seq<RelayEndpoint>) -> Seq<Endpoint> {
    Seq::new(v.len(), |i: int| v[i]@)
}

impl Token {
    pub open spec fn view(&self) -> TokenParts {
        TokenParts {
            routing_key: self.routing_key@,
            secret: self.secret@,
            relays: endpoints(self.relays@),
        }
    }
}

impl Clone for Identity {
    fn clone(&self) -> (r: Identity)
        ensures
            r@ == self@,
    {
        Identity {
            cert_der_bytes: bytes::copy_bytes(&self.cert_der_bytes),
            key_der_bytes: bytes::copy_bytes(&self.key_der_bytes),
            routing_key: self.routing_key,
            secret: self.secret,
        }
    }
}

impl Clone for RelayEndpoint {
    fn clone(&self) -> (r: RelayEndpoint)
        ensures
            r == *self,
    {
        RelayEndpoint { host: self.host.clone(), port: self.port, protocol: self.protocol }
    }
}

/// A copy of a list of endpoints.
pub fn copy_endpoints(v: &Vec<RelayEndpoint>) -> (r: Vec<RelayEndpoint>)
    ensures
        r@ == v@,
{
    let mut r: Vec<RelayEndpoint> = Vec::new();
    let mut i: usize = 0;
    while i < v.len()
        invariant
            i <= v.len(),
            r@ == v@.take(i as int),
        decreases v.len() - i,
    {
        r.push(v[i].clone());
        i = i + 1;
    }
    r
}

impl Clone for Token {
    fn clone(&self) -> (r: Token)
        ensures
            r@ == self@,
    {
        Token {
            routing_key: self.routing_key,
            secret: self.secret,
            relays: copy_endpoints(&self.relays),
        }
    }
}

/// The last place of `c`, or `-1`.
pub open spec fn last_place(s: Seq<char>, c: char) -> int
    decreases s.len(),
{
    if s.len() == 0 {
        -1
    } else if s.last() == c {
        s.len() - 1
    } else {
        last_place(s.drop_last(), c)
    }
}

/// The first place at or after `from` where `]:` stands, or the length.
pub open spec fn bracket_end(s: Seq<char>, from: int) -> int
    decreases s.len() - from,
{
    if from + 1 >= s.len() {
        s.len() as int
    } else if s[from] == ']' && s[from + 1] == ':' {
        from
    } else {
        bracket_end(s, from + 1)
    }
}

/// An endpoint as the value of an `r` parameter: `host:port`, an IPv6 literal
/// in brackets, with the tag of its protocol and a slash in front.
pub open spec fn endpoint_text(e: Endpoint) -> Seq<char> {
    let port = seq![':'] + text::dec(e.port as nat);
    let bare = if e.host.contains(':') && e.host[0] != '[' {
        seq!['['] + e.host + seq![']'] + port
    } else {
        e.host + port
    };
    match e.protocol.tag() {
        Some(tag) => tag.push('/') + bare,
        None => bare,
    }
}

/// The host and the port in `[v6]:port` or `host:port`, with the port still in
/// digits, or what is wrong.
pub open spec fn host_port_in(value: Seq<char>) -> Result<(Seq<char>, Seq<char>), Seq<char>> {
    if value.len() > 0 && value[0] == '[' {
        let rest = value.skip(1);
        let at = bracket_end(rest, 0);
        if at >= rest.len() {
            Err("?r= value must be [v6]:port, got "@ + value)
        } else if addr::v6_in(rest.take(at)) is None {
            Err("invalid IPv6 literal in ?r= value: "@ + rest.take(at))
        } else {
            Ok((rest.take(at), rest.skip(at + 2)))
        }
    } else {
        let at = last_place(value, ':');
        if at < 0 {
            Err("?r= value must be host:port, got "@ + value)
        } else if value.take(at).contains(':') {
            Err("IPv6 relay literal must be bracketed ([addr]:port), got "@ + value)
        } else {
            Ok((value.take(at), value.skip(at + 1)))
        }
    }
}

/// The endpoint that the value of an `r` parameter names, or what is wrong.
pub open spec fn endpoint_in(value: Seq<char>) -> Result<Endpoint, Seq<char>> {
    let at = text::place_of(value, '/', 0);
    let tagged = at < value.len();
    let protocol = if tagged {
        RelayProtocol::of_tag(value.take(at))
    } else {
        Some(RelayProtocol::UdpQuic)
    };
    let rest = if tagged {
        value.skip(at + 1)
    } else {
        value
    };
    match protocol {
        None => Err(
            "unknown relay protocol '"@ + value.take(at) + "' in ?r= value: "@ + value,
        ),
        Some(protocol) => match host_port_in(rest) {
            Err(e) => Err(e),
            Ok((host, port)) => match text::u16_in(port) {
                None => Err("invalid port in ?r= value: "@ + port),
                Some(n) => Ok(Endpoint { host, port: n as u16, protocol }),
            },
        },
    }
}

fn find_last(s: &[char], c: char) -> (at: Option<usize>)
    ensures
        match at {
            Some(i) => i < s.len() && last_place(s@, c) == i,
            None => last_place(s@, c) == -1,
        },
{
    let mut end: usize = s.len();
    assert(s@.take(end as int) =~= s@);
    while end > 0
        invariant
            end <= s.len(),
            last_place(s@, c) == last_place(s@.take(end as int), c),
        decreases end,
    {
        assert(s@.take(end as int).drop_last() =~= s@.take(end - 1));
        if s[end - 1] == c {
            return Some(end - 1);
        }
        end = end - 1;
    }
    None
}

fn find_bracket(s: &[char]) -> (at: usize)
    ensures
        at == bracket_end(s@, 0),
        at <= s.len(),
        at < s.len() ==> at + 1 < s.len(),
{
    let mut i: usize = 0;
    while i < s.len() && i + 1 < s.len()
        invariant
            i <= s.len(),
            bracket_end(s@, 0) == bracket_end(s@, i as int),
        decreases s.len() - i,
    {
        if s[i] == ']' && s[i + 1] == ':' {
            return i;
        }
        i = i + 1;
    }
    s.len()
}

fn has_char(s: &[char], c: char) -> (r: bool)
    ensures
        r == s@.contains(c),
{
    let at: usize = text::find_char(s, c, 0);
    proof {
        text::place_of_is_first(s@, c, 0);
        if s@.contains(c) {
            let i = choose|i: int| 0 <= i < s@.len() && s@[i] == c;
            assert(at <= i);
        }
    }
    at < s.len()
}

fn parse_host_port(value: &[char]) -> (r: Result<(Vec<char>, Vec<char>), String>)
    ensures
        match r {
            Ok(x) => host_port_in(value@) == Result::<(Seq<char>, Seq<char>), Seq<char>>::Ok(
                (x.0@, x.1@),
            ),
            Err(e) => host_port_in(value@) == Result::<(Seq<char>, Seq<char>), Seq<char>>::Err(e@),
        },
{
    if value.len() > 0 && value[0] == '[' {
        let rest = text::copy_chars(value, 1, value.len());
        assert(rest@ =~= value@.skip(1));
        let at: usize = find_bracket(&rest);
        if at == rest.len() {
            return Err(
                String::from_str("?r= value must be [v6]:port, got ").concat(
                    text::text_of(value).as_str(),
                ),
            );
        }
        let host = text::copy_chars(&rest, 0, at);
        assert(host@ =~= rest@.take(at as int));
        if addr::parse_v6(&host).is_none() {
            return Err(
                String::from_str("invalid IPv6 literal in ?r= value: ").concat(
                    text::text_of(&host).as_str(),
                ),
            );
        }
        let port = text::copy_chars(&rest, at + 2, rest.len());
        assert(port@ =~= rest@.skip(at + 2));
        Ok((host, port))
    } else {
        match find_last(value, ':') {
            None => Err(
                String::from_str("?r= value must be host:port, got ").concat(
                    text::text_of(value).as_str(),
                ),
            ),
            Some(at) => {
                let host = text::copy_chars(value, 0, at);
                assert(host@ =~= value@.take(at as int));
                if has_char(&host, ':') {
                    return Err(
                        String::from_str(
                            "IPv6 relay literal must be bracketed ([addr]:port), got ",
                        ).concat(text::text_of(value).as_str()),
                    );
                }
                let port = text::copy_chars(value, at + 1, value.len());
                assert(port@ =~= value@.skip(at + 1));
                Ok((host, port))
            },
        }
    }
}

impl RelayEndpoint {
    /// An endpoint of the default protocol.
    pub fn new(host: &str, port: u16) -> (e: RelayEndpoint)
        ensures
            e@ == (Endpoint { host: host@, port, protocol: RelayProtocol::UdpQuic }),
    {
        RelayEndpoint {
            host: String::from_str(host),
            port,
            protocol: RelayProtocol::UdpQuic,
        }
    }

    /// An endpoint of a given protocol.
    pub fn with_protocol(host: &str, port: u16, protocol: RelayProtocol) -> (e: RelayEndpoint)
        ensures
            e@ == (Endpoint { host: host@, port, protocol }),
    {
        RelayEndpoint { host: String::from_str(host), port, protocol }
    }

    /// The endpoint as the value of an `r` parameter.
    pub fn to_url_param(&self) -> (s: String)
        ensures
            s@ == endpoint_text(self@),
    {
        let host = text::chars_of(self.host.as_str());
        let mut s = String::new();
        if let Some(tag) = self.protocol.url_tag() {
            s.append(tag);
            s.push('/');
        }
        if has_char(&host, ':') && host[0] != '[' {
            s.push('[');
            s.append(self.host.as_str());
            s.push(']');
        } else {
            s.append(self.host.as_str());
        }
        s.push(':');
        text::push_numeral(&mut s, self.port as u64, 10);
        s
    }

    /// The endpoint that the value of an `r` parameter names.
    pub fn from_url_param(value: &str) -> (r: Result<RelayEndpoint, String>)
        ensures
            match r {
                Ok(e) => endpoint_in(value@) == Result::<Endpoint, Seq<char>>::Ok(e@),
                Err(e) => endpoint_in(value@) == Result::<Endpoint, Seq<char>>::Err(e@),
            },
    {
        let chars = text::chars_of(value);
        let at: usize = text::find_char(&chars, '/', 0);
        let mut protocol = RelayProtocol::UdpQuic;
        let mut start: usize = 0;
        if at < chars.len() {
            let tag = text::text_of(vstd::slice::slice_subrange(&chars, 0, at));
            assert(tag@ =~= value@.take(at as int));
            protocol = match RelayProtocol::from_url_tag(tag.as_str()) {
                Some(p) => p,
                None => {
                    return Err(
                        String::from_str("unknown relay protocol '").concat(tag.as_str()).concat(
                            "' in ?r= value: ",
                        ).concat(value),
                    );
                },
            };
            start = at + 1;
        }
        let rest = text::copy_chars(&chars, start, chars.len());
        proof {
            if at < chars.len() {
                assert(rest@ =~= value@.skip(at + 1));
            } else {
                assert(rest@ =~= value@);
            }
        }
        let (host, port) = match parse_host_port(&rest) {
            Ok(x) => x,
            Err(e) => return Err(e),
        };
        match text::parse_u16(&port) {
            Some(n) => Ok(RelayEndpoint { host: text::text_of(&host), port: n, protocol }),
            None => Err(
                String::from_str("invalid port in ?r= value: ").concat(
                    text::text_of(&port).as_str(),
                ),
            ),
        }
    }
}

/// A parsed URL: its text as the parser writes it, its path, and the decoded
/// names and values of its query.
pub struct Url {
    text: String,
    path: String,
    pairs: Vec<(String, String)>,
}

impl Url {
    pub closed spec fn text(&self) -> Seq<char> {
        self.text@
    }

    pub closed spec fn path(&self) -> Seq<char> {
        self.path@
    }

    pub closed spec fn pairs(&self) -> Seq<(Seq<char>, Seq<char>)> {
        outside::pair_texts(self.pairs@)
    }

    /// Parses a URL.
    pub fn parse(s: &str) -> (r: Result<Url, String>)
        ensures
            match r {
                Ok(u) => {
                    &&& outside::url_text(s@) == Result::<Seq<char>, Seq<char>>::Ok(u.text())
                    &&& outside::url_path(s@) == Some(u.path())
                    &&& outside::url_pairs(s@) == Some(u.pairs())
                },
                Err(e) => outside::url_text(s@) == Result::<Seq<char>, Seq<char>>::Err(e@),
            },
            "https://spora.to/s/"@.is_prefix_of(s@) && outside::url_fits(s@) ==> r is Ok,
            forall|name: Seq<char>, query: Seq<char>| #[trigger]
                outside::plain_share_url(s@, name, query) ==> r is Ok && r->Ok_0.text() == s@
                    && r->Ok_0.path() == "/s/"@ + name && r->Ok_0.pairs() == outside::query_pairs(
                    text::split(query, '&'),
                ),
    {
        let text = match outside::url_normalize(s) {
            Ok(t) => t,
            Err(e) => return Err(e),
        };
        match (outside::url_path_of(s), outside::url_pairs_of(s)) {
            (Some(path), Some(pairs)) => Ok(Url { text, path, pairs }),
            _ => Err(text),
        }
    }

    /// The URL as text.
    pub fn as_str(&self) -> (s: &str)
        ensures
            s@ == self.text(),
    {
        self.text.as_str()
    }
}

/// The query of a share URL: one `r` parameter for each endpoint.
pub open spec fn token_query(relays: Seq<Endpoint>) -> Seq<char> {
    text::join(Seq::new(relays.len(), |i: int| "r="@ + endpoint_text(relays[i])), '&')
}

/// A token as a share URL.
pub open spec fn token_text(t: TokenParts) -> Seq<char> {
    "https://spora.to"@ + "/s/"@ + outside::b64_text(t.routing_key + t.secret) + seq!['?']
        + token_query(t.relays)
}

/// The bytes that a base64 text stands for.
pub open spec fn b64_bytes(s: Seq<char>) -> Option<Seq<u8>> {
    if exists|b: Seq<u8>| s == #[trigger] outside::b64_text(b) {
        Some(choose|b: Seq<u8>| s == #[trigger] outside::b64_text(b))
    } else {
        None
    }
}

/// The values of the `r` parameters.
pub open spec fn relay_values(pairs: Seq<(Seq<char>, Seq<char>)>) -> Seq<Seq<char>>
    decreases pairs.len(),
{
    if pairs.len() == 0 {
        Seq::empty()
    } else if pairs.last().0 == "r"@ {
        relay_values(pairs.drop_last()).push(pairs.last().1)
    } else {
        relay_values(pairs.drop_last())
    }
}

/// The endpoints that values name, or what is wrong with the first bad one.
pub open spec fn endpoints_in(values: Seq<Seq<char>>) -> Result<Seq<Endpoint>, Seq<char>>
    decreases values.len(),
{
    if values.len() == 0 {
        Ok(Seq::empty())
    } else {
        match endpoints_in(values.drop_last()) {
            Err(e) => Err(e),
            Ok(before) => match endpoint_in(values.last()) {
                Err(e) => Err(e),
                Ok(e) => Ok(before.push(e)),
            },
        }
    }
}

/// The token that a URL with this path and these query pairs holds, or what is
/// wrong with it.
pub open spec fn token_in(path: Seq<char>, pairs: Seq<(Seq<char>, Seq<char>)>) -> Result<
    TokenParts,
    Seq<char>,
> {
    if !"/s/"@.is_prefix_of(path) {
        Err("URL path must start with "@ + "/s/"@ + ", got "@ + path)
    } else if path.len() == 3 {
        Err("URL path is missing the token after /s/"@)
    } else {
        match b64_bytes(path.skip(3)) {
            None => Err(
                "invalid base64 in URL token: "@ + outside::b64_error(path.skip(3)),
            ),
            Some(blob) => if blob.len() != TOKEN_BLOB_LEN {
                Err(
                    "token blob is "@ + text::dec(blob.len()) + " bytes, expected "@ + text::dec(
                        TOKEN_BLOB_LEN as nat,
                    ),
                )
            } else {
                match endpoints_in(relay_values(pairs)) {
                    Err(e) => Err(e),
                    Ok(relays) => if relays.len() == 0 {
                        Err("URL is missing required ?r= query parameter"@)
                    } else {
                        Ok(
                            TokenParts {
                                routing_key: blob.take(ROUTING_KEY_LEN as int),
                                secret: blob.skip(ROUTING_KEY_LEN as int),
                                relays,
                            },
                        )
                    },
                }
            },
        }
    }
}

proof fn lemma_b64_char(a: nat, b: nat)
    requires
        a < 64,
        b < 64,
        outside::b64_char(a) == outside::b64_char(b),
    ensures
        a == b,
{
}

/// Different bytes have different base64 texts.
pub proof fn b64_texts_differ(a: Seq<u8>, b: Seq<u8>)
    requires
        outside::b64_text(a) == outside::b64_text(b),
    ensures
        a == b,
    decreases a.len(),
{
    let s = outside::b64_text(a);
    let t = outside::b64_text(b);
    if a.len() == 0 || b.len() == 0 {
        assert(s.len() == t.len());
        assert(a =~= b);
    } else if a.len() >= 3 && b.len() >= 3 {
        let ra = outside::b64_text(a.skip(3));
        let rb = outside::b64_text(b.skip(3));
        assert(ra =~= s.skip(4));
        assert(rb =~= t.skip(4));
        b64_texts_differ(a.skip(3), b.skip(3));
        assert(s[0] == t[0] && s[1] == t[1] && s[2] == t[2] && s[3] == t[3]);
        lemma_b64_char((a[0] / 4) as nat, (b[0] / 4) as nat);
        lemma_b64_char((a[0] % 4 * 16 + a[1] / 16) as nat, (b[0] % 4 * 16 + b[1] / 16) as nat);
        lemma_b64_char((a[1] % 16 * 4 + a[2] / 64) as nat, (b[1] % 16 * 4 + b[2] / 64) as nat);
        lemma_b64_char((a[2] % 64) as nat, (b[2] % 64) as nat);
        assert(a =~= a.take(3) + a.skip(3));
        assert(b =~= b.take(3) + b.skip(3));
        assert(a.take(3) =~= b.take(3));
    } else {
        assert(s.len() == t.len());
        assert(a.len() == b.len());
        assert(s[0] == t[0] && s[1] == t[1]);
        if a.len() == 1 {
            lemma_b64_char((a[0] / 4) as nat, (b[0] / 4) as nat);
            lemma_b64_char((a[0] % 4 * 16) as nat, (b[0] % 4 * 16) as nat);
        } else {
            assert(s[2] == t[2]);
            lemma_b64_char((a[0] / 4) as nat, (b[0] / 4) as nat);
            lemma_b64_char((a[0] % 4 * 16 + a[1] / 16) as nat, (b[0] % 4 * 16 + b[1] / 16) as nat);
            lemma_b64_char((a[1] % 16 * 4) as nat, (b[1] % 16 * 4) as nat);
        }
        assert(a =~= b);
    }
}

/// The bytes of a base64 text are those it was made of.
pub proof fn b64_reads_back(b: Seq<u8>)
    ensures
        b64_bytes(outside::b64_text(b)) == Some(b),
{
    let s = outside::b64_text(b);
    let c = choose|c: Seq<u8>| s == #[trigger] outside::b64_text(c);
    b64_texts_differ(b, c);
}

fn push_query(s: &mut String, relays: &Vec<RelayEndpoint>)
    ensures
        final(s)@ == old(s)@ + token_query(endpoints(relays@)),
{
    let ghost before = s@;
    let ghost parts = Seq::new(
        relays@.len(),
        |i: int| "r="@ + endpoint_text(endpoints(relays@)[i]),
    );
    let mut i: usize = 0;
    while i < relays.len()
        invariant
            i <= relays.len(),
            parts == Seq::new(
                relays@.len(),
                |i: int| "r="@ + endpoint_text(endpoints(relays@)[i]),
            ),
            s@ == before + text::join(parts.take(i as int), '&'),
        decreases relays.len() - i,
    {
        let part = relays[i].to_url_param();
        let ghost done = parts.take(i as int);
        if i > 0 {
            s.push('&');
            proof {
                text::join_of_two(done, seq![parts[i as int]], '&');
            }
        }
        s.append("r=");
        s.append(part.as_str());
        assert(parts.take(i + 1) =~= done + seq![parts[i as int]]);
        i = i + 1;
    }
    assert(parts.take(i as int) =~= parts);
}

impl Token {
    /// The share URL as it is put together.
    pub fn to_text(&self) -> (s: String)
        ensures
            s@ == token_text(self@),
    {
        let mut blob: Vec<u8> = Vec::new();
        bytes::push_bytes(&mut blob, &self.routing_key);
        bytes::push_bytes(&mut blob, &self.secret);
        assert(blob@ =~= self@.routing_key + self@.secret);
        let encoded = outside::b64_encode(&blob);
        let mut s = String::from_str("https://spora.to").concat("/s/").concat(encoded.as_str());
        s.push('?');
        push_query(&mut s, &self.relays);
        s
    }

    /// The share URL. One whose hosts are plain names and addresses is written
    /// as it is put together, and reads back as this token; an address that is
    /// already in brackets reads back without them.
    pub fn to_url(&self) -> (u: Url)
        requires
            outside::url_fits(token_text(self@)),
        ensures
            outside::url_text(token_text(self@)) == Result::<Seq<char>, Seq<char>>::Ok(u.text()),
            outside::url_path(token_text(self@)) == Some(u.path()),
            outside::url_pairs(token_text(self@)) == Some(u.pairs()),
            plain_token(self@) ==> u.text() == token_text(self@) && token_in(u.path(), u.pairs())
                == Result::<TokenParts, Seq<char>>::Ok(self@),
            plain_token(bare_token(self@)) ==> u.text() == token_text(self@) && token_in(
                u.path(),
                u.pairs(),
            ) == Result::<TokenParts, Seq<char>>::Ok(bare_token(self@)),
    {
        let s = self.to_text();
        proof {
            reveal_strlit("https://spora.to/s/");
            reveal_strlit("https://spora.to");
            reveal_strlit("/s/");
            assert("https://spora.to/s/"@ =~= "https://spora.to"@ + "/s/"@);
            assert("https://spora.to/s/"@.is_prefix_of(s@));
            if plain_token(self@) {
                plain_is_bare(self@);
            }
            if plain_token(bare_token(self@)) {
                brackets_make_no_difference(self@);
                plain_token_text(bare_token(self@));
            }
        }
        match Url::parse(s.as_str()) {
            Ok(u) => {
                proof {
                    if plain_token(bare_token(self@)) {
                        let name = outside::b64_text(self@.routing_key + self@.secret);
                        assert(outside::plain_share_url(s@, name, token_query(self@.relays)));
                        plain_token_reads_back(bare_token(self@), u.path(), u.pairs());
                    }
                }
                u
            },
            Err(e) => {
                assert(false);
                Url { text: e, path: String::new(), pairs: Vec::new() }
            },
        }
    }

    /// The token that a share URL holds.
    pub fn from_url(url: &Url) -> (r: Result<Token, String>)
        ensures
            match r {
                Ok(t) => token_in(url.path(), url.pairs()) == Result::<TokenParts, Seq<char>>::Ok(
                    t@,
                ),
                Err(e) => token_in(url.path(), url.pairs()) == Result::<TokenParts, Seq<char>>::Err(
                    e@,
                ),
            },
    {
        let path = text::chars_of(url.path.as_str());
        proof {
            reveal_strlit("/s/");
        }
        if path.len() < 3 || path[0] != '/' || path[1] != 's' || path[2] != '/' {
            proof {
                if "/s/"@.is_prefix_of(path@) {
                    assert("/s/"@[0] == path@[0] && "/s/"@[1] == path@[1] && "/s/"@[2] == path@[2]);
                }
            }
            return Err(
                String::from_str("URL path must start with ").concat("/s/").concat(
                    ", got ",
                ).concat(url.path.as_str()),
            );
        }
        assert("/s/"@ =~= path@.subrange(0, 3));
        assert("/s/"@.is_prefix_of(path@));
        if path.len() == 3 {
            return Err(String::from_str("URL path is missing the token after /s/"));
        }
        let name = text::text_of(vstd::slice::slice_subrange(&path, 3, path.len()));
        assert(name@ =~= path@.skip(3));
        let blob = match outside::b64_decode(name.as_str()) {
            Ok(b) => b,
            Err(e) => {
                return Err(String::from_str("invalid base64 in URL token: ").concat(e.as_str()));
            },
        };
        proof {
            b64_reads_back(blob@);
        }
        if blob.len() != TOKEN_BLOB_LEN {
            return Err(
                String::from_str("token blob is ").concat(
                    text::dec_text(blob.len() as u64).as_str(),
                ).concat(" bytes, expected ").concat(
                    text::dec_text(TOKEN_BLOB_LEN as u64).as_str(),
                ),
            );
        }
        let routing_key = array_20(&blob, 0);
        let secret = array_16(&blob, 20);
        assert(routing_key@ =~= blob@.take(20));
        assert(secret@ =~= blob@.skip(20));
        let mut relays: Vec<RelayEndpoint> = Vec::new();
        let ghost ps = url.pairs();
        let mut i: usize = 0;
        assert(endpoints(relays@) =~= Seq::<Endpoint>::empty());
        while i < url.pairs.len()
            invariant
                i <= url.pairs.len(),
                ps == outside::pair_texts(url.pairs@),
                endpoints_in(relay_values(ps.take(i as int))) == Result::<
                    Seq<Endpoint>,
                    Seq<char>,
                >::Ok(endpoints(relays@)),
                ps == url.pairs(),
                b64_bytes(url.path().skip(3)) == Some(blob@),
                blob.len() == TOKEN_BLOB_LEN,
                url.path().len() > 3,
                "/s/"@.is_prefix_of(url.path()),
            decreases url.pairs.len() - i,
        {
            assert(ps.take(i + 1).drop_last() =~= ps.take(i as int));
            let ghost vals = relay_values(ps.take(i as int));
            if text::same_text(url.pairs[i].0.as_str(), "r") {
                assert(vals.push(ps[i as int].1).drop_last() =~= vals);
                match RelayEndpoint::from_url_param(url.pairs[i].1.as_str()) {
                    Ok(e) => {
                        let ghost before = endpoints(relays@);
                        relays.push(e);
                        assert(endpoints(relays@) =~= before.push(e@));
                    },
                    Err(e) => {
                        proof {
                            assert(endpoints_in(relay_values(ps.take(i + 1))) == Result::<
                                Seq<Endpoint>,
                                Seq<char>,
                            >::Err(e@));
                            lemma_first_error(ps, i + 1);
                        }
                        return Err(e);
                    },
                }
            }
            i = i + 1;
        }
        assert(ps.take(i as int) =~= ps);
        if relays.len() == 0 {
            return Err(String::from_str("URL is missing required ?r= query parameter"));
        }
        Ok(Token { routing_key, secret, relays })
    }
}

proof fn lemma_first_error(ps: Seq<(Seq<char>, Seq<char>)>, k: int)
    requires
        0 <= k <= ps.len(),
        endpoints_in(relay_values(ps.take(k))) is Err,
    ensures
        endpoints_in(relay_values(ps)) == endpoints_in(relay_values(ps.take(k))),
    decreases ps.len() - k,
{
    if k < ps.len() {
        assert(ps.take(k + 1).drop_last() =~= ps.take(k));
        let vals = relay_values(ps.take(k));
        assert(vals.push(ps[k].1).drop_last() =~= vals);
        lemma_first_error(ps, k + 1);
    } else {
        assert(ps.take(k) =~= ps);
    }
}

/// Whether a host is a plain name, or an IP literal.
pub open spec fn plain_host(h: Seq<char>) -> bool {
    ||| forall|i: int| 0 <= i < h.len() ==> outside::url_plain(#[trigger] h[i]) || h[i] == '.'
    ||| h.contains(':') && addr::v6_in(h) is Some
}

/// Whether a token has endpoints, and every one of them a plain host.
pub open spec fn plain_token(t: TokenParts) -> bool {
    &&& t.routing_key.len() == ROUTING_KEY_LEN
    &&& t.secret.len() == SECRET_LEN
    &&& t.relays.len() > 0
    &&& forall|i: int| 0 <= i < t.relays.len() ==> plain_host((#[trigger] t.relays[i]).host)
}

proof fn lemma_plain_host(h: Seq<char>, c: char)
    requires
        plain_host(h),
        c != '.',
        !outside::url_plain(c),
    ensures
        c != ':' ==> !h.contains(c),
        c == ':' && addr::v6_in(h) is None ==> !h.contains(c),
{
    if h.contains(c) {
        let i = choose|i: int| 0 <= i < h.len() && h[i] == c;
        if addr::v6_in(h) is Some && h.contains(':') && c != ':' {
            addr::v6_literal_has_no(h, c);
        } else {
            assert(!(outside::url_plain(h[i]) || h[i] == '.'));
        }
    }
}

proof fn lemma_tags(p: RelayProtocol)
    ensures
        p.tag() is Some ==> !p.tag()->0.contains('/') && RelayProtocol::of_tag(p.tag()->0) == Some(
            p,
        ) && forall|i: int| 0 <= i < p.tag()->0.len() ==> outside::url_plain(#[trigger] p.tag()->0[i]),
{
    reveal_strlit("quic");
    reveal_strlit("udpquic");
    reveal_strlit("direct");
    reveal_strlit("tcp");
    reveal_strlit("nz");
    assert("direct"@.len() == 6 && "tcp"@.len() == 3 && "nz"@.len() == 2 && "quic"@.len() == 4
        && "udpquic"@.len() == 7);
}

proof fn lemma_dec_plain(n: nat, i: int)
    requires
        0 <= i < text::dec(n).len(),
    ensures
        outside::url_plain(text::dec(n)[i]),
{
    text::numeral_reads_back(n, 10);
    let c = text::dec(n)[i];
    assert(text::digit_value(c) is Some && text::digit_value(c)->0 < 10);
}

/// The host and the port of an endpoint, as they stand after the tag.
spec fn bare_text(e: Endpoint) -> Seq<char> {
    let port = seq![':'] + text::dec(e.port as nat);
    if e.host.contains(':') && e.host[0] != '[' {
        seq!['['] + e.host + seq![']'] + port
    } else {
        e.host + port
    }
}

proof fn lemma_last_place(head: Seq<char>, tail: Seq<char>, c: char)
    requires
        !tail.contains(c),
    ensures
        last_place(head.push(c) + tail, c) == head.len(),
    decreases tail.len(),
{
    let s = head.push(c) + tail;
    if tail.len() > 0 {
        let rest = tail.drop_last();
        assert(s.drop_last() =~= head.push(c) + rest);
        assert(tail.contains(tail.last()));
        assert forall|x: char| rest.contains(x) implies tail.contains(x) by {
            let i = choose|i: int| 0 <= i < rest.len() && rest[i] == x;
            assert(tail[i] == x);
        }
        lemma_last_place(head, rest, c);
    } else {
        assert(s =~= head.push(c));
    }
}

proof fn lemma_bracket_end(s: Seq<char>, from: int, at: int)
    requires
        0 <= from <= at,
        at + 1 < s.len(),
        forall|i: int| from <= i < at ==> s[i] != ']',
        s[at] == ']',
        s[at + 1] == ':',
    ensures
        bracket_end(s, from) == at,
    decreases at - from,
{
    if from < at {
        lemma_bracket_end(s, from + 1, at);
    }
}

proof fn lemma_bare_reads_back(e: Endpoint)
    requires
        plain_host(e.host),
    ensures
        host_port_in(bare_text(e)) == Result::<(Seq<char>, Seq<char>), Seq<char>>::Ok(
            (e.host, text::dec(e.port as nat)),
        ),
        !bare_text(e).contains('/'),
        forall|i: int| 0 <= i < bare_text(e).len() ==> outside::query_plain(#[trigger] bare_text(e)[i]),
{
    let s = bare_text(e);
    let port = text::dec(e.port as nat);
    let h = e.host;
    lemma_plain_host(h, '/');
    lemma_plain_host(h, '[');
    lemma_plain_host(h, ']');
    lemma_plain_host(h, ':');
    text::numeral_reads_back(e.port as nat, 10);
    text::numeral_has_no(e.port as nat, 10, ':');
    text::numeral_has_no(e.port as nat, 10, '/');
    if h.len() > 0 {
        assert(h.contains(h[0]));
    }
    assert forall|i: int| 0 <= i < h.len() implies outside::query_plain(#[trigger] h[i]) && h[i]
        != '/' && h[i] != ']' by {
        assert(h.contains(h[i]));
        if !outside::query_plain(h[i]) {
            lemma_plain_host(h, h[i]);
        }
    }
    assert forall|i: int| 0 <= i < port.len() implies outside::query_plain(#[trigger] port[i])
        && port[i] != '/' by {
        lemma_dec_plain(e.port as nat, i);
        assert(port.contains(port[i]));
    }
    if h.contains(':') {
        let rest = s.skip(1);
        assert(s =~= seq!['['] + h + seq![']'] + (seq![':'] + port));
        assert(rest =~= h + seq![']', ':'] + port);
        lemma_bracket_end(rest, 0, h.len() as int);
        assert(rest.take(h.len() as int) =~= h);
        assert(rest.skip(h.len() as int + 2) =~= port);
        assert(s[0] == '[');
    } else {
        assert(s =~= h.push(':') + port);
        lemma_last_place(h, port, ':');
        assert(s.take(h.len() as int) =~= h);
        assert(s.skip(h.len() as int + 1) =~= port);
        if h.len() > 0 {
            assert(s[0] == h[0]);
        } else {
            assert(s[0] == ':');
        }
    }
    if s.contains('/') {
        let i = choose|i: int| 0 <= i < s.len() && s[i] == '/';
        let off = if h.contains(':') {
            1int
        } else {
            0
        };
        if off <= i < off + h.len() {
            assert(h[i - off] == '/');
        } else {
            let start = if h.contains(':') {
                h.len() + 3
            } else {
                h.len() + 1
            };
            if i >= start {
                assert(port[i - start] == '/');
            }
        }
    }
}

/// An endpoint with a plain host reads back from its parameter value.
pub proof fn endpoint_reads_back(e: Endpoint)
    requires
        plain_host(e.host),
    ensures
        endpoint_in(endpoint_text(e)) == Result::<Endpoint, Seq<char>>::Ok(e),
        forall|i: int|
            0 <= i < endpoint_text(e).len() ==> outside::query_plain(
                #[trigger] endpoint_text(e)[i],
            ) && endpoint_text(e)[i] != '&',
{
    let s = endpoint_text(e);
    let bare = bare_text(e);
    let port = text::dec(e.port as nat);
    lemma_bare_reads_back(e);
    lemma_tags(e.protocol);
    text::numeral_reads_back(e.port as nat, 10);
    text::numeral_has_no(e.port as nat, 10, '+');
    assert(port.len() > 0 ==> port.contains(port[0]));
    text::place_of_is_first(bare, '/', 0);
    match e.protocol.tag() {
        Some(tag) => {
            text::place_after(tag, '/', bare);
            assert(s.take(tag.len() as int) =~= tag);
            assert(s.skip(tag.len() as int + 1) =~= bare);
        },
        None => {
            assert(text::place_of(bare, '/', 0) == bare.len()) by {
                let at = text::place_of(bare, '/', 0);
                if at < bare.len() {
                    assert(bare[at] == '/');
                    assert(bare.contains('/'));
                }
            }
        },
    }
    lemma_plain_host(e.host, '&');
    assert forall|i: int| 0 <= i < s.len() implies outside::query_plain(#[trigger] s[i]) && s[i]
        != '&' by {
        let off = match e.protocol.tag() {
            Some(tag) => tag.len() + 1,
            None => 0,
        };
        if i < off {
            let tag = e.protocol.tag()->0;
            if i < tag.len() {
                assert(s[i] == tag[i]);
            }
        } else {
            assert(s[i] == bare[i - off]);
            lemma_bare_has_no_ampersand(e, i - off);
        }
    }
}

proof fn lemma_bare_has_no_ampersand(e: Endpoint, i: int)
    requires
        plain_host(e.host),
        0 <= i < bare_text(e).len(),
    ensures
        bare_text(e)[i] != '&',
{
    let h = e.host;
    let port = text::dec(e.port as nat);
    lemma_plain_host(h, '&');
    text::numeral_has_no(e.port as nat, 10, '&');
    let off = if h.contains(':') && h[0] != '[' {
        1int
    } else {
        0
    };
    if off <= i < off + h.len() {
        assert(bare_text(e)[i] == h[i - off]);
        assert(h.contains(h[i - off]));
    } else if i >= off + off + h.len() + 1 {
        assert(bare_text(e)[i] == port[i - (off + off + h.len() + 1)]);
        assert(port.contains(bare_text(e)[i]));
    }
}

proof fn lemma_b64_plain(b: Seq<u8>)
    ensures
        forall|i: int|
            0 <= i < outside::b64_text(b).len() ==> outside::url_plain(
                #[trigger] outside::b64_text(b)[i],
            ),
    decreases b.len(),
{
    if b.len() >= 3 {
        lemma_b64_plain(b.skip(3));
        let s = outside::b64_text(b);
        let rest = outside::b64_text(b.skip(3));
        assert forall|i: int| 0 <= i < s.len() implies outside::url_plain(#[trigger] s[i]) by {
            if i >= 4 {
                assert(s[i] == rest[i - 4]);
            }
        }
    }
}

spec fn query_parts(relays: Seq<Endpoint>) -> Seq<Seq<char>> {
    Seq::new(relays.len(), |i: int| "r="@ + endpoint_text(relays[i]))
}

proof fn lemma_query_part(e: Endpoint)
    requires
        plain_host(e.host),
    ensures
        ({
            let part = "r="@ + endpoint_text(e);
            &&& part.len() > 0
            &&& !part.contains('&')
            &&& outside::query_pair(part) == ("r"@, endpoint_text(e))
            &&& forall|i: int| 0 <= i < part.len() ==> outside::query_plain(#[trigger] part[i])
        }),
{
    let t = endpoint_text(e);
    let part = "r="@ + t;
    endpoint_reads_back(e);
    reveal_strlit("r=");
    reveal_strlit("r");
    assert("r="@ =~= seq!['r', '=']);
    assert("r"@ =~= seq!['r']);
    assert(part =~= seq!['r'].push('=') + t);
    assert(!seq!['r'].contains('='));
    text::place_after(seq!['r'], '=', t);
    assert(part.take(1) =~= "r"@);
    assert(part.skip(2) =~= t);
    assert forall|i: int| 0 <= i < part.len() implies outside::query_plain(#[trigger] part[i])
        && part[i] != '&' by {
        if i >= 2 {
            assert(part[i] == t[i - 2]);
        }
    }
}

proof fn lemma_query_pairs(relays: Seq<Endpoint>)
    requires
        forall|i: int| 0 <= i < relays.len() ==> plain_host((#[trigger] relays[i]).host),
    ensures
        endpoints_in(relay_values(outside::query_pairs(query_parts(relays)))) == Result::<
            Seq<Endpoint>,
            Seq<char>,
        >::Ok(relays),
    decreases relays.len(),
{
    let parts = query_parts(relays);
    if relays.len() > 0 {
        let before = relays.drop_last();
        let e = relays.last();
        assert forall|i: int| 0 <= i < before.len() implies plain_host(
            (#[trigger] before[i]).host,
        ) by {
            assert(before[i] == relays[i]);
        }
        lemma_query_pairs(before);
        assert(parts.drop_last() =~= query_parts(before));
        assert(relays[relays.len() - 1] == e);
        lemma_query_part(e);
        endpoint_reads_back(e);
        let pairs = outside::query_pairs(parts.drop_last());
        let all = outside::query_pairs(parts);
        assert(all == pairs.push(("r"@, endpoint_text(e))));
        assert(all.drop_last() =~= pairs);
        let vals = relay_values(pairs);
        assert(vals.push(endpoint_text(e)).drop_last() =~= vals);
        assert(before.push(e) =~= relays);
    } else {
        assert(relays =~= Seq::<Endpoint>::empty());
    }
}

proof fn lemma_join_plain(parts: Seq<Seq<char>>)
    requires
        forall|i: int, j: int|
            0 <= i < parts.len() && 0 <= j < parts[i].len() ==> outside::query_plain(
                #[trigger] parts[i][j],
            ),
    ensures
        forall|i: int|
            0 <= i < text::join(parts, '&').len() ==> outside::query_plain(
                #[trigger] text::join(parts, '&')[i],
            ),
    decreases parts.len(),
{
    let s = text::join(parts, '&');
    if parts.len() > 1 {
        let rest = parts.skip(1);
        assert forall|i: int, j: int|
            0 <= i < rest.len() && 0 <= j < rest[i].len() implies outside::query_plain(
            #[trigger] rest[i][j],
        ) by {
            assert(rest[i] == parts[i + 1]);
        }
        lemma_join_plain(rest);
        let tail = text::join(rest, '&');
        let n = parts[0].len();
        assert forall|i: int| 0 <= i < s.len() implies outside::query_plain(#[trigger] s[i]) by {
            if i < n {
                assert(s[i] == parts[0][i]);
            } else if i > n {
                assert(s[i] == tail[i - n - 1]);
            }
        }
    }
}

/// The share URL of a token with plain hosts holds nothing that a URL parser
/// rewrites.
pub proof fn plain_token_text(t: TokenParts)
    requires
        plain_token(t),
        outside::url_fits(token_text(t)),
    ensures
        outside::plain_share_url(
            token_text(t),
            outside::b64_text(t.routing_key + t.secret),
            token_query(t.relays),
        ),
{
    lemma_b64_plain(t.routing_key + t.secret);
    let parts = query_parts(t.relays);
    assert forall|i: int, j: int|
        0 <= i < parts.len() && 0 <= j < parts[i].len() implies outside::query_plain(
        #[trigger] parts[i][j],
    ) by {
        lemma_query_part(t.relays[i]);
    }
    lemma_join_plain(parts);
    assert(token_query(t.relays) == text::join(parts, '&'));
}

/// A token with plain hosts reads back from the path and the query of its
/// share URL.
pub proof fn plain_token_reads_back(
    t: TokenParts,
    path: Seq<char>,
    pairs: Seq<(Seq<char>, Seq<char>)>,
)
    requires
        plain_token(t),
        path == "/s/"@ + outside::b64_text(t.routing_key + t.secret),
        pairs == outside::query_pairs(text::split(token_query(t.relays), '&')),
    ensures
        token_in(path, pairs) == Result::<TokenParts, Seq<char>>::Ok(t),
{
    let blob = t.routing_key + t.secret;
    let name = outside::b64_text(blob);
    reveal_strlit("/s/");
    assert(path.skip(3) =~= name);
    assert("/s/"@ =~= path.subrange(0, 3));
    assert(name.len() > 0);
    b64_reads_back(blob);
    let parts = query_parts(t.relays);
    assert forall|i: int| 0 <= i < parts.len() implies !(#[trigger] parts[i]).contains('&') by {
        lemma_query_part(t.relays[i]);
    }
    text::split_of_join(parts, '&');
    lemma_query_pairs(t.relays);
    assert(blob.take(20) =~= t.routing_key);
    assert(blob.skip(20) =~= t.secret);
}

/// A host without the brackets of an IPv6 literal.
pub open spec fn bare_host(h: Seq<char>) -> Seq<char> {
    let inner = h.subrange(1, h.len() - 1);
    if h.len() >= 2 && h[0] == '[' && h.last() == ']' && inner.contains(':') && addr::v6_in(
        inner,
    ) is Some {
        inner
    } else {
        h
    }
}

/// A token whose hosts are without brackets.
pub open spec fn bare_token(t: TokenParts) -> TokenParts {
    TokenParts {
        relays: Seq::new(
            t.relays.len(),
            |i: int| (Endpoint { host: bare_host(t.relays[i].host), ..t.relays[i] }),
        ),
        ..t
    }
}

/// A token with plain hosts has none in brackets.
pub proof fn plain_is_bare(t: TokenParts)
    requires
        plain_token(t),
    ensures
        bare_token(t) == t,
{
    assert forall|i: int| 0 <= i < t.relays.len() implies bare_token(t).relays[i]
        == t.relays[i] by {
        let h = t.relays[i].host;
        lemma_plain_host(h, '[');
        if h.len() > 0 && h[0] == '[' {
            assert(h.contains('['));
        }
    }
    assert(bare_token(t).relays =~= t.relays);
}

/// An IPv6 host is written the same, whether it comes in brackets or not: the
/// share URL of a token is that of the token without them.
pub proof fn brackets_make_no_difference(t: TokenParts)
    ensures
        token_query(bare_token(t).relays) == token_query(t.relays),
        token_text(bare_token(t)) == token_text(t),
{
    let b = bare_token(t);
    assert forall|i: int| 0 <= i < t.relays.len() implies endpoint_text(b.relays[i])
        == #[trigger] endpoint_text(t.relays[i]) by {
        let h = t.relays[i].host;
        let inner = h.subrange(1, h.len() - 1);
        if bare_host(h) != h {
            addr::v6_literal_has_no(inner, '[');
            assert(inner.contains(inner[0]));
            let k = choose|k: int| 0 <= k < inner.len() && inner[k] == ':';
            assert(h[k + 1] == ':');
            assert(h.contains(':'));
            assert(seq!['['] + inner + seq![']'] =~= h);
        }
    }
    assert(query_parts(b.relays) =~= query_parts(t.relays));
    assert(token_query(b.relays) == text::join(query_parts(b.relays), '&'));
    assert(token_query(t.relays) == text::join(query_parts(t.relays), '&'));
}

/// A token whose IPv6 hosts may come in brackets reads back from the path and
/// the query of its share URL, without them.
pub proof fn bracketed_hosts_read_back(
    t: TokenParts,
    path: Seq<char>,
    pairs: Seq<(Seq<char>, Seq<char>)>,
)
    requires
        plain_token(bare_token(t)),
        path == "/s/"@ + outside::b64_text(t.routing_key + t.secret),
        pairs == outside::query_pairs(text::split(token_query(t.relays), '&')),
    ensures
        token_in(path, pairs) == Result::<TokenParts, Seq<char>>::Ok(bare_token(t)),
{
    brackets_make_no_difference(t);
    plain_token_reads_back(bare_token(t), path, pairs);
}

/// The first four bytes in hexadecimal, as a list: `[a, b, c, d]`.
pub open spec fn hex_list(b: Seq<u8>) -> Seq<char> {
    "["@ + text::numeral(b[0] as nat, 16) + ", "@ + text::numeral(b[1] as nat, 16) + ", "@
        + text::numeral(b[2] as nat, 16) + ", "@ + text::numeral(b[3] as nat, 16) + "]"@
}

fn push_hex_list(out: &mut String, b: &[u8; 20])
    ensures
        final(out)@ == old(out)@ + hex_list(b@),
{
    out.append("[");
    text::push_numeral(out, b[0] as u64, 16);
    out.append(", ");
    text::push_numeral(out, b[1] as u64, 16);
    out.append(", ");
    text::push_numeral(out, b[2] as u64, 16);
    out.append(", ");
    text::push_numeral(out, b[3] as u64, 16);
    out.append("]");
    assert(out@ =~= old(out)@ + hex_list(b@));
}

/// Checks the certificate that a server shows against a routing key.
pub struct RoutingKeyVerifier {
    pub expected: [u8; 20],
}

impl RoutingKeyVerifier {
    /// A check against a routing key.
    pub fn new(expected: [u8; 20]) -> (v: RoutingKeyVerifier)
        ensures
            v.expected == expected,
    {
        RoutingKeyVerifier { expected }
    }

    /// Accepts a certificate if and only if its routing key is the expected
    /// one.
    pub fn verify_server_cert(&self, end_entity: &[u8]) -> (r: Result<(), String>)
        ensures
            match r {
                Ok(_) => routing_key_of(end_entity@) == self.expected@,
                Err(e) => routing_key_of(end_entity@) != self.expected@ && e@
                    == "routing key mismatch: expected "@ + hex_list(self.expected@) + ", got "@
                    + hex_list(routing_key_of(end_entity@)),
            },
    {
        let actual = derive_routing_key(end_entity);
        if bytes::same_bytes(&actual, &self.expected) {
            return Ok(());
        }
        let mut e = String::from_str("routing key mismatch: expected ");
        push_hex_list(&mut e, &self.expected);
        e.append(", got ");
        push_hex_list(&mut e, &actual);
        Err(e)
    }
}

/// What is read as an identity is exactly what that identity is written as,
/// with nothing missing and nothing behind it: the mark, the version one, the
/// certificate, the key and sixteen bytes of secret.
pub proof fn only_whole_identities_are_read(b: Seq<u8>)
    ensures
        identity_in(b) matches Ok(id) ==> {
            &&& b == seq![0x73u8, 0x49u8, 0x44u8, 0x76u8, 1u8] + bytes::be32_bytes(id.cert.len())
                + id.cert + bytes::be32_bytes(id.key.len()) + id.key + id.secret
            &&& id.secret.len() == 16
            &&& id.routing_key == outside::sha256(id.cert).take(20)
            &&& outside::key_looks_known(id.key)
        },
{
    if let Ok(id) = identity_in(b) {
        let n = id.cert.len();
        let m = id.key.len();
        let at: int = 5 + 4 + n as int;
        assert(n == bytes::be32(b[5], b[6], b[7], b[8]));
        assert(m == bytes::be32(b[at], b[at + 1], b[at + 2], b[at + 3]));
        bytes::be32_reads_back(n);
        bytes::be32_reads_back(m);
        let head = seq![0x73u8, 0x49u8, 0x44u8, 0x76u8, 1u8];
        assert(b.take(5) =~= head) by {
            assert(b.take(4)[0] == b[0] && b.take(4)[1] == b[1] && b.take(4)[2] == b[2] && b.take(
                4,
            )[3] == b[3]);
        }
        lemma_be32_spells(b[5], b[6], b[7], b[8]);
        lemma_be32_spells(b[at], b[at + 1], b[at + 2], b[at + 3]);
        assert(b.subrange(5, 9) =~= bytes::be32_bytes(n));
        assert(b.subrange(at, at + 4) =~= bytes::be32_bytes(m));
        assert(b =~= b.take(5) + b.subrange(5, 9) + id.cert + b.subrange(at, at + 4) + id.key
            + id.secret);
    }
}

proof fn lemma_be32_spells(a: u8, b: u8, c: u8, d: u8)
    ensures
        bytes::be32_bytes(bytes::be32(a, b, c, d)) == seq![a, b, c, d],
{
    let n = bytes::be32(a, b, c, d) as int;
    let (w, x, y, z) = (a as int, b as int, c as int, d as int);
    assert(n == ((w * 256 + x) * 256 + y) * 256 + z);
    lemma_last_octet((w * 256 + x) * 256 + y, z);
    lemma_last_octet(w * 256 + x, y);
    lemma_last_octet(w, x);
    assert(n / 256 == (w * 256 + x) * 256 + y);
    assert(n / 65536 == w * 256 + x) by {
        vstd::arithmetic::div_mod::lemma_div_denominator(n, 256, 256);
    }
    assert(n / 16777216 == w) by {
        vstd::arithmetic::div_mod::lemma_div_denominator(n, 65536, 256);
    }
    assert(bytes::be32_bytes(bytes::be32(a, b, c, d)) =~= seq![a, b, c, d]);
}

proof fn lemma_last_octet(head: int, last: int)
    requires
        0 <= head,
        0 <= last < 256,
    ensures
        (head * 256 + last) / 256 == head,
        (head * 256 + last) % 256 == last,
{
}

proof fn lemma_relay_values(before: Seq<(Seq<char>, Seq<char>)>, after: Seq<(Seq<char>, Seq<char>)>)
    ensures
        relay_values(before + after) == relay_values(before) + relay_values(after),
    decreases after.len(),
{
    let all = before + after;
    if after.len() > 0 {
        lemma_relay_values(before, after.drop_last());
        assert(all.drop_last() =~= before + after.drop_last());
        assert(relay_values(all) =~= relay_values(before) + relay_values(after));
    } else {
        assert(all =~= before);
        assert(relay_values(before) + relay_values(after) =~= relay_values(before));
    }
}

/// A parameter of a share URL that is not an `r` makes no difference, wherever
/// it stands.
pub proof fn other_parameters_make_no_difference(
    path: Seq<char>,
    before: Seq<(Seq<char>, Seq<char>)>,
    other: (Seq<char>, Seq<char>),
    after: Seq<(Seq<char>, Seq<char>)>,
)
    requires
        other.0 != "r"@,
    ensures
        token_in(path, before.push(other) + after) == token_in(path, before + after),
{
    lemma_relay_values(before.push(other), after);
    lemma_relay_values(before, after);
    assert(before.push(other).drop_last() =~= before);
}

proof fn lemma_endpoints_in(values: Seq<Seq<char>>, i: int)
    requires
        endpoints_in(values) is Ok,
    ensures
        endpoints_in(values)->Ok_0.len() == values.len(),
        0 <= i < values.len() ==> endpoint_in(values[i]) == Ok::<Endpoint, Seq<char>>(
            endpoints_in(values)->Ok_0[i],
        ),
    decreases values.len(),
{
    if values.len() > 0 {
        lemma_endpoints_in(values.drop_last(), i);
    }
}

/// A token holds the 20 bytes of routing key and the 16 of secret that the path
/// spells, and an endpoint for each `r` parameter, in their order, of which
/// there is at least one.
pub proof fn token_holds_what_the_url_spells(
    path: Seq<char>,
    pairs: Seq<(Seq<char>, Seq<char>)>,
    i: int,
)
    ensures
        token_in(path, pairs) matches Ok(t) ==> {
            &&& path == "/s/"@ + outside::b64_text(t.routing_key + t.secret)
            &&& t.routing_key.len() == 20
            &&& t.secret.len() == 16
            &&& t.relays.len() == relay_values(pairs).len()
            &&& t.relays.len() > 0
            &&& 0 <= i < t.relays.len() ==> endpoint_in(relay_values(pairs)[i]) == Ok::<
                Endpoint,
                Seq<char>,
            >(t.relays[i])
        },
{
    if let Ok(t) = token_in(path, pairs) {
        reveal_strlit("/s/");
        let name = path.skip(3);
        let blob = b64_bytes(name)->0;
        assert(name == outside::b64_text(blob));
        assert(t.routing_key + t.secret =~= blob);
        assert(path =~= "/s/"@ + name) by {
            assert("/s/"@ =~= path.subrange(0, 3));
        }
        lemma_endpoints_in(relay_values(pairs), i);
    }
}

proof fn lemma_last_place_of(s: Seq<char>, c: char)
    ensures
        -1 <= last_place(s, c) < s.len(),
        last_place(s, c) >= 0 ==> s[last_place(s, c)] == c,
        forall|i: int| last_place(s, c) < i < s.len() ==> s[i] != c,
    decreases s.len(),
{
    if s.len() > 0 && s.last() != c {
        lemma_last_place_of(s.drop_last(), c);
        let at = last_place(s, c);
        assert forall|i: int| at < i < s.len() implies s[i] != c by {
            if i < s.len() - 1 {
                assert(s.drop_last()[i] == s[i]);
            }
        }
    }
}

proof fn lemma_bracket_place(s: Seq<char>, from: int)
    requires
        0 <= from <= s.len(),
    ensures
        from <= bracket_end(s, from) <= s.len(),
        bracket_end(s, from) < s.len() ==> bracket_end(s, from) + 1 < s.len() && s[bracket_end(
            s,
            from,
        )] == ']' && s[bracket_end(s, from) + 1] == ':',
    decreases s.len() - from,
{
    if from + 1 < s.len() && !(s[from] == ']' && s[from + 1] == ':') {
        lemma_bracket_place(s, from + 1);
    }
}

/// Whether a value spells an endpoint: behind the tag of its protocol, if there
/// is one, stand the host, an IPv6 literal in brackets, a colon and the port.
pub open spec fn spells(value: Seq<char>, tag: Option<Seq<char>>, port: Seq<char>, e: Endpoint) -> bool {
    let plain = e.host.push(':') + port;
    let boxed = seq!['['] + e.host + seq![']', ':'] + port;
    let head = match tag {
        Some(t) => t.push('/'),
        None => Seq::empty(),
    };
    &&& match tag {
        Some(t) => RelayProtocol::of_tag(t) == Some(e.protocol),
        None => e.protocol == RelayProtocol::UdpQuic,
    }
    &&& {
        ||| value == head + plain && !e.host.contains(':')
        ||| value == head + boxed && addr::v6_in(e.host) is Some
    }
    &&& text::u16_in(port) == Some(e.port as nat)
}

/// An endpoint is read only from a value that spells it, so that a host that
/// holds a colon is an IPv6 literal.
#[verifier::spinoff_prover]
#[verifier::rlimit(60)]
pub proof fn read_endpoint_is_spelled(value: Seq<char>)
    ensures
        endpoint_in(value) matches Ok(e) ==> exists|tag: Option<Seq<char>>, port: Seq<char>| #[trigger]
            spells(value, tag, port, e),
{
    if let Ok(e) = endpoint_in(value) {
        let at = text::place_of(value, '/', 0);
        text::place_of_is_first(value, '/', 0);
        let rest = if at < value.len() {
            value.skip(at + 1)
        } else {
            value
        };
        let port = host_port_in(rest)->Ok_0.1;
        let tag = if at < value.len() {
            Some(value.take(at))
        } else {
            None
        };
        let head = if at < value.len() {
            value.take(at).push('/')
        } else {
            Seq::empty()
        };
        assert(value =~= head + rest);
        if rest.len() > 0 && rest[0] == '[' {
            let inner = rest.skip(1);
            lemma_bracket_place(inner, 0);
            let end = bracket_end(inner, 0);
            assert(rest =~= seq!['['] + e.host + seq![']', ':'] + port);
        } else {
            lemma_last_place_of(rest, ':');
            assert(rest =~= e.host.push(':') + port);
        }
        assert(spells(value, tag, port, e));
    }
}

/// Each protocol is known by its tag, and the default by none.
pub proof fn protocols_are_known_by_their_tags(p: RelayProtocol)
    ensures
        p.tag() matches Some(tag) ==> RelayProtocol::of_tag(tag) == Some(p),
        p.tag() is None <==> p == RelayProtocol::UdpQuic,
{
    lemma_tags(p);
}

} // verus!
