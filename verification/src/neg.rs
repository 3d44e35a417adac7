//! The exchange of the endpoints that two peers punch towards.

use vstd::prelude::*;
use vstd::string::*;
use vstd::utf8::*;
use crate::addr;
use crate::addr::{IpAddr, SocketAddr};
use crate::outside;
use crate::server::TunnelError;
use crate::text;

verus! {

/// Whether all groups of an IPv6 address are zero.
pub open spec fn unspecified_v6(g: Seq<u16>) -> bool {
    forall|i: int| 0 <= i < 8 ==> g[i] == 0
}

/// Whether an address is loopback, unspecified, multicast or broadcast.
pub open spec fn no_peer(ip: IpAddr) -> bool {
    match ip {
        IpAddr::V4(o) => {
            ||| o@[0] == 127
            ||| 224 <= o@[0] <= 239
            ||| o@ == seq![0u8, 0u8, 0u8, 0u8]
            ||| o@ == seq![255u8, 255u8, 255u8, 255u8]
        },
        IpAddr::V6(g) => {
            ||| crate::server::loopback_v6(g@)
            ||| unspecified_v6(g@)
            ||| 0xff00 <= g@[0]
        },
    }
}

/// Whether an endpoint may be the target of a hole punch.
pub open spec fn punch_target(a: SocketAddr) -> bool {
    a.port != 0 && !no_peer(a.ip)
}

/// Whether an endpoint may be the target of a hole punch: loopback,
/// unspecified, multicast and broadcast addresses and port zero are refused.
pub fn is_valid_punch_target(a: &SocketAddr) -> (r: bool)
    ensures
        r == punch_target(*a),
{
    if a.port == 0 {
        return false;
    }
    match a.ip {
        IpAddr::V4(o) => {
            let zero: bool = o[0] == 0 && o[1] == 0 && o[2] == 0 && o[3] == 0;
            let ones: bool = o[0] == 255 && o[1] == 255 && o[2] == 255 && o[3] == 255;
            assert(zero == (o@ =~= seq![0u8, 0u8, 0u8, 0u8]));
            assert(ones == (o@ =~= seq![255u8, 255u8, 255u8, 255u8]));
            !(o[0] == 127 || (o[0] >= 224 && o[0] <= 239) || zero || ones)
        },
        IpAddr::V6(g) => {
            let zero: bool = g[0] == 0 && g[1] == 0 && g[2] == 0 && g[3] == 0 && g[4] == 0 && g[5]
                == 0 && g[6] == 0;
            assert(zero && g[7] == 0 ==> unspecified_v6(g@));
            assert(zero && g[7] == 1 ==> crate::server::loopback_v6(g@));
            !((zero && g[7] <= 1) || g[0] >= 0xff00)
        },
    }
}

/// The message that tells the peer an endpoint.
pub open spec fn endpoint_message(a: SocketAddr) -> Seq<u8> {
    encode_utf8(a.text())
}

/// The message that tells the peer an endpoint.
pub fn send_endpoint(a: &SocketAddr) -> (m: Vec<u8>)
    ensures
        m@ == endpoint_message(*a),
{
    let s = a.to_text();
    s.as_str().as_bytes_vec()
}

/// Whether a result is what a message from the peer says.
pub open spec fn endpoint_read(message: Option<Seq<u8>>, r: Result<SocketAddr, TunnelError>) -> bool {
    match message {
        None => r matches Err(TunnelError::NegChannelClosed),
        Some(data) => if !valid_utf8(data) {
            r matches Err(TunnelError::ProtocolError(e)) && e@ == "invalid UTF-8 in endpoint: "@
                + outside::utf8_error(data)
        } else {
            match addr::addr_in(text::trimmed(decode_utf8(data))) {
                None => r matches Err(TunnelError::ProtocolError(e)) && e@
                    == "invalid peer address: invalid socket address syntax"@,
                Some(a) => if punch_target(a) {
                    r matches Ok(b) && b == a
                } else {
                    r matches Err(TunnelError::PunchTargetRefused(e)) && e@
                        == "refusing punch target "@ + a.text()
                },
            }
        },
    }
}

/// The endpoint that a message from the peer tells; no message means that the
/// channel is closed. An endpoint that is no target for a punch is refused.
pub fn recv_endpoint(message: Option<Vec<u8>>) -> (r: Result<SocketAddr, TunnelError>)
    ensures
        endpoint_read(
            match message {
                Some(m) => Some(m@),
                None => None,
            },
            r,
        ),
        r matches Ok(a) ==> a.wf() && punch_target(a),
{
    let data = match message {
        Some(m) => m,
        None => return Err(TunnelError::NegChannelClosed),
    };
    let line = match outside::text_of_utf8(&data) {
        Ok(s) => s,
        Err(e) => return Err(
            TunnelError::ProtocolError(
                String::from_str("invalid UTF-8 in endpoint: ").concat(e.as_str()),
            ),
        ),
    };
    let word = text::trim(&text::chars_of(line.as_str()));
    match addr::parse_addr(&word) {
        Some(a) => if is_valid_punch_target(&a) {
            Ok(a)
        } else {
            Err(
                TunnelError::PunchTargetRefused(
                    String::from_str("refusing punch target ").concat(a.to_text().as_str()),
                ),
            )
        },
        None => Err(
            TunnelError::ProtocolError(
                String::from_str("invalid peer address: invalid socket address syntax"),
            ),
        ),
    }
}

proof fn digit_is_no_space(d: nat)
    requires
        d < 10,
    ensures
        !text::is_space(text::digit_char(d)),
{
}

proof fn addr_text_is_trimmed(a: SocketAddr)
    ensures
        text::trimmed(a.text()) == a.text(),
{
    let s = a.text();
    let port = text::dec(a.port as nat);
    digit_is_no_space(a.port as nat % 10);
    assert(port.len() > 0 && port.last() == text::digit_char(a.port as nat % 10));
    assert(s.last() == port.last());
    match a.ip {
        IpAddr::V4(o) => {
            text::numeral_starts(o@[0] as nat, 10);
            let first = text::dec(o@[0] as nat);
            assert(addr::v4_text(o@)[0] == first[0]);
            assert(s[0] == first[0]);
            if text::is_space(first[0]) {
                text::numeral_has_no(o@[0] as nat, 10, first[0]);
                assert(first.contains(first[0]));
            }
        },
        IpAddr::V6(g) => {
            assert(s[0] == '[');
        },
    }
}

/// An endpoint that may be punched towards is read back as it was sent.
pub proof fn endpoint_reads_back(a: SocketAddr)
    requires
        a.wf(),
        punch_target(a),
    ensures
        endpoint_read(Some(endpoint_message(a)), Ok(a)),
{
    encode_utf8_valid_utf8(a.text());
    encode_utf8_decode_utf8(a.text());
    addr_text_is_trimmed(a);
    addr::addr_text_reads_back(a);
}

/// An endpoint that may not be punched towards is refused, however it is told.
pub proof fn bad_targets_are_refused(data: Seq<u8>, a: SocketAddr)
    requires
        valid_utf8(data),
        addr::addr_in(text::trimmed(decode_utf8(data))) == Some(a),
        !punch_target(a),
    ensures
        forall|r: Result<SocketAddr, TunnelError>|
            endpoint_read(Some(data), r) ==> r matches Err(TunnelError::PunchTargetRefused(_)),
{
}

proof fn lemma_peer_blocks(n: u32, a: u32, b: u32, c: u32, d: u32)
    by (bit_vector)
    requires
        a < 256,
        b < 256,
        c < 256,
        d < 256,
        n == a * 0x100_0000 + b * 0x1_0000 + c * 0x100 + d,
    ensures
        n & 0xff00_0000 == 0x7f00_0000 <==> a == 127,
        n & 0xf000_0000 == 0xe000_0000 <==> 224 <= a && a <= 239,
        n == 0 <==> a == 0 && b == 0 && c == 0 && d == 0,
        n == 0xffff_ffff <==> a == 255 && b == 255 && c == 255 && d == 255,
{
}

/// What a peer tells of an IPv4 address and a nonzero port is taken as it is
/// told, unless the address is in `127.0.0.0/8` or `224.0.0.0/4`, or is
/// `0.0.0.0` or `255.255.255.255`: those are refused, and so is port zero.
pub proof fn v4_peers_are_punch_targets(o: [u8; 4], port: u16)
    ensures
        ({
            let n = crate::server::v4_number(o@);
            let a = SocketAddr { ip: IpAddr::V4(o), port, scope: 0 };
            let peer = {
                &&& port != 0
                &&& n & 0xff00_0000 != 0x7f00_0000
                &&& n & 0xf000_0000 != 0xe000_0000
                &&& n != 0
                &&& n != 0xffff_ffff
            };
            &&& punch_target(a) <==> peer
            &&& endpoint_read(Some(endpoint_message(a)), Ok(a)) <==> peer
            &&& forall|r: Result<SocketAddr, TunnelError>|
                endpoint_read(Some(endpoint_message(a)), r) ==> if peer {
                    r == Ok::<SocketAddr, TunnelError>(a)
                } else {
                    r matches Err(TunnelError::PunchTargetRefused(_))
                }
        }),
{
    let a = SocketAddr { ip: IpAddr::V4(o), port, scope: 0 };
    lemma_peer_blocks(
        crate::server::v4_number(o@),
        o@[0] as u32,
        o@[1] as u32,
        o@[2] as u32,
        o@[3] as u32,
    );
    assert(o@ =~= seq![o@[0], o@[1], o@[2], o@[3]]);
    told_endpoint_is_understood(a);
}

/// What a peer tells of an IPv6 address and a nonzero port is taken as it is
/// told, unless the address is `::` or `::1` or in `ff00::/8`: those are
/// refused, and so is port zero.
pub proof fn v6_peers_are_punch_targets(g: [u16; 8], port: u16, scope: u32)
    ensures
        ({
            let a = SocketAddr { ip: IpAddr::V6(g), port, scope };
            let peer = {
                &&& port != 0
                &&& g@[0] & 0xff00 != 0xff00
                &&& g@ != seq![0u16, 0u16, 0u16, 0u16, 0u16, 0u16, 0u16, 0u16]
                &&& g@ != seq![0u16, 0u16, 0u16, 0u16, 0u16, 0u16, 0u16, 1u16]
            };
            &&& punch_target(a) <==> peer
            &&& endpoint_read(Some(endpoint_message(a)), Ok(a)) <==> peer
            &&& forall|r: Result<SocketAddr, TunnelError>|
                endpoint_read(Some(endpoint_message(a)), r) ==> if peer {
                    r == Ok::<SocketAddr, TunnelError>(a)
                } else {
                    r matches Err(TunnelError::PunchTargetRefused(_))
                }
        }),
{
    let a = SocketAddr { ip: IpAddr::V6(g), port, scope };
    let none = seq![0u16, 0u16, 0u16, 0u16, 0u16, 0u16, 0u16, 0u16];
    let one = seq![0u16, 0u16, 0u16, 0u16, 0u16, 0u16, 0u16, 1u16];
    let top = g@[0];
    assert(top & 0xff00 == 0xff00 <==> top >= 0xff00) by (bit_vector);
    if unspecified_v6(g@) {
        assert(g@ =~= none);
    }
    if g@ == none {
        assert(forall|i: int| 0 <= i < 8 ==> none[i] == 0);
        assert(unspecified_v6(g@));
    }
    if crate::server::loopback_v6(g@) {
        assert(g@ =~= one);
    }
    if g@ == one {
        assert(one[7] == 1 && forall|i: int| 0 <= i < 7 ==> one[i] == 0);
        assert(crate::server::loopback_v6(g@));
    }
    told_endpoint_is_understood(a);
}

/// What the peer tells is understood: the endpoint that is read is the one
/// that was told, whether it is then taken or refused.
pub proof fn told_endpoint_is_understood(a: SocketAddr)
    requires
        a.wf(),
    ensures
        addr::addr_in(text::trimmed(decode_utf8(endpoint_message(a)))) == Some(a),
        valid_utf8(endpoint_message(a)),
        forall|b: SocketAddr|
            b.wf() && #[trigger] endpoint_message(b) == endpoint_message(a) ==> b == a,
{
    assert forall|b: SocketAddr| b.wf() implies addr::addr_in(
        text::trimmed(decode_utf8(#[trigger] endpoint_message(b))),
    ) == Some(b) by {
        encode_utf8_valid_utf8(b.text());
        encode_utf8_decode_utf8(b.text());
        addr_text_is_trimmed(b);
        addr::addr_text_reads_back(b);
    }
    encode_utf8_valid_utf8(a.text());
}

/// An endpoint is accepted only where a message came that holds its text, white
/// space at the ends aside; without a message the channel is closed.
pub proof fn only_told_endpoints_are_accepted(
    message: Option<Seq<u8>>,
    r: Result<SocketAddr, TunnelError>,
)
    requires
        endpoint_read(message, r),
    ensures
        r matches Ok(a) ==> {
            &&& message is Some
            &&& valid_utf8(message->0)
            &&& addr::addr_in(text::trimmed(decode_utf8(message->0))) == Some(a)
            &&& a.port != 0
        },
        message is None <==> r matches Err(TunnelError::NegChannelClosed),
        message is Some && (!valid_utf8(message->0) || addr::addr_in(
            text::trimmed(decode_utf8(message->0)),
        ) is None) <==> r matches Err(TunnelError::ProtocolError(_)),
{
}

} // verus!
