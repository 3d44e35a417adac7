//! Fragments of IPv4 and IPv6 packets.

use spora_core::reassembly::{
    ipv4_header_checksum, IpReassembler, MAX_DATAGRAM_LEN, MAX_GROUPS, REASSEMBLY_TIMEOUT,
};

/// A UDP segment with `payload_len` bytes of payload.
fn udp(payload_len: usize) -> Vec<u8> {
    let mut out = Vec::new();
    out.extend_from_slice(&40000u16.to_be_bytes());
    out.extend_from_slice(&5678u16.to_be_bytes());
    out.extend_from_slice(&((8 + payload_len) as u16).to_be_bytes());
    out.extend_from_slice(&[0x12, 0x34]);
    out.extend_from_slice(&vec![0xABu8; payload_len]);
    out
}

/// An IPv4/UDP packet with `payload_len` bytes of UDP payload.
fn ipv4_udp(id: u16, payload_len: usize) -> Vec<u8> {
    let segment = udp(payload_len);
    let mut pkt = vec![0u8; 20];
    pkt[0] = 0x45;
    pkt[2..4].copy_from_slice(&((20 + segment.len()) as u16).to_be_bytes());
    pkt[4..6].copy_from_slice(&id.to_be_bytes());
    pkt[6] = 0x40; // don't fragment
    pkt[8] = 64;
    pkt[9] = 17;
    pkt[12..16].copy_from_slice(&[10, 0, 0, 2]);
    pkt[16..20].copy_from_slice(&[10, 0, 0, 1]);
    let c = ipv4_header_checksum(&pkt[..20]);
    pkt[10..12].copy_from_slice(&c.to_be_bytes());
    pkt.extend_from_slice(&segment);
    pkt
}

/// What a packet is reassembled to: itself with the fragment word cleared and
/// the checksum computed anew.
fn normalize(pkt: &[u8]) -> Vec<u8> {
    let ihl = ((pkt[0] & 0x0f) as usize) * 4;
    let mut out = pkt.to_vec();
    out[6] = 0;
    out[7] = 0;
    out[10] = 0;
    out[11] = 0;
    let c = ipv4_header_checksum(&out[..ihl]);
    out[10..12].copy_from_slice(&c.to_be_bytes());
    out
}

/// The fragments of an IPv4 packet, with at most `max_data` bytes each.
fn fragment(pkt: &[u8], max_data: usize) -> Vec<Vec<u8>> {
    let ihl = ((pkt[0] & 0x0f) as usize) * 4;
    let header = &pkt[..ihl];
    let payload = &pkt[ihl..];
    let max_data = max_data & !7;
    let mut frags = Vec::new();
    let mut off = 0;
    while off < payload.len() {
        let end = (off + max_data).min(payload.len());
        let is_last = end >= payload.len();
        let mut f = Vec::new();
        f.extend_from_slice(header);
        f.extend_from_slice(&payload[off..end]);
        let total = (ihl + (end - off)) as u16;
        f[2..4].copy_from_slice(&total.to_be_bytes());
        let mut flags_frag = ((off / 8) as u16) & 0x1fff;
        if !is_last {
            flags_frag |= 0x2000;
        }
        f[6..8].copy_from_slice(&flags_frag.to_be_bytes());
        f[10] = 0;
        f[11] = 0;
        let c = ipv4_header_checksum(&f[..ihl]);
        f[10..12].copy_from_slice(&c.to_be_bytes());
        frags.push(f);
        off = end;
    }
    frags
}

#[test]
fn unfragmented_passes_through_untouched() {
    let mut r = IpReassembler::new();
    let pkt = ipv4_udp(1, 100);
    let out = r.process(pkt.clone(), 0);
    assert_eq!(out, vec![pkt]);
}

#[test]
fn non_ipv4_passes_through() {
    let mut r = IpReassembler::new();
    let v6 = vec![0x60u8; 80];
    assert_eq!(r.process(v6.clone(), 0), vec![v6]);
    let tiny = vec![0x45u8, 0x00];
    assert_eq!(r.process(tiny.clone(), 0), vec![tiny]);
}

#[test]
fn reassembles_in_order() {
    let mut r = IpReassembler::new();
    let now = 0;
    let pkt = ipv4_udp(7, 2000);
    let frags = fragment(&pkt, 1400);
    assert!(frags.len() >= 2);

    let mut out = Vec::new();
    for f in &frags {
        out.extend(r.process(f.clone(), now));
    }
    assert_eq!(out.len(), 1, "exactly one reassembled packet");
    assert_eq!(out[0], normalize(&pkt), "reassembles to the original (DF cleared)");
}

#[test]
fn reassembles_out_of_order_and_with_a_duplicate() {
    let mut r = IpReassembler::new();
    let now = 0;
    let pkt = ipv4_udp(9, 3000);
    let mut frags = fragment(&pkt, 800);
    assert!(frags.len() >= 3);
    frags.reverse();
    let dup = frags[1].clone();
    frags.insert(0, dup);

    let mut out = Vec::new();
    for f in &frags {
        out.extend(r.process(f.clone(), now));
    }
    assert_eq!(out.len(), 1);
    assert_eq!(out[0], normalize(&pkt));
}

#[test]
fn interleaved_datagrams_reassemble_independently() {
    let mut r = IpReassembler::new();
    let now = 0;
    let a = ipv4_udp(11, 2000);
    let b = ipv4_udp(22, 2500);
    let fa = fragment(&a, 1000);
    let fb = fragment(&b, 1000);

    let mut out = Vec::new();
    for i in 0..fa.len().max(fb.len()) {
        if let Some(f) = fa.get(i) {
            out.extend(r.process(f.clone(), now));
        }
        if let Some(f) = fb.get(i) {
            out.extend(r.process(f.clone(), now));
        }
    }
    assert_eq!(out.len(), 2);
    assert!(out.contains(&normalize(&a)));
    assert!(out.contains(&normalize(&b)));
}

#[test]
fn incomplete_group_is_evicted_after_timeout() {
    let mut r = IpReassembler::new();
    let t0 = 0;
    let pkt = ipv4_udp(31, 2000);
    let frags = fragment(&pkt, 800);
    for f in &frags[..frags.len() - 1] {
        assert!(r.process(f.clone(), t0).is_empty());
    }
    assert_eq!(r.pending(), 1);
    let unrelated = ipv4_udp(32, 50);
    r.process(unrelated, t0 + REASSEMBLY_TIMEOUT + 1000);
    assert_eq!(r.pending(), 0, "stale group evicted");
}

/// A raw IPv4/UDP fragment at a byte offset, never the last one.
fn raw_frag(id: u16, offset_bytes: usize, payload_len: usize) -> Vec<u8> {
    let mut f = vec![0u8; 20 + payload_len];
    f[0] = 0x45;
    let total = (20 + payload_len) as u16;
    f[2..4].copy_from_slice(&total.to_be_bytes());
    f[4..6].copy_from_slice(&id.to_be_bytes());
    let ff = (((offset_bytes / 8) as u16) & 0x1fff) | 0x2000;
    f[6..8].copy_from_slice(&ff.to_be_bytes());
    f[8] = 64;
    f[9] = 17;
    f[12..16].copy_from_slice(&[10, 0, 0, 2]);
    f[16..20].copy_from_slice(&[10, 0, 0, 1]);
    let c = ipv4_header_checksum(&f[..20]);
    f[10..12].copy_from_slice(&c.to_be_bytes());
    f
}

#[test]
fn overlapping_fragments_are_byte_bounded() {
    let mut r = IpReassembler::new();
    let now = 0;
    let payload_len = 1304;
    for unit in 0..2000u16 {
        let off = (unit as usize) * 8;
        if off + payload_len > MAX_DATAGRAM_LEN {
            break;
        }
        r.process(raw_frag(7, off, payload_len), now);
    }
    assert_eq!(r.pending(), 1, "one in-flight group");
    let stored = r.stored_bytes(0);
    assert!(
        stored <= MAX_DATAGRAM_LEN,
        "per-group stored bytes must be bounded, got {}",
        stored
    );
    let pkt = ipv4_udp(99, 4000);
    let frags = fragment(&pkt, 1000);
    let mut out = Vec::new();
    for fr in &frags {
        out.extend(r.process(fr.clone(), now));
    }
    assert_eq!(out, vec![normalize(&pkt)]);
}

/// An IPv6/UDP packet with `payload_len` bytes of UDP payload.
fn ipv6_udp(payload_len: usize) -> Vec<u8> {
    let src: [u16; 8] = [0xfd00, 0x200, 0, 0, 0, 0, 0, 2];
    let dst: [u16; 8] = [0x2001, 0xdb8, 0, 0, 0, 0, 0, 1];
    let segment = udp(payload_len);
    let mut pkt = vec![0x60u8, 0, 0, 0];
    pkt.extend_from_slice(&(segment.len() as u16).to_be_bytes());
    pkt.push(17);
    pkt.push(64);
    for g in src.iter().chain(dst.iter()) {
        pkt.extend_from_slice(&g.to_be_bytes());
    }
    pkt.extend_from_slice(&segment);
    pkt
}

/// The fragments of an IPv6 packet, with at most `max_data` bytes each.
fn fragment_v6(pkt: &[u8], max_data: usize, id: u32) -> Vec<Vec<u8>> {
    let next_header = pkt[6];
    let payload = &pkt[40..];
    let max_data = max_data & !7;
    let mut frags = Vec::new();
    let mut off = 0;
    while off < payload.len() {
        let end = (off + max_data).min(payload.len());
        let is_last = end >= payload.len();
        let mut f = pkt[..40].to_vec();
        f[6] = 44;
        f[4..6].copy_from_slice(&((8 + end - off) as u16).to_be_bytes());
        f.push(next_header);
        f.push(0);
        let off_flags = (((off / 8) as u16) << 3) | u16::from(!is_last);
        f.extend_from_slice(&off_flags.to_be_bytes());
        f.extend_from_slice(&id.to_be_bytes());
        f.extend_from_slice(&payload[off..end]);
        frags.push(f);
        off = end;
    }
    frags
}

#[test]
fn ipv6_non_fragment_passes_through() {
    let mut r = IpReassembler::new();
    let pkt = ipv6_udp(100);
    assert_eq!(r.process(pkt.clone(), 0), vec![pkt]);
}

#[test]
fn reassembles_ipv6_fragments_out_of_order() {
    let mut r = IpReassembler::new();
    let now = 0;
    let pkt = ipv6_udp(3000);
    let mut frags = fragment_v6(&pkt, 1024, 0xDEAD_BEEF);
    assert!(frags.len() >= 3);
    frags.reverse();

    let mut out = Vec::new();
    for f in &frags {
        out.extend(r.process(f.clone(), now));
    }
    assert_eq!(out, vec![pkt]);
}

#[test]
fn interleaved_v4_and_v6_trains_reassemble_independently() {
    let mut r = IpReassembler::new();
    let now = 0;
    let a = ipv4_udp(11, 2000);
    let b = ipv6_udp(2500);
    let fa = fragment(&a, 1000);
    let fb = fragment_v6(&b, 1000, 7);

    let mut out = Vec::new();
    for i in 0..fa.len().max(fb.len()) {
        if let Some(f) = fa.get(i) {
            out.extend(r.process(f.clone(), now));
        }
        if let Some(f) = fb.get(i) {
            out.extend(r.process(f.clone(), now));
        }
    }
    assert_eq!(out.len(), 2);
    assert!(out.contains(&normalize(&a)));
    assert!(out.contains(&b));
}

#[test]
fn ipv6_fragments_with_distinct_ids_do_not_mix() {
    let mut r = IpReassembler::new();
    let now = 0;
    let pkt = ipv6_udp(2000);
    let fa = fragment_v6(&pkt, 1024, 1);
    let fb = fragment_v6(&pkt, 1024, 2);
    assert!(r.process(fa[0].clone(), now).is_empty());
    let mut out = Vec::new();
    for f in &fb {
        out.extend(r.process(f.clone(), now));
    }
    assert_eq!(out, vec![pkt]);
    assert_eq!(r.pending(), 1, "train A still pending under its own id");
}

#[test]
fn truncated_ipv6_fragment_header_passes_through() {
    let mut r = IpReassembler::new();
    let mut junk = vec![0x60u8; 44];
    junk[6] = 44;
    assert_eq!(r.process(junk.clone(), 0), vec![junk]);
}

#[test]
fn group_cap_is_enforced() {
    let mut r = IpReassembler::new();
    let now = 0;
    for id in 0..(MAX_GROUPS as u16 + 50) {
        let pkt = ipv4_udp(id.max(1), 2000);
        let frags = fragment(&pkt, 800);
        r.process(frags[0].clone(), now);
    }
    assert!(r.pending() <= MAX_GROUPS, "group count is bounded");
}

#[test]
fn checksum_of_a_known_header() {
    let header = [
        0x45, 0x00, 0x00, 0x73, 0x00, 0x00, 0x40, 0x00, 0x40, 0x11, 0x00, 0x00, 0xc0, 0xa8, 0x00,
        0x01, 0xc0, 0xa8, 0x00, 0xc7,
    ];
    assert_eq!(ipv4_header_checksum(&header), 0xb861);
}

#[test]
fn a_piece_past_the_end_does_not_keep_a_datagram_back() {
    let mut last = raw_frag(5, 0, 8);
    // The same fragment as the last one of a datagram of eight bytes cannot be
    // told from a whole packet, so the length comes from an empty one behind it.
    let mut end = raw_frag(5, 8, 0);
    end[6..8].copy_from_slice(&1u16.to_be_bytes());
    last[20..28].copy_from_slice(&[1, 2, 3, 4, 5, 6, 7, 8]);
    let mut r = IpReassembler::new();
    assert!(r.process(raw_frag(5, 24, 8), 0).is_empty());
    assert!(r.process(end, 0).is_empty());
    let out = r.process(last.clone(), 0);
    assert_eq!(out.len(), 1);
    assert_eq!(out[0].len(), 28);
    assert_eq!(out[0][20..], [1, 2, 3, 4, 5, 6, 7, 8]);
    assert_eq!(r.pending(), 0);
}

#[test]
fn a_gap_before_the_end_keeps_a_datagram_back() {
    let mut end = raw_frag(6, 24, 8);
    end[6..8].copy_from_slice(&3u16.to_be_bytes());
    let mut r = IpReassembler::new();
    assert!(r.process(raw_frag(6, 0, 8), 0).is_empty());
    assert!(r.process(end, 0).is_empty());
    assert!(r.process(raw_frag(6, 8, 8), 0).is_empty());
    let out = r.process(raw_frag(6, 16, 8), 0);
    assert_eq!(out.len(), 1);
    assert_eq!(out[0].len(), 20 + 32);
}

#[test]
fn interleaved_trains_give_what_each_gives_alone() {
    let one = ipv4_udp(41, 3000);
    let two = ipv4_udp(42, 2500);
    let (f1, f2) = (fragment(&one, 800), fragment(&two, 800));
    let alone = |frags: &[Vec<u8>]| {
        let mut r = IpReassembler::new();
        frags.iter().flat_map(|f| r.process(f.clone(), 7)).collect::<Vec<_>>()
    };
    let mut r = IpReassembler::new();
    let mut out = Vec::new();
    for i in 0..f1.len().max(f2.len()) {
        for f in [f2.get(i), f1.get(i)].into_iter().flatten() {
            out.extend(r.process(f.clone(), i as u64 * 1000));
        }
    }
    assert_eq!(out.len(), 2);
    assert!(out.contains(&alone(&f1)[0]) && out.contains(&alone(&f2)[0]));
}

#[test]
fn a_last_piece_that_comes_too_late_starts_anew() {
    let pkt = ipv4_udp(33, 2000);
    let frags = fragment(&pkt, 800);
    let mut r = IpReassembler::new();
    assert!(r.process(frags[0].clone(), 0).is_empty());
    // A later fragment does not put off when the group is due.
    assert!(r.process(frags[1].clone(), REASSEMBLY_TIMEOUT - 1).is_empty());
    assert!(r.process(frags[2].clone(), REASSEMBLY_TIMEOUT).is_empty());
    assert_eq!(r.pending(), 1, "a new group");
    assert!(r.process(frags[0].clone(), REASSEMBLY_TIMEOUT).is_empty());
    assert_eq!(r.process(frags[1].clone(), REASSEMBLY_TIMEOUT), vec![normalize(&pkt)]);
}
