//! IP fragment reassembly in front of a netstack that reads every packet in
//! isolation.
//!
//! [`IpReassembler`] rebuilds whole datagrams from IPv4 fragments and from
//! IPv6 fragments that carry the Fragment header first. Unfragmented and
//! non-IP packets pass through. Incomplete groups leave by age, and a hard cap
//! on their number and on the bytes of each bounds the memory that a peer can
//! occupy with fragments that never complete.

use vstd::prelude::*;
use crate::bytes;

verus! {

/// A group that is not complete this many milliseconds after its first
/// fragment is dropped.
pub const REASSEMBLY_TIMEOUT: u64 = 5000;

/// The most groups that are tracked at once.
pub const MAX_GROUPS: usize = 256;

/// The longest payload, in bytes, that an IP length field can state.
pub const MAX_DATAGRAM_LEN: usize = 65535;

/// What the fragments of one datagram have in common.
pub enum Flow {
    V4 { src: Seq<u8>, dst: Seq<u8>, proto: u8, id: nat },
    V6 { src: Seq<u8>, dst: Seq<u8>, id: nat },
}

/// A run of payload bytes and the offset at which it starts.
pub struct Piece {
    pub offset: nat,
    pub data: Seq<u8>,
}

/// A datagram of which some fragments have come: its header (empty until the
/// fragment at offset zero is there), its pieces by ascending offset, its
/// length once the last fragment is there, and when it is given up.
#[verifier::ext_equal]
pub struct Group {
    pub flow: Flow,
    pub header: Seq<u8>,
    pub pieces: Seq<Piece>,
    pub total: Option<nat>,
    pub deadline: nat,
}

/// One fragment, read from its packet.
#[verifier::ext_equal]
pub struct Fragment {
    pub flow: Flow,
    pub header: Seq<u8>,
    pub offset: nat,
    pub more: bool,
    pub data: Seq<u8>,
}

/// The header length that an IPv4 packet states, in bytes.
pub open spec fn ihl(pkt: Seq<u8>) -> nat {
    ((pkt[0] % 16) * 4) as nat
}

/// The fragment that a packet is, or `None` for a packet that is whole or is
/// not one that this module understands.
pub open spec fn fragment_of(pkt: Seq<u8>) -> Option<Fragment> {
    if pkt.len() >= 20 && pkt[0] / 16 == 4 {
        let word = bytes::be16(pkt[6], pkt[7]);
        let more = word / 8192 % 2 == 1;
        let offset = word % 8192 * 8;
        if ihl(pkt) < 20 || pkt.len() < ihl(pkt) || (!more && offset == 0) {
            None
        } else {
            Some(
                Fragment {
                    flow: Flow::V4 {
                        src: pkt.subrange(12, 16),
                        dst: pkt.subrange(16, 20),
                        proto: pkt[9],
                        id: bytes::be16(pkt[4], pkt[5]),
                    },
                    header: pkt.take(ihl(pkt) as int),
                    offset,
                    more,
                    data: pkt.skip(ihl(pkt) as int),
                },
            )
        }
    } else if pkt.len() >= 48 && pkt[0] / 16 == 6 && pkt[6] == 44 {
        let word = bytes::be16(pkt[42], pkt[43]);
        Some(
            Fragment {
                flow: Flow::V6 {
                    src: pkt.subrange(8, 24),
                    dst: pkt.subrange(24, 40),
                    id: bytes::be32(pkt[44], pkt[45], pkt[46], pkt[47]),
                },
                header: pkt.take(40).update(6, pkt[40]),
                offset: word / 8 * 8,
                more: word % 2 == 1,
                data: pkt.skip(48),
            },
        )
    } else {
        None
    }
}

/// Whether some piece holds the payload byte at `p`.
pub open spec fn covered(pieces: Seq<Piece>, p: int) -> bool {
    exists|i: int|
        0 <= i < pieces.len() && (#[trigger] pieces[i]).offset <= p < pieces[i].offset
            + pieces[i].data.len()
}

/// Whether no payload byte before `end` is missing.
pub open spec fn filled_to(pieces: Seq<Piece>, end: int) -> bool {
    forall|p: int| 0 <= p < end ==> #[trigger] covered(pieces, p)
}

/// Whether a group can be assembled: its header and its length are known, and no
/// byte of the payload is missing. Pieces that repeat a byte, or that lie past
/// the payload's end, do not matter.
pub open spec fn complete(g: Group) -> bool {
    &&& g.header.len() > 0
    &&& g.total is Some
    &&& filled_to(g.pieces, g.total->0 as int)
}

/// The payload byte at `p`: where pieces overlap, the one that starts last.
pub open spec fn byte_at(pieces: Seq<Piece>, p: int) -> u8
    decreases pieces.len(),
{
    if pieces.len() == 0 {
        0
    } else if pieces.last().offset <= p < pieces.last().offset + pieces.last().data.len() {
        pieces.last().data[p - pieces.last().offset]
    } else {
        byte_at(pieces.drop_last(), p)
    }
}

/// The sum of a byte string read as big-endian 16-bit words; a byte that is
/// left over is the high byte of a last word.
pub open spec fn word_sum(b: Seq<u8>) -> nat
    decreases b.len(),
{
    if b.len() == 0 {
        0
    } else if b.len() % 2 == 1 {
        word_sum(b.drop_last()) + b.last() as nat * 256
    } else {
        word_sum(b.drop_last().drop_last()) + bytes::be16(b[b.len() - 2], b.last())
    }
}

/// A sum reduced to 16 bits by adding what overflows back in.
pub open spec fn folded(sum: nat) -> nat {
    if sum == 0 {
        0
    } else {
        ((sum - 1) % 65535 + 1) as nat
    }
}

/// The ones' complement of the ones' complement sum of a header's words.
pub open spec fn checksum(header: Seq<u8>) -> nat {
    (65535 - folded(word_sum(header))) as nat
}

/// Overwrites two bytes of `b` at `i` with `n`, high byte first.
pub open spec fn put16(b: Seq<u8>, i: int, n: nat) -> Seq<u8> {
    b.update(i, bytes::be16_bytes(n)[0]).update(i + 1, bytes::be16_bytes(n)[1])
}

/// The header of a rebuilt datagram with `total` bytes of payload. An IPv6
/// header gets its payload length. An IPv4 header gets its total length, loses
/// its fragment word, and gets a fresh checksum.
pub open spec fn rebuilt_header(header: Seq<u8>, total: nat) -> Seq<u8> {
    if header[0] / 16 == 6 {
        put16(header, 4, total)
    } else {
        let bare = put16(
            put16(put16(header, 2, header.len() + total), 6, 0),
            10,
            0,
        );
        put16(bare, 10, checksum(bare))
    }
}

/// The datagram that a complete group stands for.
pub open spec fn assembled(g: Group) -> Seq<u8> {
    rebuilt_header(g.header, g.total->0) + Seq::new(g.total->0, |p: int| byte_at(g.pieces, p))
}

/// The number of payload bytes that a group stores.
pub open spec fn stored(pieces: Seq<Piece>) -> nat
    decreases pieces.len(),
{
    if pieces.len() == 0 {
        0
    } else {
        stored(pieces.drop_last()) + pieces.last().data.len()
    }
}

/// The number of pieces that start before `offset`.
pub open spec fn pieces_before(pieces: Seq<Piece>, offset: nat) -> nat
    decreases pieces.len(),
{
    if pieces.len() == 0 {
        0
    } else if pieces.last().offset < offset {
        pieces.len()
    } else {
        pieces_before(pieces.drop_last(), offset)
    }
}

/// Whether a piece starts at `offset`.
pub open spec fn starts_at(pieces: Seq<Piece>, offset: nat) -> bool {
    exists|i: int| 0 <= i < pieces.len() && (#[trigger] pieces[i]).offset == offset
}

/// Whether a group has no room for a fragment's data: it starts where no piece
/// does, and the group would store more than a datagram can hold.
pub open spec fn overfull(g: Group, f: Fragment) -> bool {
    !starts_at(g.pieces, f.offset) && stored(g.pieces) + f.data.len() > MAX_DATAGRAM_LEN
}

/// A group after one more fragment. Its header comes from the fragment at
/// offset zero, its length from the last one. The data is kept unless a piece
/// starts there already or the group has no room.
pub open spec fn absorbed(g: Group, f: Fragment) -> Group {
    Group {
        header: if f.offset == 0 {
            f.header
        } else {
            g.header
        },
        total: if !f.more {
            Some((f.offset + f.data.len()) as nat)
        } else {
            g.total
        },
        pieces: if starts_at(g.pieces, f.offset) || overfull(g, f) {
            g.pieces
        } else {
            g.pieces.insert(
                pieces_before(g.pieces, f.offset) as int,
                Piece { offset: f.offset, data: f.data },
            )
        },
        ..g
    }
}

/// The group that a fragment opens.
pub open spec fn opened(flow: Flow, now: nat) -> Group {
    Group {
        flow,
        header: Seq::empty(),
        pieces: Seq::empty(),
        total: None,
        deadline: now + REASSEMBLY_TIMEOUT as nat,
    }
}

/// The groups whose deadline is still ahead.
pub open spec fn alive(gs: Seq<Group>, now: nat) -> Seq<Group> {
    gs.filter(|g: Group| g.deadline > now)
}

/// The first place at or after `from` of a group of `flow`, or the length.
pub open spec fn place_of(gs: Seq<Group>, flow: Flow, from: int) -> int
    decreases gs.len() - from,
{
    if from >= gs.len() {
        gs.len() as int
    } else if gs[from].flow == flow {
        from
    } else {
        place_of(gs, flow, from + 1)
    }
}

/// The place of the first group with the earliest deadline.
pub open spec fn oldest(gs: Seq<Group>) -> int
    decreases gs.len(),
{
    if gs.len() <= 1 {
        0
    } else if gs.last().deadline < gs[oldest(gs.drop_last())].deadline {
        gs.len() - 1
    } else {
        oldest(gs.drop_last())
    }
}

/// The groups with one of `flow` among them: where there is none, a fresh one
/// stands last, and where the cap is reached the oldest has made room for it.
pub open spec fn with_group(gs: Seq<Group>, flow: Flow, now: nat) -> Seq<Group> {
    if place_of(gs, flow, 0) < gs.len() {
        gs
    } else if gs.len() >= MAX_GROUPS {
        gs.remove(oldest(gs)).push(opened(flow, now))
    } else {
        gs.push(opened(flow, now))
    }
}

/// One packet: the groups afterwards, and what is handed on.
pub open spec fn processed(gs: Seq<Group>, pkt: Seq<u8>, now: nat) -> (
    Seq<Group>,
    Seq<Seq<u8>>,
) {
    let live = alive(gs, now);
    match fragment_of(pkt) {
        None => (live, seq![pkt]),
        Some(f) => if f.offset + f.data.len() > MAX_DATAGRAM_LEN {
            (live, Seq::empty())
        } else {
            let all = with_group(live, f.flow, now);
            let at = place_of(all, f.flow, 0);
            let g = absorbed(all[at], f);
            if overfull(all[at], f) || !complete(g) {
                (all.update(at, g), Seq::empty())
            } else {
                (all.remove(at), seq![assembled(g)])
            }
        },
    }
}

/// Whether a group is one that fragments of its flow can have built.
pub open spec fn group_ok(g: Group) -> bool {
    &&& g.header.len() == 0 || match g.flow {
        Flow::V4 { .. } => 20 <= g.header.len() <= 60 && g.header[0] / 16 == 4,
        Flow::V6 { .. } => g.header.len() == 40 && g.header[0] / 16 == 6,
    }
    &&& stored(g.pieces) <= MAX_DATAGRAM_LEN
    &&& g.total is Some ==> g.total->0 <= MAX_DATAGRAM_LEN
    &&& forall|i: int|
        0 <= i < g.pieces.len() ==> (#[trigger] g.pieces[i]).offset + g.pieces[i].data.len()
            <= MAX_DATAGRAM_LEN
    &&& forall|i: int, j: int|
        0 <= i < j < g.pieces.len() ==> (#[trigger] g.pieces[i]).offset < (#[trigger] g.pieces[j]).offset
}

/// What every reassembler keeps: at most [`MAX_GROUPS`] groups, one for each
/// flow, none storing more than [`MAX_DATAGRAM_LEN`] bytes.
pub open spec fn groups_ok(gs: Seq<Group>) -> bool {
    &&& gs.len() <= MAX_GROUPS
    &&& forall|i: int| 0 <= i < gs.len() ==> group_ok(#[trigger] gs[i])
    &&& forall|i: int, j: int|
        0 <= i < j < gs.len() ==> (#[trigger] gs[i]).flow != (#[trigger] gs[j]).flow
}

#[allow(inconsistent_fields)]
enum FragKey {
    V4 { src: Vec<u8>, dst: Vec<u8>, proto: u8, id: u16 },
    V6 { src: Vec<u8>, dst: Vec<u8>, id: u32 },
}

impl FragKey {
    spec fn view(&self) -> Flow {
        match self {
            FragKey::V4 { src, dst, proto, id } => Flow::V4 {
                src: src@,
                dst: dst@,
                proto: *proto,
                id: *id as nat,
            },
            FragKey::V6 { src, dst, id } => Flow::V6 { src: src@, dst: dst@, id: *id as nat },
        }
    }

    fn copy(&self) -> (k: FragKey)
        ensures
            k@ == self@,
    {
        match self {
            FragKey::V4 { src, dst, proto, id } => FragKey::V4 {
                src: bytes::copy_bytes(src),
                dst: bytes::copy_bytes(dst),
                proto: *proto,
                id: *id,
            },
            FragKey::V6 { src, dst, id } => FragKey::V6 {
                src: bytes::copy_bytes(src),
                dst: bytes::copy_bytes(dst),
                id: *id,
            },
        }
    }

    fn same(&self, other: &FragKey) -> (r: bool)
        ensures
            r == (self@ == other@),
    {
        match (self, other) {
            (
                FragKey::V4 { src, dst, proto, id },
                FragKey::V4 { src: src2, dst: dst2, proto: proto2, id: id2 },
            ) => *proto == *proto2 && *id == *id2 && bytes::same_bytes(src, src2)
                && bytes::same_bytes(dst, dst2),
            (FragKey::V6 { src, dst, id }, FragKey::V6 { src: src2, dst: dst2, id: id2 }) => *id
                == *id2 && bytes::same_bytes(src, src2) && bytes::same_bytes(dst, dst2),
            _ => false,
        }
    }
}

struct Chunk {
    offset: usize,
    data: Vec<u8>,
}

impl Chunk {
    spec fn view(&self) -> Piece {
        Piece { offset: self.offset as nat, data: self.data@ }
    }
}

struct FragGroup {
    key: FragKey,
    header: Vec<u8>,
    chunks: Vec<Chunk>,
    stored_bytes: usize,
    total_len: Option<usize>,
    deadline: u64,
}

spec fn pieces_of(chunks: Seq<Chunk>) -> Seq<Piece> {
    Seq::new(chunks.len(), |i: int| chunks[i]@)
}

impl FragGroup {
    spec fn view(&self) -> Group {
        Group {
            flow: self.key@,
            header: self.header@,
            pieces: pieces_of(self.chunks@),
            total: match self.total_len {
                Some(t) => Some(t as nat),
                None => None,
            },
            deadline: self.deadline as nat,
        }
    }

    spec fn wf(&self) -> bool {
        group_ok(self@) && self.stored_bytes == stored(self@.pieces)
    }
}

fn set16(b: &mut Vec<u8>, i: usize, n: u16)
    requires
        i + 1 < old(b).len(),
    ensures
        final(b)@ == put16(old(b)@, i as int, n as nat),
{
    b.set(i, (n / 256) as u8);
    b.set(i + 1, (n % 256) as u8);
}

proof fn lemma_word_sum_bound(b: Seq<u8>)
    ensures
        word_sum(b) <= (b.len() + 1) / 2 * 65535,
    decreases b.len(),
{
    if b.len() == 0 {
    } else if b.len() % 2 == 1 {
        lemma_word_sum_bound(b.drop_last());
    } else {
        lemma_word_sum_bound(b.drop_last().drop_last());
    }
}

/// The IPv4 header checksum of `header`.
pub fn ipv4_header_checksum(header: &[u8]) -> (sum: u16)
    requires
        header.len() <= 131072,
    ensures
        sum == checksum(header@),
{
    let mut sum: u32 = 0;
    let mut i: usize = 0;
    while i + 1 < header.len()
        invariant
            i <= header.len() <= 131072,
            i % 2 == 0,
            sum == word_sum(header@.take(i as int)),
            sum <= i / 2 * 65535,
        decreases header.len() - i,
    {
        let ghost next = header@.take(i + 2);
        assert(next.drop_last().drop_last() == header@.take(i as int));
        sum = sum + bytes::u16_of(header[i], header[i + 1]) as u32;
        i = i + 2;
    }
    if i < header.len() {
        assert(header@.drop_last() == header@.take(i as int));
        sum = sum + header[i] as u32 * 256;
    } else {
        assert(header@ == header@.take(i as int));
    }
    let ghost total = sum;
    while sum / 65536 != 0
        invariant
            folded(sum as nat) == folded(total as nat),
        decreases sum,
    {
        let high: u32 = sum / 65536;
        assert(sum % 65536 + high == sum - 65535 * high);
        sum = sum % 65536 + high;
    }
    (65535 - sum) as u16
}

impl FragGroup {
    fn new(key: FragKey, now: u64) -> (g: FragGroup)
        requires
            now + REASSEMBLY_TIMEOUT <= u64::MAX,
        ensures
            g@ == opened(key@, now as nat),
            g.wf(),
    {
        let g = FragGroup {
            key,
            header: Vec::new(),
            chunks: Vec::new(),
            stored_bytes: 0,
            total_len: None,
            deadline: now + REASSEMBLY_TIMEOUT,
        };
        assert(g@.pieces == Seq::<Piece>::empty());
        g
    }

    fn complete(&self) -> (r: bool)
        requires
            self.wf(),
        ensures
            r == complete(self@),
    {
        let ghost ps = self@.pieces;
        let total: usize = match self.total_len {
            Some(t) => t,
            None => return false,
        };
        if self.header.len() == 0 {
            return false;
        }
        let mut covered_end: usize = 0;
        let mut i: usize = 0;
        while i < self.chunks.len()
            invariant
                self.wf(),
                ps == self@.pieces,
                self.header@.len() > 0,
                self.total_len == Some(total),
                i <= self.chunks.len(),
                covered_end <= MAX_DATAGRAM_LEN,
                filled_to(ps, covered_end as int),
                forall|j: int|
                    0 <= j < i ==> (#[trigger] ps[j]).offset + ps[j].data.len() <= covered_end,
            decreases self.chunks.len() - i,
        {
            let off: usize = self.chunks[i].offset;
            assert(ps[i as int].offset == off);
            if off > covered_end {
                assert(!covered(ps, covered_end as int)) by {
                    if covered(ps, covered_end as int) {
                        let k = choose|k: int|
                            0 <= k < ps.len() && (#[trigger] ps[k]).offset <= covered_end < ps[k].offset
                                + ps[k].data.len();
                        assert(k >= i);
                        assert(k == i || ps[i as int].offset < ps[k].offset);
                    }
                }
                return covered_end >= total;
            }
            let end: usize = off + self.chunks[i].data.len();
            if end > covered_end {
                assert forall|p: int| 0 <= p < end implies #[trigger] covered(ps, p) by {
                    if p >= covered_end {
                        assert(ps[i as int].offset <= p < ps[i as int].offset
                            + ps[i as int].data.len());
                    }
                }
                covered_end = end;
            }
            i = i + 1;
        }
        proof {
            if covered_end < total {
                assert(!covered(ps, covered_end as int));
            }
        }
        covered_end >= total
    }

    fn assemble(&self) -> (out: Vec<u8>)
        requires
            self.wf(),
            complete(self@),
        ensures
            out@ == assembled(self@),
    {
        let ghost ps = self@.pieces;
        let total: usize = match self.total_len {
            Some(t) => t,
            None => 0,
        };
        let mut payload: Vec<u8> = Vec::new();
        while payload.len() < total
            invariant
                payload.len() <= total,
                forall|p: int| 0 <= p < payload.len() ==> payload@[p] == 0,
            decreases total - payload.len(),
        {
            payload.push(0);
        }
        let mut i: usize = 0;
        assert(ps.take(0).len() == 0);
        while i < self.chunks.len()
            invariant
                self.wf(),
                ps == self@.pieces,
                i <= self.chunks.len(),
                payload.len() == total,
                forall|p: int| 0 <= p < total ==> payload@[p] == byte_at(ps.take(i as int), p),
            decreases self.chunks.len() - i,
        {
            let off: usize = self.chunks[i].offset;
            assert(ps[i as int].offset == off && ps[i as int].data == self.chunks[i as int].data@);
            assert(ps.take(i + 1).drop_last() == ps.take(i as int));
            assert(ps.take(i + 1).last() == ps[i as int]);
            let ghost before = payload@;
            let mut j: usize = 0;
            while j < self.chunks[i].data.len() && off + j < total
                invariant
                    self.wf(),
                    ps == self@.pieces,
                    i < self.chunks.len(),
                    off == self.chunks[i as int].offset,
                    off + self.chunks[i as int].data.len() <= MAX_DATAGRAM_LEN,
                    j <= self.chunks[i as int].data.len(),
                    payload.len() == total,
                    before.len() == total,
                    forall|p: int|
                        0 <= p < total ==> payload@[p] == if off <= p < off + j {
                            self.chunks[i as int].data@[p - off]
                        } else {
                            before[p]
                        },
                decreases self.chunks[i as int].data.len() - j,
            {
                payload.set(off + j, self.chunks[i].data[j]);
                j = j + 1;
            }
            i = i + 1;
        }
        assert(ps.take(i as int) == ps);
        let mut out: Vec<u8> = rebuild_header(&self.header, total);
        bytes::push_bytes(&mut out, &payload);
        assert(out@ =~= assembled(self@));
        out
    }
}

/// The header of a datagram that was put together, with `total` bytes of
/// payload.
fn rebuild_header(header: &Vec<u8>, total: usize) -> (out: Vec<u8>)
    requires
        20 <= header@.len() <= 60,
        total <= MAX_DATAGRAM_LEN,
    ensures
        out@ == rebuilt_header(header@, total as nat),
{
    let hdr_len: usize = header.len();
    let mut out: Vec<u8> = bytes::copy_bytes(header);
    if out[0] / 16 == 6 {
        set16(&mut out, 4, total as u16);
    } else {
        set16(&mut out, 2, ((hdr_len + total) % 65536) as u16);
        set16(&mut out, 6, 0);
        set16(&mut out, 10, 0);
        let sum: u16 = ipv4_header_checksum(&out);
        set16(&mut out, 10, sum);
    }
    out
}

struct FragPacket {
    key: FragKey,
    header: Vec<u8>,
    offset: usize,
    more: bool,
    data: Vec<u8>,
}

impl FragPacket {
    spec fn view(&self) -> Fragment {
        Fragment {
            flow: self.key@,
            header: self.header@,
            offset: self.offset as nat,
            more: self.more,
            data: self.data@,
        }
    }
}

fn read_fragment(pkt: &Vec<u8>) -> (r: Option<FragPacket>)
    ensures
        match r {
            Some(f) => fragment_of(pkt@) == Some(f@) && f.offset <= MAX_DATAGRAM_LEN,
            None => fragment_of(pkt@) is None,
        },
{
    let n: usize = pkt.len();
    if n >= 20 && pkt[0] / 16 == 4 {
        let ihl: usize = (pkt[0] % 16) as usize * 4;
        let word: u16 = bytes::u16_of(pkt[6], pkt[7]);
        let more: bool = word / 8192 % 2 == 1;
        let offset: usize = (word % 8192) as usize * 8;
        if ihl < 20 || n < ihl || (!more && offset == 0) {
            return None;
        }
        let f = FragPacket {
            key: FragKey::V4 {
                src: bytes::copy_range(pkt, 12, 16),
                dst: bytes::copy_range(pkt, 16, 20),
                proto: pkt[9],
                id: bytes::u16_of(pkt[4], pkt[5]),
            },
            header: bytes::copy_range(pkt, 0, ihl),
            offset,
            more,
            data: bytes::copy_range(pkt, ihl, n),
        };
        assert(f@ == fragment_of(pkt@)->0);
        Some(f)
    } else if n >= 48 && pkt[0] / 16 == 6 && pkt[6] == 44 {
        let word: u16 = bytes::u16_of(pkt[42], pkt[43]);
        let mut header: Vec<u8> = bytes::copy_range(pkt, 0, 40);
        header.set(6, pkt[40]);
        let f = FragPacket {
            key: FragKey::V6 {
                src: bytes::copy_range(pkt, 8, 24),
                dst: bytes::copy_range(pkt, 24, 40),
                id: bytes::u32_of(pkt[44], pkt[45], pkt[46], pkt[47]),
            },
            header,
            offset: (word / 8) as usize * 8,
            more: word % 2 == 1,
            data: bytes::copy_range(pkt, 48, n),
        };
        assert(f@ == fragment_of(pkt@)->0);
        Some(f)
    } else {
        None
    }
}

proof fn lemma_stored_insert(pieces: Seq<Piece>, i: int, x: Piece)
    requires
        0 <= i <= pieces.len(),
    ensures
        stored(pieces.insert(i, x)) == stored(pieces) + x.data.len(),
    decreases pieces.len(),
{
    let after = pieces.insert(i, x);
    if i == pieces.len() {
        assert(after.drop_last() == pieces);
    } else {
        lemma_stored_insert(pieces.drop_last(), i, x);
        assert(after.drop_last() == pieces.drop_last().insert(i, x));
        assert(after.last() == pieces.last());
    }
}

proof fn lemma_pieces_before(pieces: Seq<Piece>, offset: nat, k: int)
    requires
        0 <= k <= pieces.len(),
        forall|i: int| 0 <= i < k ==> (#[trigger] pieces[i]).offset < offset,
        forall|i: int| k <= i < pieces.len() ==> (#[trigger] pieces[i]).offset >= offset,
    ensures
        pieces_before(pieces, offset) == k,
    decreases pieces.len(),
{
    if pieces.len() > k {
        lemma_pieces_before(pieces.drop_last(), offset, k);
    } else if pieces.len() > 0 {
        assert(pieces.last() == pieces[pieces.len() - 1]);
    }
}

impl FragGroup {
    /// Takes one fragment in. Returns whether the group had room for it.
    fn absorb(&mut self, f: FragPacket) -> (room: bool)
        requires
            old(self).wf(),
            f@.flow == old(self)@.flow,
            group_ok(absorbed_header(f@)),
            f.offset + f.data.len() <= MAX_DATAGRAM_LEN,
        ensures
            final(self).wf(),
            final(self)@ == absorbed(old(self)@, f@),
            room == !overfull(old(self)@, f@),
    {
        let ghost before = self@;
        let ghost ps = self@.pieces;
        let ghost frag = f@;
        if f.offset == 0 {
            self.header = f.header;
        }
        if !f.more {
            self.total_len = Some(f.offset + f.data.len());
        }
        let mut at: usize = 0;
        while at < self.chunks.len() && self.chunks[at].offset < f.offset
            invariant
                at <= self.chunks.len(),
                ps == pieces_of(self.chunks@),
                forall|i: int| 0 <= i < at ==> (#[trigger] ps[i]).offset < f.offset,
            decreases self.chunks.len() - at,
        {
            at = at + 1;
        }
        if at < self.chunks.len() && self.chunks[at].offset == f.offset {
            assert(ps[at as int].offset == f.offset);
            assert(starts_at(ps, frag.offset));
            assert(self@ == absorbed(before, frag));
            return true;
        }
        proof {
            assert forall|i: int| at <= i < ps.len() implies (#[trigger] ps[i]).offset > f.offset by {
                assert(ps[at as int].offset > f.offset);
                if i > at {
                    assert(ps[at as int].offset < ps[i].offset);
                }
            }
            lemma_pieces_before(ps, frag.offset, at as int);
            assert(!starts_at(ps, frag.offset));
        }
        let n: usize = f.data.len();
        if self.stored_bytes + n > MAX_DATAGRAM_LEN {
            assert(self@ == absorbed(before, frag));
            return false;
        }
        proof {
            lemma_stored_insert(
                ps,
                at as int,
                Piece { offset: frag.offset, data: frag.data },
            );
        }
        self.stored_bytes = self.stored_bytes + n;
        self.chunks.insert(at, Chunk { offset: f.offset, data: f.data });
        assert(self@.pieces == ps.insert(
            at as int,
            Piece { offset: frag.offset, data: frag.data },
        ));
        assert(self@ == absorbed(before, frag));
        true
    }
}

/// The group that holds nothing but a fragment's header.
spec fn absorbed_header(f: Fragment) -> Group {
    Group {
        flow: f.flow,
        header: f.header,
        pieces: Seq::empty(),
        total: None,
        deadline: 0,
    }
}

/// Rebuilds datagrams from their fragments.
pub struct IpReassembler {
    groups: Vec<FragGroup>,
}

spec fn groups_of(v: Seq<FragGroup>) -> Seq<Group> {
    Seq::new(v.len(), |i: int| v[i]@)
}

/// The packets of a vector, as byte strings.
pub open spec fn packets(v: Seq<Vec<u8>>) -> Seq<Seq<u8>> {
    Seq::new(v.len(), |i: int| v[i]@)
}

impl IpReassembler {
    /// The groups in flight, in the order in which they were opened.
    pub closed spec fn view(&self) -> Seq<Group> {
        groups_of(self.groups@)
    }

    /// Whether this is a state that fragments can have led to.
    pub closed spec fn wf(&self) -> bool {
        &&& groups_ok(self@)
        &&& forall|i: int| 0 <= i < self.groups@.len() ==> (#[trigger] self.groups@[i]).wf()
    }

    /// A well-formed reassembler keeps the bounds.
    pub proof fn bounded(&self)
        requires
            self.wf(),
        ensures
            groups_ok(self@),
    {
    }

    /// A reassembler with nothing in flight.
    pub fn new() -> (r: IpReassembler)
        ensures
            r.wf(),
            r@ == Seq::<Group>::empty(),
    {
        IpReassembler { groups: Vec::new() }
    }

    /// The number of groups in flight.
    pub fn pending(&self) -> (n: usize)
        ensures
            n == self@.len(),
    {
        self.groups.len()
    }

    /// The number of payload bytes that the group at `i` stores.
    pub fn stored_bytes(&self, i: usize) -> (n: usize)
        requires
            self.wf(),
            i < self@.len(),
        ensures
            n == stored(self@[i as int].pieces),
    {
        assert(self.groups@[i as int].wf());
        self.groups[i].stored_bytes
    }

    fn evict_expired(&mut self, now: u64)
        requires
            old(self).wf(),
        ensures
            final(self).wf(),
            final(self)@ == alive(old(self)@, now as nat),
    {
        let ghost all = self.groups@;
        let ghost gs = self@;
        let ghost pred = |g: Group| g.deadline > now;
        let ghost mut seen: int = 0;
        let mut i: usize = 0;
        reveal(Seq::filter);
        assert(gs.take(0).filter(pred) =~= Seq::<Group>::empty());
        assert forall|k: int, l: int| 0 <= k < l < all.len() implies (#[trigger] all[k])@.flow != (
        #[trigger] all[l])@.flow by {
            assert(gs[k].flow != gs[l].flow);
        }
        while i < self.groups.len()
            invariant
                all == old(self).groups@,
                gs == groups_of(all),
                old(self).wf(),
                0 <= seen <= all.len(),
                i <= self.groups.len(),
                pred == (|g: Group| g.deadline > now),
                groups_of(self.groups@.take(i as int)) == gs.take(seen).filter(pred),
                self.groups@.skip(i as int) == all.skip(seen),
                self.groups.len() - i == all.len() - seen,
                self.groups.len() <= all.len(),
                forall|k: int| 0 <= k < self.groups@.len() ==> (#[trigger] self.groups@[k]).wf(),
                forall|k: int, l: int|
                    0 <= k < l < self.groups@.len() ==> (#[trigger] self.groups@[k])@.flow != (
                    #[trigger] self.groups@[l])@.flow,
            decreases all.len() - seen,
        {
            let ghost cur = self.groups@;
            assert(self.groups@.skip(i as int)[0] == all.skip(seen)[0]);
            assert(gs.take(seen + 1).drop_last() == gs.take(seen));
            assert(gs.take(seen + 1).last() == all[seen]@);
            reveal(Seq::filter);
            if self.groups[i].deadline > now {
                assert(groups_of(cur.take(i + 1)) =~= groups_of(cur.take(i as int)).push(
                    cur[i as int]@,
                ));
                assert(cur.skip(i + 1) =~= all.skip(seen + 1)) by {
                    assert(cur.skip(i as int).skip(1) =~= cur.skip(i + 1));
                    assert(all.skip(seen).skip(1) =~= all.skip(seen + 1));
                }
                i = i + 1;
            } else {
                let _dead = self.groups.remove(i);
                assert(self.groups@.take(i as int) =~= cur.take(i as int));
                assert(self.groups@.skip(i as int) =~= all.skip(seen + 1)) by {
                    assert(cur.skip(i as int).skip(1) =~= self.groups@.skip(i as int));
                    assert(all.skip(seen).skip(1) =~= all.skip(seen + 1));
                }
            }
            proof {
                seen = seen + 1;
            }
        }
        assert(self.groups@.take(i as int) == self.groups@);
        assert(gs.take(seen) == gs);
        assert(groups_of(self.groups@) == gs.filter(pred));
    }

    fn evict_oldest(&mut self)
        requires
            old(self).wf(),
        ensures
            final(self).wf(),
            old(self)@.len() == 0 ==> final(self)@ == old(self)@,
            old(self)@.len() > 0 ==> {
                &&& 0 <= oldest(old(self)@) < old(self)@.len()
                &&& final(self)@ == old(self)@.remove(oldest(old(self)@))
            },
    {
        if self.groups.len() == 0 {
            return;
        }
        let ghost gs = self@;
        let mut best: usize = 0;
        let mut i: usize = 1;
        assert(oldest(gs.take(1)) == 0);
        while i < self.groups.len()
            invariant
                gs == self@,
                1 <= i <= self.groups.len(),
                best < i,
                best == oldest(gs.take(i as int)),
            decreases self.groups.len() - i,
        {
            assert(gs.take(i + 1).drop_last() == gs.take(i as int));
            assert(gs.take(i + 1).last() == gs[i as int]);
            if self.groups[i].deadline < self.groups[best].deadline {
                best = i;
            }
            i = i + 1;
        }
        assert(gs.take(i as int) == gs);
        let _dropped = self.groups.remove(best);
        assert(self@ == gs.remove(best as int));
    }

    fn find(&self, key: &FragKey) -> (at: usize)
        ensures
            at == place_of(self@, key@, 0),
            at <= self.groups.len(),
    {
        let mut i: usize = 0;
        while i < self.groups.len()
            invariant
                i <= self.groups.len(),
                place_of(self@, key@, 0) == place_of(self@, key@, i as int),
            decreases self.groups.len() - i,
        {
            if self.groups[i].key.same(key) {
                return i;
            }
            i = i + 1;
        }
        i
    }

    /// Feeds one packet and returns what to hand to the netstack: a packet
    /// that is no fragment as it is, nothing for a fragment that completes no
    /// datagram, and the datagram for one that does.
    pub fn process(&mut self, pkt: Vec<u8>, now: u64) -> (out: Vec<Vec<u8>>)
        requires
            old(self).wf(),
            now + REASSEMBLY_TIMEOUT <= u64::MAX,
        ensures
            final(self).wf(),
            (final(self)@, packets(out@)) == processed(old(self)@, pkt@, now as nat),
    {
        let ghost start = self@;
        self.evict_expired(now);
        let ghost live = self@;
        let mut out: Vec<Vec<u8>> = Vec::new();
        let frag = match read_fragment(&pkt) {
            Some(f) => f,
            None => {
                let ghost bytes = pkt@;
                out.push(pkt);
                assert(packets(out@) == seq![bytes]);
                return out;
            },
        };
        let ghost f = frag@;
        if frag.data.len() > MAX_DATAGRAM_LEN - frag.offset {
            assert(packets(out@) == Seq::<Seq<u8>>::empty());
            return out;
        }
        let mut at: usize = self.find(&frag.key);
        proof {
            lemma_place_of(live, f.flow, 0);
        }
        if at == self.groups.len() {
            if self.groups.len() >= MAX_GROUPS {
                self.evict_oldest();
            }
            let ghost room = self@;
            assert forall|i: int| 0 <= i < room.len() implies (#[trigger] room[i]).flow != f.flow by {
                if live.len() >= MAX_GROUPS {
                    let o = oldest(live);
                    assert(room == live.remove(o));
                    assert(i < o || room[i] == live[i + 1]);
                }
            }
            at = self.groups.len();
            let key = frag.key.copy();
            self.groups.push(FragGroup::new(key, now));
            assert(self@ == room.push(opened(f.flow, now as nat)));
            proof {
                lemma_place_of_last(self@, f.flow);
            }
        }
        let ghost all = self@;
        assert(all == with_group(live, f.flow, now as nat));
        assert(at == place_of(all, f.flow, 0));
        proof {
            lemma_place_of(all, f.flow, 0);
            assert(all[at as int].flow == f.flow);
        }
        assert(self.groups@[at as int].wf());
        let mut group = self.groups.remove(at);
        let ghost before = group@;
        assert(before == all[at as int]);
        let room: bool = group.absorb(frag);
        if room && group.complete() {
            let whole = group.assemble();
            out.push(whole);
            assert(self@ == all.remove(at as int));
            assert(packets(out@) == seq![assembled(group@)]);
        } else {
            let ghost g = group@;
            self.groups.insert(at, group);
            assert(self@ == all.update(at as int, g));
            assert(packets(out@) == Seq::<Seq<u8>>::empty());
        }
        out
    }
}

proof fn lemma_place_of(gs: Seq<Group>, flow: Flow, from: int)
    requires
        0 <= from <= gs.len(),
    ensures
        ({
            let at = place_of(gs, flow, from);
            &&& from <= at <= gs.len()
            &&& at < gs.len() ==> gs[at].flow == flow
            &&& forall|i: int| from <= i < at ==> (#[trigger] gs[i]).flow != flow
        }),
    decreases gs.len() - from,
{
    if from < gs.len() && gs[from].flow != flow {
        lemma_place_of(gs, flow, from + 1);
    }
}

proof fn lemma_place_of_last(gs: Seq<Group>, flow: Flow)
    requires
        gs.len() > 0,
        gs.last().flow == flow,
        forall|i: int| 0 <= i < gs.len() - 1 ==> (#[trigger] gs[i]).flow != flow,
    ensures
        place_of(gs, flow, 0) == gs.len() - 1,
{
    lemma_place_of(gs, flow, 0);
}

/// A packet and the time at which it came.
pub struct Arrival {
    pub pkt: Seq<u8>,
    pub at: nat,
}

/// A run of packets: the groups afterwards, and everything handed on.
pub open spec fn run(gs: Seq<Group>, arrivals: Seq<Arrival>) -> (Seq<Group>, Seq<Seq<u8>>)
    decreases arrivals.len(),
{
    if arrivals.len() == 0 {
        (gs, Seq::empty())
    } else {
        let before = run(gs, arrivals.drop_last());
        let last = processed(before.0, arrivals.last().pkt, arrivals.last().at);
        (last.0, before.1 + last.1)
    }
}

/// The `len` bytes of `payload` at `offset`.
pub open spec fn stretch(payload: Seq<u8>, offset: nat, len: nat) -> Seq<u8> {
    payload.subrange(offset as int, (offset + len) as int)
}

/// Whether a fragment is one of a datagram with this flow, header and payload.
pub open spec fn part_of(f: Fragment, flow: Flow, header: Seq<u8>, payload: Seq<u8>) -> bool {
    &&& f.flow == flow
    &&& f.offset + f.data.len() <= payload.len()
    &&& f.data == stretch(payload, f.offset, f.data.len())
    &&& f.data.len() > 0
    &&& f.more == (f.offset + f.data.len() < payload.len())
    &&& f.offset == 0 ==> f.header == header
}

/// Whether two fragments of a datagram are the same one or do not overlap.
pub open spec fn apart(f: Fragment, g: Fragment) -> bool {
    ||| f.offset == g.offset && f.data.len() == g.data.len()
    ||| f.offset + f.data.len() <= g.offset
    ||| g.offset + g.data.len() <= f.offset
}

/// The fragments that packets are.
pub open spec fn fragments(arrivals: Seq<Arrival>) -> Seq<Fragment> {
    Seq::new(arrivals.len(), |i: int| fragment_of(arrivals[i].pkt)->0)
}

/// Whether fragments are those of one datagram as a sender cuts it: in any
/// order, with duplicates, but with no two that overlap in part.
pub open spec fn train(
    fs: Seq<Fragment>,
    flow: Flow,
    header: Seq<u8>,
    payload: Seq<u8>,
) -> bool {
    &&& forall|i: int| 0 <= i < fs.len() ==> part_of(#[trigger] fs[i], flow, header, payload)
    &&& forall|i: int, j: int|
        0 <= i < fs.len() && 0 <= j < fs.len() ==> apart(#[trigger] fs[i], #[trigger] fs[j])
}

/// Whether some fragment carries the payload byte at `p`.
pub open spec fn carried(fs: Seq<Fragment>, p: int) -> bool {
    exists|i: int|
        0 <= i < fs.len() && (#[trigger] fs[i]).offset <= p < fs[i].offset + fs[i].data.len()
}

/// Whether fragments carry every byte of a payload between them.
pub open spec fn carries_all(fs: Seq<Fragment>, payload: Seq<u8>) -> bool {
    forall|p: int| 0 <= p < payload.len() ==> #[trigger] carried(fs, p)
}

/// Whether a piece is the data of one of the fragments.
spec fn known(fs: Seq<Fragment>, x: Piece) -> bool {
    exists|j: int| 0 <= j < fs.len() && (#[trigger] fs[j]).offset == x.offset && fs[j].data == x.data
}

/// What a group holds of a datagram after some of its fragments have come.
spec fn holds(
    g: Group,
    first: nat,
    fs: Seq<Fragment>,
    flow: Flow,
    header: Seq<u8>,
    payload: Seq<u8>,
) -> bool {
    &&& g.flow == flow
    &&& g.deadline == first + REASSEMBLY_TIMEOUT
    &&& forall|j: int| 0 <= j < fs.len() ==> #[trigger] starts_at(g.pieces, fs[j].offset)
    &&& forall|i: int| 0 <= i < g.pieces.len() ==> #[trigger] known(fs, g.pieces[i])
    &&& forall|j: int|
        0 <= j < fs.len() && (#[trigger] fs[j]).offset == 0 ==> g.header == header
    &&& g.header.len() == 0 || g.header == header
    &&& forall|j: int|
        0 <= j < fs.len() && !(#[trigger] fs[j]).more ==> g.total == Some(payload.len())
    &&& g.total is None || g.total == Some(payload.len())
    &&& disjoint(g.pieces)
    &&& cut_from(g.pieces, payload)
}

/// Whether pieces follow one another without overlap.
spec fn disjoint(pieces: Seq<Piece>) -> bool {
    forall|i: int, j: int|
        0 <= i < j < pieces.len() ==> (#[trigger] pieces[i]).offset + pieces[i].data.len() <= (
        #[trigger] pieces[j]).offset
}

/// Whether every piece holds what the payload holds there.
spec fn cut_from(pieces: Seq<Piece>, payload: Seq<u8>) -> bool {
    forall|i: int|
        0 <= i < pieces.len() ==> (#[trigger] pieces[i]).data.len() > 0 && pieces[i].offset
            + pieces[i].data.len() <= payload.len() && pieces[i].data == stretch(
            payload,
            pieces[i].offset,
            pieces[i].data.len(),
        )
}

proof fn lemma_stored_disjoint(pieces: Seq<Piece>, end: nat)
    requires
        forall|i: int, j: int|
            0 <= i < j < pieces.len() ==> (#[trigger] pieces[i]).offset + pieces[i].data.len() <= (
            #[trigger] pieces[j]).offset,
        forall|i: int|
            0 <= i < pieces.len() ==> (#[trigger] pieces[i]).offset + pieces[i].data.len() <= end,
    ensures
        stored(pieces) <= end,
    decreases pieces.len(),
{
    if pieces.len() > 0 {
        let rest = pieces.drop_last();
        assert forall|i: int| 0 <= i < rest.len() implies (#[trigger] rest[i]).offset
            + rest[i].data.len() <= pieces.last().offset by {
            assert(pieces[i].offset + pieces[i].data.len() <= pieces[pieces.len() - 1].offset);
        }
        lemma_stored_disjoint(rest, pieces.last().offset);
        assert(pieces[pieces.len() - 1].offset + pieces.last().data.len() <= end);
    }
}

proof fn lemma_byte_at(pieces: Seq<Piece>, payload: Seq<u8>, p: int)
    requires
        covered(pieces, p),
        forall|i: int|
            0 <= i < pieces.len() ==> (#[trigger] pieces[i]).offset + pieces[i].data.len()
                <= payload.len() && pieces[i].data == stretch(
                payload,
                pieces[i].offset,
                pieces[i].data.len(),
            ),
    ensures
        byte_at(pieces, p) == payload[p],
    decreases pieces.len(),
{
    let last = pieces[pieces.len() - 1];
    if last.offset <= p < last.offset + last.data.len() {
        assert(last.data[p - last.offset] == payload[p]);
    } else {
        let rest = pieces.drop_last();
        let k = choose|k: int|
            0 <= k < pieces.len() && (#[trigger] pieces[k]).offset <= p < pieces[k].offset
                + pieces[k].data.len();
        assert(rest[k] == pieces[k]);
        assert(covered(rest, p));
        assert forall|i: int| 0 <= i < rest.len() implies (#[trigger] rest[i]).offset
            + rest[i].data.len() <= payload.len() && rest[i].data == stretch(
            payload,
            rest[i].offset,
            rest[i].data.len(),
        ) by {
            assert(rest[i] == pieces[i]);
        }
        lemma_byte_at(rest, payload, p);
    }
}

proof fn lemma_alive(gs: Seq<Group>, now: nat)
    ensures
        forall|i: int|
            0 <= i < alive(gs, now).len() ==> (#[trigger] alive(gs, now)[i]).deadline > now
                && gs.contains(alive(gs, now)[i]),
        forall|k: int|
            0 <= k < gs.len() && (#[trigger] gs[k]).deadline > now ==> alive(gs, now).contains(
                gs[k],
            ),
        groups_ok(gs) ==> groups_ok(alive(gs, now)),
    decreases gs.len(),
{
    reveal(Seq::filter);
    let live = alive(gs, now);
    if gs.len() > 0 {
        let rest = gs.drop_last();
        lemma_alive(rest, now);
        let old_live = alive(rest, now);
        assert(live == if gs.last().deadline > now {
            old_live.push(gs.last())
        } else {
            old_live
        });
        assert forall|i: int| 0 <= i < live.len() implies (#[trigger] live[i]).deadline > now
            && gs.contains(live[i]) by {
            if i < old_live.len() {
                let k = choose|k: int| 0 <= k < rest.len() && rest[k] == old_live[i];
                assert(gs[k] == live[i]);
            } else {
                assert(gs[gs.len() - 1] == live[i]);
            }
        }
        assert forall|k: int| 0 <= k < gs.len() && (#[trigger] gs[k]).deadline > now implies live.contains(
            gs[k],
        ) by {
            if k < rest.len() {
                assert(rest[k] == gs[k]);
                let i = choose|i: int| 0 <= i < old_live.len() && old_live[i] == rest[k];
                assert(live[i] == gs[k]);
            } else {
                assert(live[live.len() - 1] == gs[k]);
            }
        }
        if groups_ok(gs) {
            assert forall|i: int, j: int| 0 <= i < j < rest.len() implies (#[trigger] rest[i]).flow != (
            #[trigger] rest[j]).flow by {
                assert(gs[i].flow != gs[j].flow);
            }
            assert forall|i: int| 0 <= i < rest.len() implies group_ok(#[trigger] rest[i]) by {
                assert(group_ok(gs[i]));
            }
            assert(groups_ok(rest));
            assert forall|i: int, j: int| 0 <= i < j < live.len() implies (#[trigger] live[i]).flow != (
            #[trigger] live[j]).flow by {
                if j < old_live.len() {
                    assert(old_live[i].flow != old_live[j].flow);
                } else {
                    let k = choose|k: int| 0 <= k < rest.len() && rest[k] == old_live[i];
                    assert(gs[k].flow != gs[gs.len() - 1].flow);
                }
            }
            assert forall|i: int| 0 <= i < live.len() implies group_ok(#[trigger] live[i]) by {
                let k = choose|k: int| 0 <= k < gs.len() && gs[k] == live[i];
                assert(group_ok(gs[k]));
            }
            assert(old_live.len() <= rest.len());
            assert(live.len() <= gs.len());
        }
    }
}

proof fn lemma_place_unique(gs: Seq<Group>, flow: Flow, at: int)
    requires
        groups_ok(gs),
        0 <= at < gs.len(),
        gs[at].flow == flow,
    ensures
        place_of(gs, flow, 0) == at,
{
    lemma_place_of(gs, flow, 0);
    let k = place_of(gs, flow, 0);
    if k < at {
        assert(gs[k].flow != gs[at].flow);
    } else if k > at {
        assert(gs[at].flow != flow);
    }
}

proof fn lemma_oldest(gs: Seq<Group>)
    requires
        gs.len() > 0,
    ensures
        0 <= oldest(gs) < gs.len(),
        forall|i: int| 0 <= i < gs.len() ==> gs[oldest(gs)].deadline <= (#[trigger] gs[i]).deadline,
    decreases gs.len(),
{
    if gs.len() > 1 {
        lemma_oldest(gs.drop_last());
        let o = oldest(gs.drop_last());
        assert forall|i: int| 0 <= i < gs.len() implies gs[oldest(gs)].deadline <= (
        #[trigger] gs[i]).deadline by {
            if i < gs.len() - 1 {
                assert(gs.drop_last()[i] == gs[i]);
                assert(gs.drop_last()[o] == gs[o]);
            }
        }
    }
}

/// The group that a fragment of `flow` meets.
proof fn lemma_with_group(gs: Seq<Group>, flow: Flow, now: nat)
    requires
        groups_ok(gs),
    ensures
        ({
            let all = with_group(gs, flow, now);
            let at = place_of(all, flow, 0);
            &&& groups_ok(all)
            &&& 0 <= at < all.len()
            &&& all[at] == if place_of(gs, flow, 0) < gs.len() {
                gs[place_of(gs, flow, 0)]
            } else {
                opened(flow, now)
            }
        }),
{
    let all = with_group(gs, flow, now);
    lemma_place_of(gs, flow, 0);
    if place_of(gs, flow, 0) >= gs.len() {
        let room = all.drop_last();
        if gs.len() >= MAX_GROUPS {
            lemma_oldest(gs);
            let o = oldest(gs);
            assert(room == gs.remove(o));
            assert forall|i: int| 0 <= i < room.len() implies group_ok(#[trigger] room[i])
                && room[i].flow != flow by {
                assert(room[i] == if i < o {
                    gs[i]
                } else {
                    gs[i + 1]
                });
            }
            assert forall|i: int, j: int| 0 <= i < j < room.len() implies (#[trigger] room[i]).flow != (
            #[trigger] room[j]).flow by {
                let a = if i < o {
                    i
                } else {
                    i + 1
                };
                let b = if j < o {
                    j
                } else {
                    j + 1
                };
                assert(gs[a].flow != gs[b].flow);
            }
        } else {
            assert(room == gs);
        }
        assert(all[all.len() - 1] == opened(flow, now));
        assert(group_ok(opened(flow, now)));
        assert forall|i: int| 0 <= i < all.len() implies group_ok(#[trigger] all[i]) by {
            if i < room.len() {
                assert(all[i] == room[i]);
            }
        }
        assert forall|i: int, j: int| 0 <= i < j < all.len() implies (#[trigger] all[i]).flow != (
        #[trigger] all[j]).flow by {
            if j < room.len() {
                assert(room[i].flow != room[j].flow);
            } else {
                assert(room[i].flow != flow);
            }
        }
        lemma_place_unique(all, flow, all.len() - 1);
    }
}

proof fn lemma_pieces_before_splits(pieces: Seq<Piece>, offset: nat)
    requires
        forall|i: int, j: int|
            0 <= i < j < pieces.len() ==> (#[trigger] pieces[i]).offset < (
            #[trigger] pieces[j]).offset,
    ensures
        0 <= pieces_before(pieces, offset) <= pieces.len(),
        forall|i: int|
            0 <= i < pieces_before(pieces, offset) ==> (#[trigger] pieces[i]).offset < offset,
        forall|i: int|
            pieces_before(pieces, offset) <= i < pieces.len() ==> (#[trigger] pieces[i]).offset
                >= offset,
    decreases pieces.len(),
{
    if pieces.len() > 0 && pieces.last().offset >= offset {
        let rest = pieces.drop_last();
        assert forall|i: int, j: int| 0 <= i < j < rest.len() implies (#[trigger] rest[i]).offset < (
        #[trigger] rest[j]).offset by {
            assert(pieces[i].offset < pieces[j].offset);
        }
        lemma_pieces_before_splits(rest, offset);
        let k = pieces_before(rest, offset);
        assert forall|i: int| k <= i < pieces.len() implies (#[trigger] pieces[i]).offset
            >= offset by {
            if i < rest.len() {
                assert(rest[i].offset >= offset);
            }
        }
        assert forall|i: int| 0 <= i < k implies (#[trigger] pieces[i]).offset < offset by {
            assert(rest[i].offset < offset);
        }
    } else if pieces.len() > 0 {
        assert forall|i: int| 0 <= i < pieces.len() implies (#[trigger] pieces[i]).offset
            < offset by {
            if i < pieces.len() - 1 {
                assert(pieces[i].offset < pieces[pieces.len() - 1].offset);
            }
        }
    }
}

proof fn lemma_insert_piece(
    pieces: Seq<Piece>,
    fs: Seq<Fragment>,
    f: Fragment,
    flow: Flow,
    header: Seq<u8>,
    payload: Seq<u8>,
)
    requires
        train(fs.push(f), flow, header, payload),
        disjoint(pieces),
        cut_from(pieces, payload),
        forall|i: int| 0 <= i < pieces.len() ==> #[trigger] known(fs, pieces[i]),
        !starts_at(pieces, f.offset),
    ensures
        ({
            let after = pieces.insert(
                pieces_before(pieces, f.offset) as int,
                Piece { offset: f.offset, data: f.data },
            );
            &&& 0 <= pieces_before(pieces, f.offset) <= pieces.len()
            &&& disjoint(after)
            &&& cut_from(after, payload)
        }),
{
    let all = fs.push(f);
    assert(all[all.len() - 1] == f);
    assert forall|i: int, j: int| 0 <= i < j < pieces.len() implies (#[trigger] pieces[i]).offset < (
    #[trigger] pieces[j]).offset by {}
    lemma_pieces_before_splits(pieces, f.offset);
    let k = pieces_before(pieces, f.offset) as int;
    let x = Piece { offset: f.offset, data: f.data };
    let after = pieces.insert(k, x);
    assert forall|i: int| 0 <= i < pieces.len() implies ({
        ||| i < k && (#[trigger] pieces[i]).offset + pieces[i].data.len() <= f.offset
        ||| i >= k && f.offset + f.data.len() <= pieces[i].offset
    }) by {
        assert(known(fs, pieces[i]));
        let j = choose|j: int|
            0 <= j < fs.len() && (#[trigger] fs[j]).offset == pieces[i].offset && fs[j].data
                == pieces[i].data;
        assert(all[j] == fs[j]);
        assert(apart(all[j], all[all.len() - 1]));
        assert(pieces[i].offset != f.offset);
    }
    assert forall|i: int, j: int| 0 <= i < j < after.len() implies (#[trigger] after[i]).offset
        + after[i].data.len() <= (#[trigger] after[j]).offset by {
        let i0 = if i < k {
            i
        } else {
            i - 1
        };
        let j0 = if j < k {
            j
        } else {
            j - 1
        };
        if i == k {
            assert(after[j] == pieces[j0]);
        } else if j == k {
            assert(after[i] == pieces[i0]);
        } else {
            assert(after[i] == pieces[i0] && after[j] == pieces[j0]);
        }
    }
    assert(part_of(all[all.len() - 1], flow, header, payload));
    assert forall|i: int| 0 <= i < after.len() implies (#[trigger] after[i]).data.len() > 0
        && after[i].offset + after[i].data.len() <= payload.len() && after[i].data == stretch(
        payload,
        after[i].offset,
        after[i].data.len(),
    ) by {
        if i < k {
            assert(after[i] == pieces[i]);
        } else if i > k {
            assert(after[i] == pieces[i - 1]);
        } else {
            assert(after[i] == x);
        }
    }
}

proof fn lemma_known_grows(fs: Seq<Fragment>, f: Fragment, x: Piece)
    requires
        known(fs, x),
    ensures
        known(fs.push(f), x),
{
    let j = choose|j: int|
        0 <= j < fs.len() && (#[trigger] fs[j]).offset == x.offset && fs[j].data == x.data;
    assert(fs.push(f)[j] == fs[j]);
}

proof fn lemma_absorb(
    g: Group,
    first: nat,
    fs: Seq<Fragment>,
    f: Fragment,
    flow: Flow,
    header: Seq<u8>,
    payload: Seq<u8>,
)
    requires
        train(fs.push(f), flow, header, payload),
        0 < payload.len() <= MAX_DATAGRAM_LEN,
        holds(g, first, fs, flow, header, payload),
    ensures
        !overfull(g, f),
        holds(absorbed(g, f), first, fs.push(f), flow, header, payload),
{
    let all = fs.push(f);
    let n = fs.len() as int;
    assert(all[n] == f);
    assert(part_of(all[n], flow, header, payload));
    let g2 = absorbed(g, f);
    if starts_at(g.pieces, f.offset) {
        assert(g2.pieces == g.pieces);
        assert forall|j: int| 0 <= j < all.len() implies #[trigger] starts_at(
            g2.pieces,
            all[j].offset,
        ) by {
            if j < n {
                assert(starts_at(g.pieces, fs[j].offset));
            }
        }
        assert forall|i: int| 0 <= i < g2.pieces.len() implies #[trigger] known(
            all,
            g2.pieces[i],
        ) by {
            assert(known(fs, g.pieces[i]));
            lemma_known_grows(fs, f, g.pieces[i]);
        }
    } else {
        let k = pieces_before(g.pieces, f.offset) as int;
        let x = Piece { offset: f.offset, data: f.data };
        let after = g.pieces.insert(k, x);
        lemma_insert_piece(g.pieces, fs, f, flow, header, payload);
        lemma_stored_disjoint(after, payload.len());
        lemma_stored_insert(g.pieces, k, x);
        assert(!overfull(g, f));
        assert(g2.pieces == after);
        assert(after[k] == x);
        assert forall|j: int| 0 <= j < all.len() implies #[trigger] starts_at(
            g2.pieces,
            all[j].offset,
        ) by {
            if j < n {
                assert(starts_at(g.pieces, fs[j].offset));
                let i = choose|i: int|
                    0 <= i < g.pieces.len() && (#[trigger] g.pieces[i]).offset == fs[j].offset;
                let i2 = if i < k {
                    i
                } else {
                    i + 1
                };
                assert(after[i2] == g.pieces[i]);
            }
        }
        assert forall|i: int| 0 <= i < after.len() implies #[trigger] known(all, after[i]) by {
            if i == k {
                assert(all[n].offset == after[i].offset);
            } else {
                let i0 = if i < k {
                    i
                } else {
                    i - 1
                };
                assert(after[i] == g.pieces[i0]);
                assert(known(fs, g.pieces[i0]));
                lemma_known_grows(fs, f, g.pieces[i0]);
            }
        }
    }
    assert forall|j: int| 0 <= j < all.len() && (#[trigger] all[j]).offset
        == 0 implies g2.header == header by {
        if j < n {
            assert(fs[j] == all[j]);
        }
    }
    assert forall|j: int| 0 <= j < all.len() && !(
    #[trigger] all[j]).more implies g2.total == Some(payload.len()) by {
        if j < n {
            assert(fs[j] == all[j]);
        }
    }
}

/// A group that holds some of a datagram's fragments is complete exactly when
/// they carry the whole payload, and then stands for the datagram.
proof fn lemma_complete_when_carried(
    g: Group,
    first: nat,
    fs: Seq<Fragment>,
    flow: Flow,
    header: Seq<u8>,
    payload: Seq<u8>,
)
    requires
        train(fs, flow, header, payload),
        0 < payload.len() <= MAX_DATAGRAM_LEN,
        header.len() > 0,
        holds(g, first, fs, flow, header, payload),
    ensures
        complete(g) == carries_all(fs, payload),
        complete(g) ==> assembled(g) == rebuilt_header(header, payload.len()) + payload,
{
    assert forall|p: int| 0 <= p < payload.len() implies #[trigger] covered(g.pieces, p) == carried(
        fs,
        p,
    ) by {
        if covered(g.pieces, p) {
            let i = choose|i: int|
                0 <= i < g.pieces.len() && (#[trigger] g.pieces[i]).offset <= p < g.pieces[i].offset
                    + g.pieces[i].data.len();
            assert(known(fs, g.pieces[i]));
            let j = choose|j: int|
                0 <= j < fs.len() && (#[trigger] fs[j]).offset == g.pieces[i].offset && fs[j].data
                    == g.pieces[i].data;
            assert(fs[j].offset <= p < fs[j].offset + fs[j].data.len());
        }
        if carried(fs, p) {
            let j = choose|j: int|
                0 <= j < fs.len() && (#[trigger] fs[j]).offset <= p < fs[j].offset
                    + fs[j].data.len();
            assert(starts_at(g.pieces, fs[j].offset));
            let i = choose|i: int|
                0 <= i < g.pieces.len() && (#[trigger] g.pieces[i]).offset == fs[j].offset;
            assert(known(fs, g.pieces[i]));
            let j2 = choose|j2: int|
                0 <= j2 < fs.len() && (#[trigger] fs[j2]).offset == g.pieces[i].offset
                    && fs[j2].data == g.pieces[i].data;
            assert(apart(fs[j], fs[j2]));
            assert(part_of(fs[j2], flow, header, payload));
            assert(g.pieces[i].data.len() == fs[j].data.len());
        }
    }
    if carries_all(fs, payload) {
        assert(carried(fs, 0));
        let j = choose|j: int|
            0 <= j < fs.len() && (#[trigger] fs[j]).offset <= 0 < fs[j].offset + fs[j].data.len();
        assert(fs[j].offset == 0);
        let e = payload.len() - 1;
        assert(carried(fs, e));
        let l = choose|l: int|
            0 <= l < fs.len() && (#[trigger] fs[l]).offset <= e < fs[l].offset + fs[l].data.len();
        assert(part_of(fs[l], flow, header, payload));
        assert(!fs[l].more);
        assert(filled_to(g.pieces, payload.len() as int));
        assert(complete(g));
    }
    if complete(g) {
        assert(g.total == Some(payload.len()));
        assert forall|p: int| 0 <= p < payload.len() implies #[trigger] carried(fs, p) by {
            assert(covered(g.pieces, p));
        }
        assert forall|p: int| 0 <= p < payload.len() implies #[trigger] byte_at(g.pieces, p)
            == payload[p] by {
            assert(covered(g.pieces, p));
            lemma_byte_at(g.pieces, payload, p);
        }
        assert(Seq::new(g.total->0, |p: int| byte_at(g.pieces, p)) =~= payload);
    }
}

proof fn lemma_absorbed_ok(g: Group, f: Fragment)
    requires
        group_ok(g),
        group_ok(absorbed_header(f)),
        f.flow == g.flow,
        f.offset + f.data.len() <= MAX_DATAGRAM_LEN,
    ensures
        group_ok(absorbed(g, f)),
{
    let g2 = absorbed(g, f);
    if !starts_at(g.pieces, f.offset) && !overfull(g, f) {
        lemma_pieces_before_splits(g.pieces, f.offset);
        let k = pieces_before(g.pieces, f.offset) as int;
        let x = Piece { offset: f.offset, data: f.data };
        let after = g.pieces.insert(k, x);
        assert(g2.pieces == after);
        lemma_stored_insert(g.pieces, k, x);
        assert forall|i: int| 0 <= i < after.len() implies (#[trigger] after[i]).offset
            + after[i].data.len() <= MAX_DATAGRAM_LEN by {
            if i < k {
                assert(after[i] == g.pieces[i]);
            } else if i > k {
                assert(after[i] == g.pieces[i - 1]);
            }
        }
        assert forall|i: int, j: int| 0 <= i < j < after.len() implies (#[trigger] after[i]).offset < (
        #[trigger] after[j]).offset by {
            let i0 = if i < k {
                i
            } else {
                i - 1
            };
            let j0 = if j < k {
                j
            } else {
                j - 1
            };
            if i == k {
                assert(after[j] == g.pieces[j0]);
                assert(g.pieces[j0].offset != f.offset);
            } else if j == k {
                assert(after[i] == g.pieces[i0]);
            } else {
                assert(after[i] == g.pieces[i0] && after[j] == g.pieces[j0]);
            }
        }
    }
}

proof fn lemma_fragment_header(pkt: Seq<u8>)
    ensures
        fragment_of(pkt) is Some ==> group_ok(absorbed_header(fragment_of(pkt)->0)),
{
}

/// No packet takes a reassembler past its bounds: the groups stay at most
/// [`MAX_GROUPS`], each with at most [`MAX_DATAGRAM_LEN`] bytes stored.
pub proof fn bounds_are_kept(gs: Seq<Group>, pkt: Seq<u8>, now: nat)
    requires
        groups_ok(gs),
    ensures
        groups_ok(processed(gs, pkt, now).0),
{
    let live = alive(gs, now);
    lemma_alive(gs, now);
    if fragment_of(pkt) is Some {
        let f = fragment_of(pkt)->0;
        if f.offset + f.data.len() <= MAX_DATAGRAM_LEN {
            let all = with_group(live, f.flow, now);
            let at = place_of(all, f.flow, 0);
            lemma_with_group(live, f.flow, now);
            lemma_place_of(all, f.flow, 0);
            lemma_fragment_header(pkt);
            lemma_absorbed_ok(all[at], f);
            lemma_update_ok(all, at, absorbed(all[at], f));
        }
    }
}

proof fn lemma_update_ok(all: Seq<Group>, at: int, g: Group)
    requires
        groups_ok(all),
        0 <= at < all.len(),
        group_ok(g),
        g.flow == all[at].flow,
    ensures
        groups_ok(all.update(at, g)),
        groups_ok(all.remove(at)),
        place_of(all.update(at, g), g.flow, 0) == at,
        place_of(all.remove(at), g.flow, 0) == all.len() - 1,
{
    let up = all.update(at, g);
    assert forall|i: int, j: int| 0 <= i < j < up.len() implies (#[trigger] up[i]).flow != (
    #[trigger] up[j]).flow by {
        assert(all[i].flow != all[j].flow);
    }
    assert forall|i: int| 0 <= i < up.len() implies group_ok(#[trigger] up[i]) by {
        assert(group_ok(all[i]));
    }
    lemma_place_unique(up, g.flow, at);
    let less = all.remove(at);
    assert forall|i: int| 0 <= i < less.len() implies group_ok(#[trigger] less[i]) && less[i].flow
        != g.flow by {
        let k = if i < at {
            i
        } else {
            i + 1
        };
        assert(less[i] == all[k]);
        assert(k < at || all[at].flow != all[k].flow);
        assert(k > at || all[k].flow != all[at].flow);
    }
    assert forall|i: int, j: int| 0 <= i < j < less.len() implies (#[trigger] less[i]).flow != (
    #[trigger] less[j]).flow by {
        let a = if i < at {
            i
        } else {
            i + 1
        };
        let b = if j < at {
            j
        } else {
            j + 1
        };
        assert(all[a].flow != all[b].flow);
    }
    lemma_place_of(less, g.flow, 0);
}

/// What a reassembler holds of a flow: nothing before its first fragment, and
/// one group after it.
spec fn in_flight(
    gs: Seq<Group>,
    arrivals: Seq<Arrival>,
    flow: Flow,
    header: Seq<u8>,
    payload: Seq<u8>,
) -> bool {
    let at = place_of(gs, flow, 0);
    if arrivals.len() == 0 {
        at == gs.len()
    } else {
        at < gs.len() && holds(
            gs[at],
            arrivals[0].at,
            fragments(arrivals),
            flow,
            header,
            payload,
        )
    }
}

proof fn lemma_one_more(
    gs: Seq<Group>,
    before: Seq<Arrival>,
    a: Arrival,
    flow: Flow,
    header: Seq<u8>,
    payload: Seq<u8>,
)
    requires
        groups_ok(gs),
        in_flight(gs, before, flow, header, payload),
        0 < payload.len() <= MAX_DATAGRAM_LEN,
        header.len() > 0,
        fragment_of(a.pkt) is Some,
        train(fragments(before.push(a)), flow, header, payload),
        before.len() > 0 ==> a.at < before[0].at + REASSEMBLY_TIMEOUT,
    ensures
        ({
            let all = before.push(a);
            let (after, out) = processed(gs, a.pkt, a.at);
            &&& groups_ok(after)
            &&& carries_all(fragments(all), payload) ==> out == seq![
                rebuilt_header(header, payload.len()) + payload,
            ] && place_of(after, flow, 0) == after.len()
            &&& !carries_all(fragments(all), payload) ==> out == Seq::<Seq<u8>>::empty()
                && in_flight(after, all, flow, header, payload)
        }),
{
    let f = fragment_of(a.pkt)->0;
    let all = before.push(a);
    let fs = fragments(before);
    assert(fragments(all) =~= fs.push(f));
    assert(fragments(all)[before.len() as int] == f);
    assert(part_of(f, flow, header, payload));
    let now = a.at;
    let live = alive(gs, now);
    lemma_alive(gs, now);
    let first = if before.len() == 0 {
        a.at
    } else {
        before[0].at
    };
    lemma_place_of(gs, flow, 0);
    lemma_place_of(live, flow, 0);
    if before.len() == 0 {
        if place_of(live, flow, 0) < live.len() {
            let g = live[place_of(live, flow, 0)];
            assert(gs.contains(g));
        }
    } else {
        let g = gs[place_of(gs, flow, 0)];
        assert(live.contains(g));
        let k = choose|k: int| 0 <= k < live.len() && live[k] == g;
        lemma_place_unique(live, flow, k);
    }
    let groups = with_group(live, flow, now);
    let at = place_of(groups, flow, 0);
    lemma_with_group(live, flow, now);
    let g = groups[at];
    if before.len() == 0 {
        assert(fs =~= Seq::<Fragment>::empty());
    }
    assert(holds(g, first, fs, flow, header, payload));
    lemma_absorb(g, first, fs, f, flow, header, payload);
    lemma_complete_when_carried(absorbed(g, f), first, fs.push(f), flow, header, payload);
    lemma_fragment_header(a.pkt);
    lemma_absorbed_ok(g, f);
    lemma_update_ok(groups, at, absorbed(g, f));
    assert(all[0].at == first);
}

proof fn lemma_carried_grows(fs: Seq<Fragment>, f: Fragment, payload: Seq<u8>)
    requires
        carries_all(fs, payload),
    ensures
        carries_all(fs.push(f), payload),
{
    assert forall|p: int| 0 <= p < payload.len() implies #[trigger] carried(fs.push(f), p) by {
        assert(carried(fs, p));
        let j = choose|j: int|
            0 <= j < fs.len() && (#[trigger] fs[j]).offset <= p < fs[j].offset + fs[j].data.len();
        assert(fs.push(f)[j] == fs[j]);
    }
}

proof fn lemma_train_so_far(
    gs: Seq<Group>,
    arrivals: Seq<Arrival>,
    flow: Flow,
    header: Seq<u8>,
    payload: Seq<u8>,
)
    requires
        groups_ok(gs),
        place_of(gs, flow, 0) == gs.len(),
        0 < payload.len() <= MAX_DATAGRAM_LEN,
        header.len() > 0,
        forall|i: int| 0 <= i < arrivals.len() ==> fragment_of((#[trigger] arrivals[i]).pkt) is Some,
        forall|i: int|
            0 <= i < arrivals.len() ==> (#[trigger] arrivals[i]).at < arrivals[0].at
                + REASSEMBLY_TIMEOUT,
        train(fragments(arrivals), flow, header, payload),
        !carries_all(fragments(arrivals), payload),
    ensures
        groups_ok(run(gs, arrivals).0),
        run(gs, arrivals).1 == Seq::<Seq<u8>>::empty(),
        in_flight(run(gs, arrivals).0, arrivals, flow, header, payload),
    decreases arrivals.len(),
{
    if arrivals.len() > 0 {
        let before = arrivals.drop_last();
        let a = arrivals.last();
        assert(before.push(a) =~= arrivals);
        let fs = fragments(before);
        let f = fragment_of(a.pkt)->0;
        assert(fragments(arrivals) =~= fs.push(f));
        assert forall|i: int| 0 <= i < fs.len() implies part_of(
            #[trigger] fs[i],
            flow,
            header,
            payload,
        ) by {
            assert(fragments(arrivals)[i] == fs[i]);
        }
        assert forall|i: int, j: int| 0 <= i < fs.len() && 0 <= j < fs.len() implies apart(
            #[trigger] fs[i],
            #[trigger] fs[j],
        ) by {
            assert(fragments(arrivals)[i] == fs[i] && fragments(arrivals)[j] == fs[j]);
        }
        if carries_all(fs, payload) {
            lemma_carried_grows(fs, f, payload);
        }
        lemma_train_so_far(gs, before, flow, header, payload);
        assert(arrivals[arrivals.len() - 1] == a);
        lemma_one_more(run(gs, before).0, before, a, flow, header, payload);
        assert(run(gs, arrivals).1 =~= Seq::<Seq<u8>>::empty());
    }
}

/// The fragments of a datagram rebuild it, in whatever order and with whatever
/// duplicates they come: nothing is handed on until the last missing byte is
/// there, and then the datagram, once, and its group is gone. The first of
/// them must find no group of the same flow, and the last must come before the
/// group that the first one opens is given up.
pub proof fn train_is_reassembled(
    gs: Seq<Group>,
    arrivals: Seq<Arrival>,
    flow: Flow,
    header: Seq<u8>,
    payload: Seq<u8>,
)
    requires
        groups_ok(gs),
        place_of(gs, flow, 0) == gs.len(),
        0 < payload.len() <= MAX_DATAGRAM_LEN,
        header.len() > 0,
        arrivals.len() > 0,
        forall|i: int| 0 <= i < arrivals.len() ==> fragment_of((#[trigger] arrivals[i]).pkt) is Some,
        forall|i: int|
            0 <= i < arrivals.len() ==> (#[trigger] arrivals[i]).at < arrivals[0].at
                + REASSEMBLY_TIMEOUT,
        train(fragments(arrivals), flow, header, payload),
        carries_all(fragments(arrivals), payload),
        !carries_all(fragments(arrivals.drop_last()), payload),
    ensures
        run(gs, arrivals).1 == seq![rebuilt_header(header, payload.len()) + payload],
        run(gs, arrivals.drop_last()).1 == Seq::<Seq<u8>>::empty(),
        place_of(run(gs, arrivals).0, flow, 0) == run(gs, arrivals).0.len(),
{
    let before = arrivals.drop_last();
    let a = arrivals.last();
    assert(before.push(a) =~= arrivals);
    let fs = fragments(before);
    assert forall|i: int| 0 <= i < fs.len() implies part_of(
        #[trigger] fs[i],
        flow,
        header,
        payload,
    ) by {
        assert(fragments(arrivals)[i] == fs[i]);
    }
    assert forall|i: int, j: int| 0 <= i < fs.len() && 0 <= j < fs.len() implies apart(
        #[trigger] fs[i],
        #[trigger] fs[j],
    ) by {
        assert(fragments(arrivals)[i] == fs[i] && fragments(arrivals)[j] == fs[j]);
    }
    lemma_train_so_far(gs, before, flow, header, payload);
    assert(arrivals[arrivals.len() - 1] == a);
    lemma_one_more(run(gs, before).0, before, a, flow, header, payload);
    assert(run(gs, arrivals).1 =~= seq![rebuilt_header(header, payload.len()) + payload]);
}

/// An IPv6 datagram comes back bit for bit: its header differs from the one
/// its first fragment carries only in the payload length.
pub proof fn v6_is_bit_exact(datagram: Seq<u8>, header: Seq<u8>)
    requires
        40 <= datagram.len() <= 40 + MAX_DATAGRAM_LEN,
        datagram[0] / 16 == 6,
        bytes::be16(datagram[4], datagram[5]) == datagram.len() - 40,
        header.len() == 40,
        forall|i: int| 0 <= i < 40 && i != 4 && i != 5 ==> header[i] == datagram[i],
    ensures
        rebuilt_header(header, (datagram.len() - 40) as nat) + datagram.skip(40) == datagram,
{
    let t = (datagram.len() - 40) as nat;
    assert(bytes::be16_bytes(t)[0] == datagram[4]);
    assert(bytes::be16_bytes(t)[1] == datagram[5]);
    assert(rebuilt_header(header, t) =~= datagram.take(40));
    assert(datagram.take(40) + datagram.skip(40) =~= datagram);
}

/// An IPv4 datagram that is not fragmented: its fragment word is clear, and its
/// checksum is computed anew.
pub open spec fn whole_v4(datagram: Seq<u8>) -> Seq<u8> {
    let bare = put16(put16(datagram.take(ihl(datagram) as int), 6, 0), 10, 0);
    put16(bare, 10, checksum(bare)) + datagram.skip(ihl(datagram) as int)
}

/// An IPv4 datagram comes back but for its fragment word and its checksum: its
/// header differs from the one its first fragment carries only in the length,
/// the fragment word and the checksum.
pub proof fn v4_is_exact_but_for_fragmentation(datagram: Seq<u8>, header: Seq<u8>)
    requires
        20 <= ihl(datagram) <= datagram.len() <= 65535,
        datagram[0] / 16 == 4,
        bytes::be16(datagram[2], datagram[3]) == datagram.len(),
        header.len() == ihl(datagram),
        forall|i: int|
            0 <= i < header.len() && i != 2 && i != 3 && i != 6 && i != 7 && i != 10 && i != 11
                ==> header[i] == datagram[i],
    ensures
        rebuilt_header(header, (datagram.len() - header.len()) as nat) + datagram.skip(
            header.len() as int,
        ) == whole_v4(datagram),
{
    let n = datagram.len();
    assert(bytes::be16_bytes(n)[0] == datagram[2]);
    assert(bytes::be16_bytes(n)[1] == datagram[3]);
    let bare = put16(put16(put16(header, 2, n), 6, 0), 10, 0);
    assert(bare =~= put16(put16(datagram.take(header.len() as int), 6, 0), 10, 0));
}

proof fn lemma_word_sum_put(b: Seq<u8>, i: int, n: nat)
    requires
        0 <= i,
        i % 2 == 0,
        i + 2 <= b.len(),
        n < 65536,
    ensures
        word_sum(put16(b, i, n)) == word_sum(b) - bytes::be16(b[i], b[i + 1]) + n,
    decreases b.len(),
{
    let c = put16(b, i, n);
    if b.len() % 2 == 1 {
        lemma_word_sum_put(b.drop_last(), i, n);
        assert(c.drop_last() =~= put16(b.drop_last(), i, n));
    } else if i + 2 == b.len() {
        assert(c.drop_last().drop_last() =~= b.drop_last().drop_last());
    } else {
        let r = b.drop_last().drop_last();
        lemma_word_sum_put(r, i, n);
        assert(c.drop_last().drop_last() =~= put16(r, i, n));
    }
}

/// A rebuilt IPv4 header is valid and differs from the fragment's only where
/// it must: its words sum to all ones, its length field is that of the whole
/// datagram, and its fragment word is clear.
pub proof fn rebuilt_v4_header_is_valid(header: Seq<u8>, total: nat)
    requires
        20 <= header.len() <= 60,
        header[0] / 16 == 4,
    ensures
        ({
            let h = rebuilt_header(header, total);
            &&& h.len() == header.len()
            &&& folded(word_sum(h)) == 65535
            &&& bytes::be16(h[2], h[3]) == (header.len() + total) % 65536
            &&& h[6] == 0 && h[7] == 0
            &&& forall|i: int|
                0 <= i < header.len() && i != 2 && i != 3 && i != 6 && i != 7 && i != 10 && i != 11
                    ==> h[i] == header[i]
        }),
{
    let bare = put16(put16(put16(header, 2, header.len() + total), 6, 0), 10, 0);
    lemma_word_sum_put(bare, 0, 0);
    assert(bare[0] == header[0]);
    let sum = word_sum(bare);
    assert(sum >= 16384);
    let c = checksum(bare);
    lemma_word_sum_put(bare, 10, c);
    assert((sum - 1) % 65535 == (sum - 1) - (sum - 1) / 65535 * 65535);
    let full = (sum + c) as nat;
    assert(full == ((sum - 1) / 65535 + 1) * 65535);
    let q = ((sum - 1) / 65535 + 1) as nat;
    assert((full - 1) % 65535 == 65534) by (nonlinear_arith)
        requires
            full == q * 65535,
            q >= 1,
    ;
}

/// A packet leaves the groups of other flows as they are, as long as they are
/// not due and the packet needs no room of theirs.
pub proof fn other_flows_are_untouched(gs: Seq<Group>, pkt: Seq<u8>, now: nat, flow: Flow)
    requires
        groups_ok(gs),
        place_of(gs, flow, 0) < gs.len(),
        gs[place_of(gs, flow, 0)].deadline > now,
        fragment_of(pkt) is Some ==> fragment_of(pkt)->0.flow != flow,
        fragment_of(pkt) is Some ==> alive(gs, now).len() < MAX_GROUPS || place_of(
            alive(gs, now),
            fragment_of(pkt)->0.flow,
            0,
        ) < alive(gs, now).len(),
    ensures
        ({
            let after = processed(gs, pkt, now).0;
            &&& place_of(after, flow, 0) < after.len()
            &&& after[place_of(after, flow, 0)] == gs[place_of(gs, flow, 0)]
        }),
{
    let live = alive(gs, now);
    lemma_alive(gs, now);
    lemma_place_of(gs, flow, 0);
    let g = gs[place_of(gs, flow, 0)];
    assert(live.contains(g));
    let k = choose|k: int| 0 <= k < live.len() && live[k] == g;
    lemma_place_unique(live, flow, k);
    bounds_are_kept(gs, pkt, now);
    if fragment_of(pkt) is Some {
        let f = fragment_of(pkt)->0;
        if f.offset + f.data.len() <= MAX_DATAGRAM_LEN {
            let all = with_group(live, f.flow, now);
            let at = place_of(all, f.flow, 0);
            lemma_with_group(live, f.flow, now);
            lemma_place_of(all, f.flow, 0);
            assert(all[k] == g);
            assert(k != at);
            let g2 = absorbed(all[at], f);
            if overfull(all[at], f) || !complete(g2) {
                assert(all.update(at, g2)[k] == g);
                lemma_place_unique(all.update(at, g2), flow, k);
            } else {
                let k2 = if k < at {
                    k
                } else {
                    k - 1
                };
                assert(all.remove(at)[k2] == g);
                lemma_place_unique(all.remove(at), flow, k2);
            }
        }
    }
}

/// Whether a packet is a fragment of a flow.
pub open spec fn belongs(a: Arrival, flow: Flow) -> bool {
    fragment_of(a.pkt) matches Some(f) && f.flow == flow
}

/// The packets that are fragments of a flow.
pub open spec fn of_flow(arrivals: Seq<Arrival>, flow: Flow) -> Seq<Arrival> {
    arrivals.filter(|a: Arrival| belongs(a, flow))
}

/// What a run of packets hands on for the fragments of a flow.
pub open spec fn handed_on(gs: Seq<Group>, arrivals: Seq<Arrival>, flow: Flow) -> Seq<Seq<u8>>
    decreases arrivals.len(),
{
    if arrivals.len() == 0 {
        Seq::empty()
    } else {
        let before = arrivals.drop_last();
        let a = arrivals.last();
        if belongs(a, flow) {
            handed_on(gs, before, flow) + processed(run(gs, before).0, a.pkt, a.at).1
        } else {
            handed_on(gs, before, flow)
        }
    }
}

/// Whether packets came one after the other.
pub open spec fn in_time(arrivals: Seq<Arrival>) -> bool {
    forall|i: int, j: int|
        0 <= i <= j < arrivals.len() ==> (#[trigger] arrivals[i]).at <= (#[trigger] arrivals[j]).at
}

/// Whether the fragments among packets are all of these flows.
pub open spec fn only_of(arrivals: Seq<Arrival>, flows: Set<Flow>) -> bool {
    forall|i: int|
        0 <= i < arrivals.len() ==> (fragment_of((#[trigger] arrivals[i]).pkt) matches Some(f)
            ==> flows.contains(f.flow))
}

/// The group of a flow.
spec fn found(gs: Seq<Group>, flow: Flow) -> Option<Group> {
    let at = place_of(gs, flow, 0);
    if at < gs.len() {
        Some(gs[at])
    } else {
        None
    }
}

/// The group of a flow that is not due at `now`.
spec fn held(gs: Seq<Group>, flow: Flow, now: nat) -> Option<Group> {
    match found(gs, flow) {
        Some(g) => if g.deadline > now {
            Some(g)
        } else {
            None
        },
        None => None,
    }
}

proof fn lemma_held(gs: Seq<Group>, flow: Flow, now: nat)
    requires
        groups_ok(gs),
    ensures
        found(alive(gs, now), flow) == held(gs, flow, now),
        groups_ok(alive(gs, now)),
{
    let live = alive(gs, now);
    lemma_alive(gs, now);
    lemma_place_of(gs, flow, 0);
    lemma_place_of(live, flow, 0);
    let at = place_of(gs, flow, 0);
    if at < gs.len() && gs[at].deadline > now {
        assert(live.contains(gs[at]));
        let k = choose|k: int| 0 <= k < live.len() && live[k] == gs[at];
        lemma_place_unique(live, flow, k);
    } else if place_of(live, flow, 0) < live.len() {
        let g = live[place_of(live, flow, 0)];
        assert(gs.contains(g));
        let k = choose|k: int| 0 <= k < gs.len() && gs[k] == g;
        lemma_place_unique(gs, flow, k);
    }
}

/// A fragment meets the group of its flow alone.
proof fn lemma_own_step(gs: Seq<Group>, hs: Seq<Group>, a: Arrival, flow: Flow)
    requires
        groups_ok(gs),
        groups_ok(hs),
        belongs(a, flow),
        held(gs, flow, a.at) == held(hs, flow, a.at),
    ensures
        processed(gs, a.pkt, a.at).1 == processed(hs, a.pkt, a.at).1,
        found(processed(gs, a.pkt, a.at).0, flow) == found(processed(hs, a.pkt, a.at).0, flow),
{
    let f = fragment_of(a.pkt)->0;
    let lg = alive(gs, a.at);
    let lh = alive(hs, a.at);
    lemma_held(gs, flow, a.at);
    lemma_held(hs, flow, a.at);
    if f.offset + f.data.len() <= MAX_DATAGRAM_LEN {
        lemma_with_group(lg, flow, a.at);
        lemma_with_group(lh, flow, a.at);
        let all_g = with_group(lg, flow, a.at);
        let all_h = with_group(lh, flow, a.at);
        let at_g = place_of(all_g, flow, 0);
        let at_h = place_of(all_h, flow, 0);
        lemma_place_of(all_g, flow, 0);
        assert(all_g[at_g] == all_h[at_h]);
        lemma_fragment_header(a.pkt);
        lemma_absorbed_ok(all_g[at_g], f);
        lemma_update_ok(all_g, at_g, absorbed(all_g[at_g], f));
        lemma_update_ok(all_h, at_h, absorbed(all_h[at_h], f));
    }
}

/// A packet that is no fragment of a flow leaves its group as it is, where it
/// needs no room of it.
proof fn lemma_other_step(gs: Seq<Group>, a: Arrival, flow: Flow)
    requires
        groups_ok(gs),
        !belongs(a, flow),
        fragment_of(a.pkt) is Some ==> alive(gs, a.at).len() < MAX_GROUPS || place_of(
            alive(gs, a.at),
            fragment_of(a.pkt)->0.flow,
            0,
        ) < alive(gs, a.at).len(),
    ensures
        found(processed(gs, a.pkt, a.at).0, flow) == held(gs, flow, a.at),
{
    let live = alive(gs, a.at);
    lemma_held(gs, flow, a.at);
    lemma_place_of(live, flow, 0);
    let k = place_of(live, flow, 0);
    bounds_are_kept(gs, a.pkt, a.at);
    let after = processed(gs, a.pkt, a.at).0;
    if fragment_of(a.pkt) is Some {
        let f = fragment_of(a.pkt)->0;
        if f.offset + f.data.len() <= MAX_DATAGRAM_LEN {
            let all = with_group(live, f.flow, a.at);
            let at = place_of(all, f.flow, 0);
            lemma_with_group(live, f.flow, a.at);
            lemma_place_of(all, f.flow, 0);
            assert forall|i: int| 0 <= i < all.len() && (#[trigger] all[i]).flow == flow implies i
                == k by {
                assert(i < live.len());
                lemma_place_unique(live, flow, i);
            }
            if k < live.len() {
                assert(all[k] == live[k]);
                assert(k != at);
                let k2 = if after.len() < all.len() && k > at {
                    k - 1
                } else {
                    k
                };
                assert(after[k2] == live[k]);
                lemma_place_unique(after, flow, k2);
            } else {
                lemma_place_of(after, flow, 0);
                let j = place_of(after, flow, 0);
                if j < after.len() {
                    if after.len() == all.len() {
                        assert(after[j].flow == all[j].flow);
                    } else if j < at {
                        assert(after[j] == all[j]);
                    } else {
                        assert(after[j] == all[j + 1]);
                    }
                }
            }
        }
    }
}

/// Groups of different flows are no more than the flows.
proof fn lemma_room(live: Seq<Group>, flow: Flow, flows: Set<Flow>)
    requires
        groups_ok(live),
        flows.finite(),
        flows.len() <= MAX_GROUPS,
        flows.contains(flow),
        forall|i: int| 0 <= i < live.len() ==> flows.contains((#[trigger] live[i]).flow),
    ensures
        live.len() < MAX_GROUPS || place_of(live, flow, 0) < live.len(),
{
    lemma_place_of(live, flow, 0);
    if place_of(live, flow, 0) == live.len() {
        let names = Seq::new(live.len(), |i: int| live[i].flow).push(flow);
        assert forall|i: int, j: int|
            0 <= i < names.len() && 0 <= j < names.len() && i != j implies names[i] != names[j] by {
            if i < j {
                if j < live.len() {
                    assert(live[i].flow != live[j].flow);
                } else {
                    assert(live[i].flow != flow);
                }
            } else {
                if i < live.len() {
                    assert(live[j].flow != live[i].flow);
                } else {
                    assert(live[j].flow != flow);
                }
            }
        }
        names.unique_seq_to_set();
        assert(names.to_set().subset_of(flows));
        vstd::set_lib::lemma_len_subset(names.to_set(), flows);
    }
}

/// The groups are of flows that fragments had.
proof fn lemma_flows_kept(gs: Seq<Group>, a: Arrival, flows: Set<Flow>)
    requires
        groups_ok(gs),
        forall|i: int| 0 <= i < gs.len() ==> flows.contains((#[trigger] gs[i]).flow),
        fragment_of(a.pkt) matches Some(f) ==> flows.contains(f.flow),
    ensures
        ({
            let after = processed(gs, a.pkt, a.at).0;
            forall|i: int| 0 <= i < after.len() ==> flows.contains((#[trigger] after[i]).flow)
        }),
        forall|i: int|
            0 <= i < alive(gs, a.at).len() ==> flows.contains((#[trigger] alive(gs, a.at)[i]).flow),
{
    let live = alive(gs, a.at);
    lemma_alive(gs, a.at);
    assert forall|i: int| 0 <= i < live.len() implies flows.contains((#[trigger] live[i]).flow) by {
        assert(gs.contains(live[i]));
    }
    if fragment_of(a.pkt) is Some {
        let f = fragment_of(a.pkt)->0;
        if f.offset + f.data.len() <= MAX_DATAGRAM_LEN {
            let all = with_group(live, f.flow, a.at);
            let at = place_of(all, f.flow, 0);
            lemma_with_group(live, f.flow, a.at);
            lemma_place_of(all, f.flow, 0);
            if live.len() > 0 {
                lemma_oldest(live);
            }
            let o = oldest(live);
            assert forall|i: int| 0 <= i < all.len() implies flows.contains(
                (#[trigger] all[i]).flow,
            ) by {
                if i == all.len() - 1 && all.last() == opened(f.flow, a.at) {
                } else if all.len() == live.len() && place_of(live, f.flow, 0) >= live.len() {
                    assert(all[i] == if i < o {
                        live[i]
                    } else {
                        live[i + 1]
                    });
                } else {
                    assert(all[i] == live[i]);
                }
            }
            let after = processed(gs, a.pkt, a.at).0;
            assert forall|i: int| 0 <= i < after.len() implies flows.contains(
                (#[trigger] after[i]).flow,
            ) by {
                if after.len() == all.len() {
                    assert(after[i].flow == all[i].flow);
                } else if i < at {
                    assert(after[i] == all[i]);
                } else {
                    assert(after[i] == all[i + 1]);
                }
            }
        }
    }
}

proof fn lemma_as_alone(arrivals: Seq<Arrival>, flow: Flow, flows: Set<Flow>)
    requires
        in_time(arrivals),
        flows.finite(),
        flows.len() <= MAX_GROUPS,
        only_of(arrivals, flows),
    ensures
        ({
            let gs = run(Seq::empty(), arrivals).0;
            let hs = run(Seq::empty(), of_flow(arrivals, flow)).0;
            &&& groups_ok(gs)
            &&& groups_ok(hs)
            &&& forall|i: int| 0 <= i < gs.len() ==> flows.contains((#[trigger] gs[i]).flow)
            &&& forall|now: nat|
                (arrivals.len() > 0 ==> arrivals.last().at <= now) ==> #[trigger] held(gs, flow, now)
                    == held(hs, flow, now)
        }),
        handed_on(Seq::empty(), arrivals, flow) == run(Seq::empty(), of_flow(arrivals, flow)).1,
    decreases arrivals.len(),
{
    reveal(Seq::filter);
    let mine = of_flow(arrivals, flow);
    if arrivals.len() == 0 {
        assert(mine =~= Seq::<Arrival>::empty());
    } else {
        let before = arrivals.drop_last();
        let a = arrivals.last();
        assert(arrivals[arrivals.len() - 1] == a);
        assert forall|i: int, j: int| 0 <= i <= j < before.len() implies (#[trigger] before[i]).at
            <= (#[trigger] before[j]).at by {
            assert(arrivals[i] == before[i] && arrivals[j] == before[j]);
        }
        assert forall|i: int| 0 <= i < before.len() implies (fragment_of(
            (#[trigger] before[i]).pkt,
        ) matches Some(f) ==> flows.contains(f.flow)) by {
            assert(arrivals[i] == before[i]);
        }
        lemma_as_alone(before, flow, flows);
        if before.len() > 0 {
            assert(before.last() == arrivals[before.len() - 1]);
        }
        let gs = run(Seq::empty(), before).0;
        let hs = run(Seq::empty(), of_flow(before, flow)).0;
        let after = processed(gs, a.pkt, a.at).0;
        assert(run(Seq::empty(), arrivals).0 == after);
        assert(held(gs, flow, a.at) == held(hs, flow, a.at));
        bounds_are_kept(gs, a.pkt, a.at);
        lemma_flows_kept(gs, a, flows);
        if belongs(a, flow) {
            assert(mine == of_flow(before, flow).push(a));
            assert(mine.drop_last() =~= of_flow(before, flow));
            bounds_are_kept(hs, a.pkt, a.at);
            lemma_own_step(gs, hs, a, flow);
        } else {
            assert(mine == of_flow(before, flow));
            if fragment_of(a.pkt) is Some {
                lemma_held(gs, flow, a.at);
                lemma_room(alive(gs, a.at), fragment_of(a.pkt)->0.flow, flows);
            }
            lemma_other_step(gs, a, flow);
            assert forall|now: nat| a.at <= now implies #[trigger] held(after, flow, now) == held(
                hs,
                flow,
                now,
            ) by {
                assert(held(gs, flow, now) == held(hs, flow, now));
            }
        }
    }
}

/// Flows do not mix: as long as no more of them are about than groups can be
/// kept, what a fresh reassembler hands on for the fragments of one flow is what
/// it hands on when they come alone.
pub proof fn flows_do_not_mix(arrivals: Seq<Arrival>, flow: Flow, flows: Set<Flow>)
    requires
        in_time(arrivals),
        flows.finite(),
        flows.len() <= MAX_GROUPS,
        only_of(arrivals, flows),
    ensures
        handed_on(Seq::empty(), arrivals, flow) == run(Seq::empty(), of_flow(arrivals, flow)).1,
{
    lemma_as_alone(arrivals, flow, flows);
}

/// Whether `all` is `a` and `b` put together, each in its order.
pub open spec fn merges(all: Seq<Seq<u8>>, a: Seq<Seq<u8>>, b: Seq<Seq<u8>>) -> bool
    decreases all.len(),
{
    if all.len() == 0 {
        a.len() == 0 && b.len() == 0
    } else {
        ||| a.len() > 0 && a.last() == all.last() && merges(all.drop_last(), a.drop_last(), b)
        ||| b.len() > 0 && b.last() == all.last() && merges(all.drop_last(), a, b.drop_last())
    }
}

proof fn lemma_merges(arrivals: Seq<Arrival>, one: Flow, two: Flow)
    requires
        one != two,
        forall|i: int|
            0 <= i < arrivals.len() ==> belongs(#[trigger] arrivals[i], one) || belongs(
                arrivals[i],
                two,
            ),
    ensures
        merges(
            run(Seq::empty(), arrivals).1,
            handed_on(Seq::empty(), arrivals, one),
            handed_on(Seq::empty(), arrivals, two),
        ),
    decreases arrivals.len(),
{
    if arrivals.len() > 0 {
        let before = arrivals.drop_last();
        let a = arrivals.last();
        assert forall|i: int| 0 <= i < before.len() implies belongs(#[trigger] before[i], one)
            || belongs(before[i], two) by {
            assert(arrivals[i] == before[i]);
        }
        lemma_merges(before, one, two);
        assert(arrivals[arrivals.len() - 1] == a);
        let outs = run(Seq::empty(), before).1;
        let x = handed_on(Seq::empty(), before, one);
        let y = handed_on(Seq::empty(), before, two);
        let new = processed(run(Seq::empty(), before).0, a.pkt, a.at).1;
        if new.len() == 0 {
            assert(outs + new =~= outs);
            assert(x + new =~= x);
            assert(y + new =~= y);
        } else {
            assert((outs + new).drop_last() =~= outs);
            assert((x + new).drop_last() =~= x);
            assert((y + new).drop_last() =~= y);
        }
    }
}

/// The fragments of two flows that come interleaved into a fresh reassembler
/// give together what each gives alone.
pub proof fn interleaved_flows_give_what_each_gives(
    arrivals: Seq<Arrival>,
    one: Flow,
    two: Flow,
)
    requires
        one != two,
        in_time(arrivals),
        forall|i: int|
            0 <= i < arrivals.len() ==> belongs(#[trigger] arrivals[i], one) || belongs(
                arrivals[i],
                two,
            ),
    ensures
        merges(
            run(Seq::empty(), arrivals).1,
            run(Seq::empty(), of_flow(arrivals, one)).1,
            run(Seq::empty(), of_flow(arrivals, two)).1,
        ),
{
    let flows = Set::<Flow>::empty().insert(one).insert(two);
    assert(flows.len() <= 2);
    assert forall|i: int| 0 <= i < arrivals.len() implies (fragment_of(
        (#[trigger] arrivals[i]).pkt,
    ) matches Some(f) ==> flows.contains(f.flow)) by {
        assert(belongs(arrivals[i], one) || belongs(arrivals[i], two));
    }
    flows_do_not_mix(arrivals, one, flows);
    flows_do_not_mix(arrivals, two, flows);
    lemma_merges(arrivals, one, two);
}

/// Two datagrams whose fragments come interleaved are both rebuilt, each once,
/// as long as each has all its fragments in before its group is given up.
pub proof fn interleaved_trains_are_reassembled(
    arrivals: Seq<Arrival>,
    one: Flow,
    header: Seq<u8>,
    payload: Seq<u8>,
    two: Flow,
    header2: Seq<u8>,
    payload2: Seq<u8>,
)
    requires
        one != two,
        in_time(arrivals),
        forall|i: int|
            0 <= i < arrivals.len() ==> belongs(#[trigger] arrivals[i], one) || belongs(
                arrivals[i],
                two,
            ),
        whole_train(of_flow(arrivals, one), one, header, payload),
        whole_train(of_flow(arrivals, two), two, header2, payload2),
    ensures
        ({
            let a = rebuilt_header(header, payload.len()) + payload;
            let b = rebuilt_header(header2, payload2.len()) + payload2;
            run(Seq::empty(), arrivals).1 == seq![a, b] || run(Seq::empty(), arrivals).1 == seq![
                b,
                a,
            ]
        }),
{
    let a = rebuilt_header(header, payload.len()) + payload;
    let b = rebuilt_header(header2, payload2.len()) + payload2;
    interleaved_flows_give_what_each_gives(arrivals, one, two);
    train_is_reassembled(Seq::empty(), of_flow(arrivals, one), one, header, payload);
    train_is_reassembled(Seq::empty(), of_flow(arrivals, two), two, header2, payload2);
    let all = run(Seq::empty(), arrivals).1;
    reveal_with_fuel(merges, 4);
    assert(merges(all, seq![a], seq![b]));
    assert(seq![a].drop_last() =~= Seq::<Seq<u8>>::empty());
    assert(seq![b].drop_last() =~= Seq::<Seq<u8>>::empty());
    assert(all.len() == 2);
    assert(all =~= seq![a, b] || all =~= seq![b, a]);
}

/// Whether packets are the fragments of one datagram, of which the last one
/// completes it, and none comes so late that the group of the first is given up.
pub open spec fn whole_train(
    arrivals: Seq<Arrival>,
    flow: Flow,
    header: Seq<u8>,
    payload: Seq<u8>,
) -> bool {
    &&& 0 < payload.len() <= MAX_DATAGRAM_LEN
    &&& header.len() > 0
    &&& arrivals.len() > 0
    &&& forall|i: int|
        0 <= i < arrivals.len() ==> fragment_of((#[trigger] arrivals[i]).pkt) is Some
    &&& forall|i: int|
        0 <= i < arrivals.len() ==> (#[trigger] arrivals[i]).at < arrivals[0].at
            + REASSEMBLY_TIMEOUT
    &&& train(fragments(arrivals), flow, header, payload)
    &&& carries_all(fragments(arrivals), payload)
    &&& !carries_all(fragments(arrivals.drop_last()), payload)
}

proof fn lemma_alive_twice(gs: Seq<Group>, now: nat)
    ensures
        alive(alive(gs, now), now) == alive(gs, now),
    decreases gs.len(),
{
    reveal(Seq::filter);
    if gs.len() > 0 {
        let rest = gs.drop_last();
        lemma_alive_twice(rest, now);
        let live = alive(rest, now);
        if gs.last().deadline > now {
            assert(alive(gs, now) == live.push(gs.last()));
            assert(live.push(gs.last()).drop_last() =~= live);
        } else {
            assert(alive(gs, now) == live);
        }
    }
}

/// A group that is due is gone before a packet is looked at: what the packet
/// does is what it does without it. No fragment puts off when its group is due,
/// and no more than one packet is handed on.
pub proof fn stale_groups_make_no_difference(gs: Seq<Group>, pkt: Seq<u8>, now: nat)
    requires
        groups_ok(gs),
    ensures
        processed(gs, pkt, now) == processed(alive(gs, now), pkt, now),
        processed(gs, pkt, now).1.len() <= 1,
        ({
            let after = processed(gs, pkt, now).0;
            forall|i: int|
                0 <= i < after.len() ==> (#[trigger] after[i]).deadline > now && (
                after[i].deadline == now + REASSEMBLY_TIMEOUT || has_due(
                    gs,
                    after[i].flow,
                    after[i].deadline,
                ))
        }),
{
    lemma_alive_twice(gs, now);
    lemma_alive(gs, now);
    let live = alive(gs, now);
    let after = processed(gs, pkt, now).0;
    assert forall|i: int| 0 <= i < live.len() implies has_due(
        gs,
        (#[trigger] live[i]).flow,
        live[i].deadline,
    ) by {
        assert(gs.contains(live[i]));
        let k = choose|k: int| 0 <= k < gs.len() && gs[k] == live[i];
        assert(gs[k].flow == live[i].flow);
    }
    if fragment_of(pkt) is Some {
        let f = fragment_of(pkt)->0;
        if f.offset + f.data.len() <= MAX_DATAGRAM_LEN {
            let all = with_group(live, f.flow, now);
            let at = place_of(all, f.flow, 0);
            lemma_with_group(live, f.flow, now);
            lemma_place_of(all, f.flow, 0);
            if live.len() > 0 {
                lemma_oldest(live);
            }
            let o = oldest(live);
            assert forall|i: int| 0 <= i < all.len() implies (#[trigger] all[i]).deadline > now && (
            all[i].deadline == now + REASSEMBLY_TIMEOUT || has_due(
                gs,
                all[i].flow,
                all[i].deadline,
            )) by {
                if i == all.len() - 1 && all.last() == opened(f.flow, now) {
                } else if all.len() == live.len() && place_of(live, f.flow, 0) >= live.len() {
                    assert(all[i] == if i < o {
                        live[i]
                    } else {
                        live[i + 1]
                    });
                } else {
                    assert(all[i] == live[i]);
                }
            }
            assert forall|i: int| 0 <= i < after.len() implies (#[trigger] after[i]).deadline > now
                && (after[i].deadline == now + REASSEMBLY_TIMEOUT || has_due(
                gs,
                after[i].flow,
                after[i].deadline,
            )) by {
                if after.len() == all.len() {
                    assert(after[i].flow == all[i].flow && after[i].deadline == all[i].deadline);
                } else if i < at {
                    assert(after[i] == all[i]);
                } else {
                    assert(after[i] == all[i + 1]);
                }
            }
        }
    }
}

/// Whether a group of a flow is there that is due at a time.
pub open spec fn has_due(gs: Seq<Group>, flow: Flow, deadline: nat) -> bool {
    exists|k: int|
        0 <= k < gs.len() && (#[trigger] gs[k]).flow == flow && gs[k].deadline == deadline
}

proof fn lemma_v4_bits(hi: u8, lo: u8)
    by (bit_vector)
    ensures
        (hi * 256 + lo) / 8192 % 2 == 1 <==> hi & 0x20 != 0,
        (hi * 256 + lo) % 8192 == (hi & 0x1f) * 256 + lo,
{
}

proof fn lemma_v6_bits(hi: u8, lo: u8)
    by (bit_vector)
    ensures
        (hi * 256 + lo) % 2 == 1 <==> lo & 0x01 != 0,
        (hi * 256 + lo) / 8 * 8 == hi * 256 + (lo & 0xf8),
{
}

proof fn lemma_first_byte(b: u8)
    by (bit_vector)
    ensures
        b / 16 == b >> 4,
        b % 16 == b & 0x0f,
{
}

/// Of an IPv4 packet whose header is whole, the flag for more fragments and the
/// thirteen bits of offset say whether it is a fragment. One that is has its
/// offset counted in units of eight bytes, the payload behind its header, and
/// belongs to the datagram that its addresses, protocol and number name.
pub proof fn v4_fragments_are_known_by_their_header(pkt: Seq<u8>)
    requires
        pkt.len() >= 20,
        pkt[0] >> 4 == 4,
        20 <= (pkt[0] & 0x0f) * 4 <= pkt.len(),
    ensures
        ({
            let more = pkt[6] & 0x20 != 0;
            let offset = ((pkt[6] & 0x1f) * 256 + pkt[7]) * 8;
            let head = (pkt[0] & 0x0f) * 4;
            &&& fragment_of(pkt) is None <==> !more && offset == 0
            &&& fragment_of(pkt) matches Some(f) ==> {
                &&& f.more == more
                &&& f.offset == offset
                &&& f.header == pkt.take(head)
                &&& f.header + f.data == pkt
                &&& f.flow == (Flow::V4 {
                    src: pkt.subrange(12, 16),
                    dst: pkt.subrange(16, 20),
                    proto: pkt[9],
                    id: (pkt[4] * 256 + pkt[5]) as nat,
                })
            }
        }),
{
    lemma_v4_bits(pkt[6], pkt[7]);
    lemma_first_byte(pkt[0]);
    if let Some(f) = fragment_of(pkt) {
        assert(f.header + f.data =~= pkt);
    }
}

/// An IPv6 packet with a fragment header right behind its own is a fragment. Its
/// offset is counted in bytes, in steps of eight, its payload stands behind the
/// fragment header, and it belongs to the datagram that its addresses and its
/// number name. What is rebuilt names what follows the fragment header.
pub proof fn v6_fragments_are_known_by_their_header(pkt: Seq<u8>)
    requires
        pkt.len() >= 48,
        pkt[0] >> 4 == 6,
    ensures
        fragment_of(pkt) is Some <==> pkt[6] == 44,
        fragment_of(pkt) matches Some(f) ==> {
            &&& f.more <==> pkt[43] & 0x01 != 0
            &&& f.offset == pkt[42] * 256 + (pkt[43] & 0xf8)
            &&& f.header.len() == 40 && f.header[6] == pkt[40]
            &&& forall|i: int| 0 <= i < 40 && i != 6 ==> #[trigger] f.header[i] == pkt[i]
            &&& f.data == pkt.skip(48)
            &&& f.flow == (Flow::V6 {
                src: pkt.subrange(8, 24),
                dst: pkt.subrange(24, 40),
                id: (pkt[44] * 0x100_0000 + pkt[45] * 0x1_0000 + pkt[46] * 0x100 + pkt[47]) as nat,
            })
        },
{
    lemma_v6_bits(pkt[42], pkt[43]);
    lemma_first_byte(pkt[0]);
}

/// A packet that is neither IPv4 nor IPv6, or is too short for its headers, is
/// no fragment; and what is no fragment is handed on at once, as it is.
pub proof fn whole_packets_pass(gs: Seq<Group>, pkt: Seq<u8>, now: nat)
    ensures
        pkt.len() < 20 ==> fragment_of(pkt) is None,
        pkt.len() >= 1 && pkt[0] >> 4 != 4 && pkt[0] >> 4 != 6 ==> fragment_of(pkt) is None,
        pkt.len() >= 20 && pkt[0] >> 4 == 4 && !(20 <= (pkt[0] & 0x0f) * 4 <= pkt.len())
            ==> fragment_of(pkt) is None,
        20 <= pkt.len() < 48 && pkt[0] >> 4 == 6 ==> fragment_of(pkt) is None,
        fragment_of(pkt) is None ==> processed(gs, pkt, now).1 == seq![pkt],
{
    if pkt.len() >= 1 {
        lemma_first_byte(pkt[0]);
    }
}

/// A datagram waits five seconds for its fragments, and as many as 256 wait at
/// once; a fragment that reaches past what a datagram can hold is dropped.
pub proof fn waiting_is_limited(gs: Seq<Group>, pkt: Seq<u8>, now: nat)
    requires
        groups_ok(gs),
    ensures
        forall|flow: Flow| (#[trigger] opened(flow, now)).deadline == now + 5_000,
        processed(gs, pkt, now).0.len() <= 256,
        fragment_of(pkt) matches Some(f) ==> f.offset + f.data.len() > 65_535 ==> processed(
            gs,
            pkt,
            now,
        ) == (alive(gs, now), Seq::<Seq<u8>>::empty()),
{
    bounds_are_kept(gs, pkt, now);
}

} // verus!
