//! IP and socket addresses, and their text.

use vstd::prelude::*;
use vstd::string::*;
use crate::text;

verus! {

/// An IP address: the four octets of an IPv4 address, or the eight groups of
/// an IPv6 address.
#[derive(Clone, Copy, Debug, PartialEq, Eq, Hash)]
pub enum IpAddr {
    V4([u8; 4]),
    V6([u16; 8]),
}

/// An address and a port; an IPv6 address may carry the index of the interface
/// it is scoped to, which is zero for none.
#[derive(Clone, Copy, Debug, PartialEq, Eq, Hash)]
pub struct SocketAddr {
    pub ip: IpAddr,
    pub port: u16,
    pub scope: u32,
}

/// One octet of an IPv4 literal: one to three digits without a leading zero.
pub open spec fn octet_in(s: Seq<char>) -> Option<nat> {
    if s.len() > 3 || (s.len() > 1 && s[0] == '0') {
        None
    } else {
        text::number_in(s, 10, 255)
    }
}

/// The octets of an IPv4 literal.
pub open spec fn v4_in(s: Seq<char>) -> Option<Seq<u8>> {
    let parts = text::split(s, '.');
    if parts.len() == 4 && (forall|i: int| 0 <= i < 4 ==> octet_in(#[trigger] parts[i]) is Some) {
        Some(Seq::new(4, |i: int| octet_in(parts[i])->0 as u8))
    } else {
        None
    }
}

/// One group of an IPv6 literal: one to four hexadecimal digits.
pub open spec fn group_in(s: Seq<char>) -> Option<nat> {
    if s.len() > 4 {
        None
    } else {
        text::number_in(s, 16, 65535)
    }
}

/// The two groups that four octets make.
pub open spec fn groups_of_octets(o: Seq<u8>) -> Seq<u16> {
    seq![(o[0] * 256 + o[1]) as u16, (o[2] * 256 + o[3]) as u16]
}

/// The groups that the parts of an IPv6 literal stand for; where `v4` is set
/// the last part may be an IPv4 literal, which stands for two.
pub open spec fn groups_in(parts: Seq<Seq<char>>, v4: bool) -> Option<Seq<u16>>
    decreases parts.len(),
{
    if parts.len() == 0 {
        Some(Seq::empty())
    } else {
        let before = groups_in(parts.drop_last(), false);
        let last = if v4 && v4_in(parts.last()) is Some {
            Some(groups_of_octets(v4_in(parts.last())->0))
        } else if group_in(parts.last()) is Some {
            Some(seq![group_in(parts.last())->0 as u16])
        } else {
            None
        };
        if before is Some && last is Some {
            Some(before->0 + last->0)
        } else {
            None
        }
    }
}

/// The first empty part at or after `from` and before the last, or the place
/// of the last.
pub open spec fn gap_in(parts: Seq<Seq<char>>, from: int) -> int
    decreases parts.len() - from,
{
    if from >= parts.len() - 1 {
        parts.len() - 1
    } else if parts[from].len() == 0 {
        from
    } else {
        gap_in(parts, from + 1)
    }
}

/// The groups that the parts of an IPv6 literal between its colons stand for.
/// An empty part between two colons is a run of zeros, at least one.
pub open spec fn v6_of_parts(parts: Seq<Seq<char>>) -> Option<Seq<u16>> {
    let n = parts.len() as int;
    let gap = gap_in(parts, 1);
    if gap >= n - 1 {
        match groups_in(parts, true) {
            Some(g) => if g.len() == 8 {
                Some(g)
            } else {
                None
            },
            None => None,
        }
    } else {
        let head = if gap == 1 && parts[0].len() == 0 {
            Some(Seq::empty())
        } else {
            groups_in(parts.take(gap), false)
        };
        let tail = if gap == n - 2 && parts[n - 1].len() == 0 {
            Some(Seq::empty())
        } else {
            groups_in(parts.skip(gap + 1), true)
        };
        if head is Some && tail is Some && head->0.len() + tail->0.len() <= 7 {
            Some(with_zeros(head->0, tail->0))
        } else {
            None
        }
    }
}

/// Eight groups: `head`, zeros, `tail`.
pub open spec fn with_zeros(head: Seq<u16>, tail: Seq<u16>) -> Seq<u16> {
    head + Seq::new((8 - head.len() - tail.len()) as nat, |i: int| 0u16) + tail
}

/// The groups of an IPv6 literal.
pub open spec fn v6_in(s: Seq<char>) -> Option<Seq<u16>> {
    v6_of_parts(text::split(s, ':'))
}

fn parse_octet(s: &[char]) -> (r: Option<u8>)
    ensures
        match r {
            Some(n) => octet_in(s@) == Some(n as nat),
            None => octet_in(s@) is None,
        },
{
    if s.len() > 3 || (s.len() > 1 && s[0] == '0') {
        return None;
    }
    match text::parse_number(s, 10, 255) {
        Some(n) => Some(n as u8),
        None => None,
    }
}

/// Reads an IPv4 literal.
pub fn parse_v4(s: &[char]) -> (r: Option<[u8; 4]>)
    ensures
        match r {
            Some(o) => v4_in(s@) == Some(o@),
            None => v4_in(s@) is None,
        },
{
    let parts = text::split_chars(s, '.');
    let ghost ps = text::split(s@, '.');
    if parts.len() != 4 {
        return None;
    }
    assert(ps[0] == parts@[0]@ && ps[1] == parts@[1]@ && ps[2] == parts@[2]@ && ps[3]
        == parts@[3]@);
    let a = parse_octet(&parts[0]);
    let b = parse_octet(&parts[1]);
    let c = parse_octet(&parts[2]);
    let d = parse_octet(&parts[3]);
    match (a, b, c, d) {
        (Some(a), Some(b), Some(c), Some(d)) => {
            let o: [u8; 4] = [a, b, c, d];
            assert(v4_in(s@)->0 =~= o@);
            Some(o)
        },
        _ => {
            proof {
                if v4_in(s@) is Some {
                    assert(octet_in(ps[0]) is Some);
                    assert(octet_in(ps[1]) is Some);
                    assert(octet_in(ps[2]) is Some);
                    assert(octet_in(ps[3]) is Some);
                }
            }
            None
        },
    }
}

fn parse_groups(parts: &Vec<Vec<char>>, from: usize, to: usize, v4: bool) -> (r: Option<Vec<u16>>)
    requires
        from <= to <= parts.len(),
    ensures
        match r {
            Some(g) => groups_in(text::texts(parts@).subrange(from as int, to as int), v4) == Some(
                g@,
            ),
            None => groups_in(text::texts(parts@).subrange(from as int, to as int), v4) is None,
        },
    decreases to - from,
{
    let ghost ps = text::texts(parts@).subrange(from as int, to as int);
    if from == to {
        return Some(Vec::new());
    }
    assert(ps.drop_last() =~= text::texts(parts@).subrange(from as int, to - 1));
    assert(ps.last() == parts@[to - 1]@);
    let before = parse_groups(parts, from, to - 1, false);
    match before {
        None => None,
        Some(mut g) => {
            if v4 {
                if let Some(o) = parse_v4(&parts[to - 1]) {
                    let ghost b = g@;
                    g.push(o[0] as u16 * 256 + o[1] as u16);
                    g.push(o[2] as u16 * 256 + o[3] as u16);
                    assert(g@ =~= b + groups_of_octets(o@));
                    return Some(g);
                }
            }
            if parts[to - 1].len() > 4 {
                return None;
            }
            match text::parse_number(&parts[to - 1], 16, 65535) {
                Some(n) => {
                    let ghost b = g@;
                    g.push(n as u16);
                    assert(g@ =~= b + seq![n as u16]);
                    Some(g)
                },
                None => None,
            }
        },
    }
}

fn find_gap(parts: &Vec<Vec<char>>) -> (at: usize)
    requires
        parts.len() > 0,
    ensures
        parts.len() > 1 ==> at == gap_in(text::texts(parts@), 1),
        parts.len() == 1 ==> at == 0 && gap_in(text::texts(parts@), 1) == 0,
        at < parts.len(),
{
    let n: usize = parts.len();
    if n == 1 {
        return 0;
    }
    let mut i: usize = 1;
    while i < n - 1
        invariant
            n == parts.len(),
            1 <= i <= n - 1,
            gap_in(text::texts(parts@), 1) == gap_in(text::texts(parts@), i as int),
        decreases n - i,
    {
        if parts[i].len() == 0 {
            return i;
        }
        i = i + 1;
    }
    i
}

/// Reads an IPv6 literal.
pub fn parse_v6(s: &[char]) -> (r: Option<[u16; 8]>)
    ensures
        match r {
            Some(g) => v6_in(s@) == Some(g@),
            None => v6_in(s@) is None,
        },
{
    let parts = text::split_chars(s, ':');
    let ghost ps = text::texts(parts@);
    let n: usize = parts.len();
    let gap: usize = find_gap(&parts);
    if gap == n - 1 {
        assert(ps.subrange(0, n as int) =~= ps);
        let g = match parse_groups(&parts, 0, n, true) {
            Some(g) => g,
            None => return None,
        };
        if g.len() != 8 {
            return None;
        }
        let a: [u16; 8] = [g[0], g[1], g[2], g[3], g[4], g[5], g[6], g[7]];
        assert(a@ =~= g@);
        return Some(a);
    }
    assert(ps[0] == parts@[0]@ && ps[n - 1] == parts@[n - 1]@);
    assert(ps.subrange(0, gap as int) =~= ps.take(gap as int));
    assert(ps.subrange(gap + 1, n as int) =~= ps.skip(gap + 1));
    let head: Vec<u16> = if gap == 1 && parts[0].len() == 0 {
        let v: Vec<u16> = Vec::new();
        assert(v@ =~= Seq::<u16>::empty());
        v
    } else {
        match parse_groups(&parts, 0, gap, false) {
            Some(g) => g,
            None => return None,
        }
    };
    let tail: Vec<u16> = if gap == n - 2 && parts[n - 1].len() == 0 {
        let v: Vec<u16> = Vec::new();
        assert(v@ =~= Seq::<u16>::empty());
        v
    } else {
        match parse_groups(&parts, gap + 1, n, true) {
            Some(g) => g,
            None => return None,
        }
    };
    if head.len() > 7 || tail.len() > 7 || head.len() + tail.len() > 7 {
        return None;
    }
    let mut g: Vec<u16> = Vec::new();
    let mut i: usize = 0;
    while i < 8
        invariant
            i <= 8,
            g.len() == i,
            head.len() + tail.len() <= 7,
            forall|j: int| 0 <= j < i ==> g@[j] == with_zeros(head@, tail@)[j],
        decreases 8 - i,
    {
        if i < head.len() {
            g.push(head[i]);
        } else if i < 8 - tail.len() {
            g.push(0);
        } else {
            g.push(tail[i - (8 - tail.len())]);
        }
        i = i + 1;
    }
    let a: [u16; 8] = [g[0], g[1], g[2], g[3], g[4], g[5], g[6], g[7]];
    assert(a@ =~= with_zeros(head@, tail@));
    Some(a)
}

/// The address that an IP literal of either family spells.
pub open spec fn ip_in(s: Seq<char>) -> Option<IpAddr> {
    if v4_in(s) is Some {
        Some(IpAddr::V4(octets(v4_in(s)->0)))
    } else if v6_in(s) is Some {
        Some(IpAddr::V6(groups(v6_in(s)->0)))
    } else {
        None
    }
}

/// Four octets as an array.
pub open spec fn octets(o: Seq<u8>) -> [u8; 4] {
    [o[0], o[1], o[2], o[3]]
}

/// Eight groups as an array.
pub open spec fn groups(g: Seq<u16>) -> [u16; 8] {
    [g[0], g[1], g[2], g[3], g[4], g[5], g[6], g[7]]
}

/// Reads an IP literal of either family.
pub fn parse_ip(s: &[char]) -> (r: Option<IpAddr>)
    ensures
        r == ip_in(s@),
{
    match parse_v4(s) {
        Some(o) => {
            assert(o =~= octets(o@));
            Some(IpAddr::V4(o))
        },
        None => match parse_v6(s) {
            Some(g) => {
                assert(g =~= groups(g@));
                Some(IpAddr::V6(g))
            },
            None => None,
        },
    }
}

/// The text of an IPv4 address.
pub open spec fn v4_text(o: Seq<u8>) -> Seq<char> {
    text::join(Seq::new(4, |i: int| text::dec(o[i] as nat)), '.')
}

/// Groups in hexadecimal.
pub open spec fn hexes(g: Seq<u16>) -> Seq<Seq<char>> {
    Seq::new(g.len(), |i: int| text::numeral(g[i] as nat, 16))
}

/// The number of zero groups from `i` on.
pub open spec fn zeros_at(g: Seq<u16>, i: int) -> int
    decreases g.len() - i,
{
    if i < 0 || i >= g.len() || g[i] != 0 {
        0
    } else {
        1 + zeros_at(g, i + 1)
    }
}

/// Where the longest run of zero groups starts, among those at or after `i`;
/// the first of them if several are as long.
pub open spec fn longest_zeros(g: Seq<u16>, i: int) -> int
    decreases g.len() - i,
{
    if i >= g.len() {
        g.len() as int
    } else {
        let later = longest_zeros(g, i + 1);
        if zeros_at(g, i) >= zeros_at(g, later) {
            i
        } else {
            later
        }
    }
}

/// Whether an IPv6 address is a mapped IPv4 address.
pub open spec fn is_mapped(g: Seq<u16>) -> bool {
    g[0] == 0 && g[1] == 0 && g[2] == 0 && g[3] == 0 && g[4] == 0 && g[5] == 0xffff
}

/// The octets of the last two groups.
pub open spec fn mapped_octets(g: Seq<u16>) -> Seq<u8> {
    seq![
        (g[6] / 256) as u8,
        (g[6] % 256) as u8,
        (g[7] / 256) as u8,
        (g[7] % 256) as u8,
    ]
}

/// The text of an IPv6 address: hexadecimal groups, the longest run of two or
/// more zero groups left out, and a mapped IPv4 address written as such.
pub open spec fn v6_text(g: Seq<u16>) -> Seq<char> {
    let start = longest_zeros(g, 0);
    let end = start + zeros_at(g, start);
    if is_mapped(g) {
        "::ffff:"@ + v4_text(mapped_octets(g))
    } else if end - start > 1 {
        text::join(hexes(g.take(start)), ':') + "::"@ + text::join(hexes(g.skip(end)), ':')
    } else {
        text::join(hexes(g), ':')
    }
}

impl IpAddr {
    /// The address as text.
    pub open spec fn text(&self) -> Seq<char> {
        match self {
            IpAddr::V4(o) => v4_text(o@),
            IpAddr::V6(g) => v6_text(g@),
        }
    }
}

fn push_v4(out: &mut String, o: [u8; 4])
    ensures
        final(out)@ == old(out)@ + v4_text(o@),
{
    proof {
        let parts = Seq::new(4, |i: int| text::dec(o@[i] as nat));
        reveal_with_fuel(text::join, 5);
        assert(parts.skip(1).skip(1).skip(1)[0] == parts[3]);
        assert(v4_text(o@) =~= text::dec(o@[0] as nat).push('.') + (text::dec(o@[1] as nat).push(
            '.',
        ) + (text::dec(o@[2] as nat).push('.') + text::dec(o@[3] as nat))));
    }
    text::push_numeral(out, o[0] as u64, 10);
    out.push('.');
    text::push_numeral(out, o[1] as u64, 10);
    out.push('.');
    text::push_numeral(out, o[2] as u64, 10);
    out.push('.');
    text::push_numeral(out, o[3] as u64, 10);
}

fn push_hexes(out: &mut String, g: &[u16; 8], from: usize, to: usize)
    requires
        from <= to <= 8,
    ensures
        final(out)@ == old(out)@ + text::join(
            hexes(g@.subrange(from as int, to as int)),
            ':',
        ),
    decreases to - from,
{
    let ghost hs = hexes(g@.subrange(from as int, to as int));
    if from == to {
        return ;
    }
    text::push_numeral(out, g[from] as u64, 16);
    if from + 1 == to {
        return ;
    }
    assert(hs.skip(1) =~= hexes(g@.subrange(from + 1, to as int)));
    out.push(':');
    push_hexes(out, g, from + 1, to);
}

fn longest_zero_run(g: &[u16; 8]) -> (r: (usize, usize))
    ensures
        r.0 == longest_zeros(g@, 0),
        r.1 == zeros_at(g@, r.0 as int),
        r.0 + r.1 <= 8,
{
    let mut i: usize = 8;
    let mut best: usize = 8;
    let mut best_len: usize = 0;
    let mut here: usize = 0;
    while i > 0
        invariant
            i <= 8,
            here == zeros_at(g@, i as int),
            here <= 8 - i,
            best == longest_zeros(g@, i as int),
            best_len == zeros_at(g@, best as int),
            best <= 8,
            best + best_len <= 8,
        decreases i,
    {
        i = i - 1;
        if g[i] == 0 {
            here = here + 1;
        } else {
            here = 0;
        }
        if here >= best_len {
            best = i;
            best_len = here;
        }
    }
    (best, best_len)
}

fn push_v6(out: &mut String, g: [u16; 8])
    ensures
        final(out)@ == old(out)@ + v6_text(g@),
{
    let run: (usize, usize) = longest_zero_run(&g);
    if g[0] == 0 && g[1] == 0 && g[2] == 0 && g[3] == 0 && g[4] == 0 && g[5] == 0xffff {
        out.append("::ffff:");
        let o: [u8; 4] = [
            (g[6] / 256) as u8,
            (g[6] % 256) as u8,
            (g[7] / 256) as u8,
            (g[7] % 256) as u8,
        ];
        assert(o@ =~= mapped_octets(g@));
        push_v4(out, o);
    } else if run.1 > 1 {
        assert(g@.subrange(0, run.0 as int) =~= g@.take(run.0 as int));
        assert(g@.subrange(run.0 + run.1, 8) =~= g@.skip(run.0 + run.1));
        push_hexes(out, &g, 0, run.0);
        out.append("::");
        push_hexes(out, &g, run.0 + run.1, 8);
    } else {
        assert(g@.subrange(0, 8) =~= g@);
        push_hexes(out, &g, 0, 8);
    }
}

impl IpAddr {
    /// The address as text.
    pub fn to_text(&self) -> (s: String)
        ensures
            s@ == self.text(),
    {
        let mut s = String::new();
        match self {
            IpAddr::V4(o) => push_v4(&mut s, *o),
            IpAddr::V6(g) => push_v6(&mut s, *g),
        }
        s
    }

    /// Whether this is an IPv6 address.
    pub fn is_v6(&self) -> (r: bool)
        ensures
            r == (self is V6),
    {
        match self {
            IpAddr::V4(_) => false,
            IpAddr::V6(_) => true,
        }
    }

    /// Whether two addresses are the same.
    pub fn same(&self, other: &IpAddr) -> (r: bool)
        ensures
            r == (self == other),
    {
        match (self, other) {
            (IpAddr::V4(a), IpAddr::V4(b)) => {
                let r: bool = a[0] == b[0] && a[1] == b[1] && a[2] == b[2] && a[3] == b[3];
                proof {
                    if r {
                        assert(a@ =~= b@);
                        assert(a =~= b);
                    }
                }
                r
            },
            (IpAddr::V6(a), IpAddr::V6(b)) => {
                let r: bool = a[0] == b[0] && a[1] == b[1] && a[2] == b[2] && a[3] == b[3] && a[4]
                    == b[4] && a[5] == b[5] && a[6] == b[6] && a[7] == b[7];
                proof {
                    if r {
                        assert(a@ =~= b@);
                        assert(a =~= b);
                    }
                }
                r
            },
            _ => false,
        }
    }
}

/// The octets of an IPv4 address are those that its text spells.
pub proof fn v4_text_reads_back(o: Seq<u8>)
    requires
        o.len() == 4,
    ensures
        v4_in(v4_text(o)) == Some(o),
        forall|c: char|
            c != '.' && text::digit_value(c) is None ==> !(#[trigger] v4_text(o).contains(c)),
{
    let parts = Seq::new(4, |i: int| text::dec(o[i] as nat));
    assert forall|i: int| 0 <= i < 4 implies octet_in(#[trigger] parts[i]) == Some(o[i] as nat)
        && !parts[i].contains('.') by {
        let n = o[i] as nat;
        text::numeral_reads_back(n, 10);
        text::numeral_is_short(n);
        text::numeral_starts(n, 10);
        text::numeral_has_no(n, 10, '.');
    }
    text::split_of_join(parts, '.');
    assert(Seq::new(4, |i: int| octet_in(parts[i])->0 as u8) =~= o);
    assert(parts.len() == 4);
    assert(text::split(v4_text(o), '.') == parts);
    assert forall|c: char| c != '.' && text::digit_value(c) is None implies !(
    #[trigger] v4_text(o).contains(c)) by {
        assert forall|i: int| 0 <= i < 4 implies !(#[trigger] parts[i]).contains(c) by {
            text::numeral_has_no(o[i] as nat, 10, c);
        }
        text::join_has_no(parts, '.', c);
    }
}

proof fn lemma_hex(n: u16)
    ensures
        ({
            let s = text::numeral(n as nat, 16);
            &&& group_in(s) == Some(n as nat)
            &&& v4_in(s) is None
            &&& !s.contains(':')
            &&& s.len() > 0
        }),
{
    let s = text::numeral(n as nat, 16);
    text::numeral_reads_back(n as nat, 16);
    text::numeral_is_short(n as nat);
    text::numeral_has_no(n as nat, 16, ':');
    text::numeral_has_no(n as nat, 16, '.');
    text::place_after(s, '.', Seq::empty());
    assert(text::split(s, '.') =~= seq![s]);
}

proof fn lemma_groups_of_hexes(g: Seq<u16>, v4: bool)
    ensures
        groups_in(hexes(g), v4) == Some(g),
    decreases g.len(),
{
    if g.len() > 0 {
        lemma_groups_of_hexes(g.drop_last(), false);
        assert(hexes(g).drop_last() =~= hexes(g.drop_last()));
        lemma_hex(g.last());
        assert(hexes(g).last() == text::numeral(g.last() as nat, 16));
        assert(g.drop_last() + seq![g.last()] =~= g);
    } else {
        assert(g =~= Seq::<u16>::empty());
    }
}

proof fn lemma_gap(parts: Seq<Seq<char>>, from: int, at: int)
    requires
        0 <= from <= at <= parts.len() - 1,
        forall|i: int| from <= i < at ==> (#[trigger] parts[i]).len() > 0,
        at == parts.len() - 1 || parts[at].len() == 0,
    ensures
        gap_in(parts, from) == at,
    decreases at - from,
{
    if from < at {
        assert(parts[from].len() > 0);
        lemma_gap(parts, from + 1, at);
    }
}

proof fn lemma_zeros(g: Seq<u16>, i: int)
    requires
        0 <= i <= g.len(),
    ensures
        0 <= zeros_at(g, i) <= g.len() - i,
        forall|k: int| i <= k < i + zeros_at(g, i) ==> g[k] == 0,
    decreases g.len() - i,
{
    if i < g.len() && g[i] == 0 {
        lemma_zeros(g, i + 1);
    }
}

proof fn lemma_longest(g: Seq<u16>, i: int)
    requires
        0 <= i <= g.len(),
    ensures
        i <= longest_zeros(g, i) <= g.len(),
    decreases g.len() - i,
{
    if i < g.len() {
        lemma_longest(g, i + 1);
    }
}

proof fn lemma_mapped_reads_back(g: Seq<u16>)
    requires
        g.len() == 8,
        is_mapped(g),
    ensures
        v6_in(v6_text(g)) == Some(g),
{
    let none = Seq::<char>::empty();
    let o = mapped_octets(g);
    let t = v4_text(o);
    v4_text_reads_back(o);
    reveal_strlit("::ffff:");
    reveal_strlit("ffff");
    let parts = seq![none, none, "ffff"@, t];
    assert(text::join(parts, ':') =~= "::ffff:"@ + t) by {
        reveal_with_fuel(text::join, 5);
        assert(parts.skip(1) =~= seq![none, "ffff"@, t]);
        assert(parts.skip(1).skip(1) =~= seq!["ffff"@, t]);
        assert(parts.skip(1).skip(1).skip(1) =~= seq![t]);
        assert("::ffff:"@ =~= seq![':', ':', 'f', 'f', 'f', 'f', ':']);
        assert("ffff"@ =~= seq!['f', 'f', 'f', 'f']);
    }
    assert("ffff"@ =~= text::numeral(0xffff, 16)) by {
        reveal_with_fuel(text::numeral, 5);
    }
    lemma_hex(0xffff);
    assert(!none.contains(':'));
    assert forall|i: int| 0 <= i < 4 implies !(#[trigger] parts[i]).contains(':') by {}
    text::split_of_join(parts, ':');
    lemma_gap(parts, 1, 1);
    let tail = parts.skip(2);
    assert(tail =~= seq!["ffff"@, t]);
    assert(tail.drop_last() =~= seq!["ffff"@]);
    assert(tail.drop_last().drop_last() =~= Seq::<Seq<char>>::empty());
    assert(groups_in(tail.drop_last().drop_last(), false) == Some(Seq::<u16>::empty()));
    assert(groups_in(tail.drop_last(), false)->0 =~= seq![0xffffu16]);
    assert(groups_in(tail, true)->0 =~= seq![0xffffu16, g[6], g[7]]);
    assert(with_zeros(Seq::<u16>::empty(), seq![0xffffu16, g[6], g[7]]) =~= g);
}

proof fn lemma_shortened_reads_back(g: Seq<u16>, start: int, end: int)
    requires
        g.len() == 8,
        0 <= start < end <= 8,
        end - start > 1,
        forall|k: int| start <= k < end ==> g[k] == 0,
    ensures
        v6_in(
            text::join(hexes(g.take(start)), ':') + "::"@ + text::join(hexes(g.skip(end)), ':'),
        ) == Some(g),
{
    let none = Seq::<char>::empty();
    let full = text::join(hexes(g.take(start)), ':') + "::"@ + text::join(hexes(g.skip(end)), ':');
    let head = g.take(start);
    let tail = g.skip(end);
    let hp = if start == 0 {
        seq![none]
    } else {
        hexes(head)
    };
    let tp = if end == 8 {
        seq![none]
    } else {
        hexes(tail)
    };
    let mid = seq![none];
    let parts = hp + (mid + tp);
    text::join_of_two(mid, tp, ':');
    text::join_of_two(hp, mid + tp, ':');
    reveal_strlit("::");
    assert("::"@ =~= seq![':', ':']);
    if start == 0 {
        assert(hexes(head) =~= Seq::<Seq<char>>::empty());
    }
    if end == 8 {
        assert(hexes(tail) =~= Seq::<Seq<char>>::empty());
    }
    assert(text::join(hp, ':') =~= text::join(hexes(head), ':'));
    assert(text::join(tp, ':') =~= text::join(hexes(tail), ':'));
    assert(text::join(parts, ':') =~= full);
    assert forall|i: int| 0 <= i < parts.len() implies !(#[trigger] parts[i]).contains(
        ':',
    ) && (parts[i].len() > 0 || i == hp.len() || (i == 0 && start == 0) || (i
        == parts.len() - 1 && end == 8)) by {
        assert(!none.contains(':'));
        if i < hp.len() {
            if start > 0 {
                lemma_hex(head[i]);
            }
        } else if i > hp.len() {
            if end < 8 {
                lemma_hex(tail[i - hp.len() - 1]);
            }
        }
    }
    text::split_of_join(parts, ':');
    lemma_gap(parts, 1, hp.len() as int);
    lemma_groups_of_hexes(head, false);
    lemma_groups_of_hexes(tail, true);
    assert(parts.take(hp.len() as int) =~= hp);
    assert(parts.skip(hp.len() as int + 1) =~= tp);
    if start == 0 {
        assert(parts[0] == none);
        assert(head =~= Seq::<u16>::empty());
    } else if hp.len() == 1 {
        lemma_hex(head[0]);
        assert(parts[0] == hp[0]);
    }
    let n = parts.len() as int;
    if end == 8 {
        assert(parts[n - 1] == none);
        assert(tail =~= Seq::<u16>::empty());
    } else if tp.len() == 1 {
        lemma_hex(tail[0]);
        assert(parts[n - 1] == tp[0]);
    }
    assert(with_zeros(head, tail) =~= g);
}

proof fn lemma_full_reads_back(g: Seq<u16>)
    requires
        g.len() == 8,
    ensures
        v6_in(text::join(hexes(g), ':')) == Some(g),
{
    let parts = hexes(g);
    assert forall|i: int| 0 <= i < 8 implies !(#[trigger] parts[i]).contains(':')
        && parts[i].len() > 0 by {
        lemma_hex(g[i]);
    }
    text::split_of_join(parts, ':');
    lemma_gap(parts, 1, 7);
    lemma_groups_of_hexes(g, true);
}

/// The groups of an IPv6 address are those that its text spells.
pub proof fn v6_text_reads_back(g: Seq<u16>)
    requires
        g.len() == 8,
    ensures
        v6_in(v6_text(g)) == Some(g),
{
    let start = longest_zeros(g, 0);
    lemma_longest(g, 0);
    lemma_zeros(g, start);
    let end = start + zeros_at(g, start);
    if is_mapped(g) {
        lemma_mapped_reads_back(g);
    } else if end - start > 1 {
        lemma_shortened_reads_back(g, start, end);
    } else {
        lemma_full_reads_back(g);
    }
}

proof fn lemma_hexes_have_no(g: Seq<u16>, c: char)
    requires
        c != ':',
        text::digit_value(c) is None,
    ensures
        !text::join(hexes(g), ':').contains(c),
{
    assert forall|i: int| 0 <= i < g.len() implies !(#[trigger] hexes(g)[i]).contains(c) by {
        text::numeral_has_no(g[i] as nat, 16, c);
    }
    text::join_has_no(hexes(g), ':', c);
}

proof fn lemma_v6_text_has_no(g: Seq<u16>, c: char)
    requires
        g.len() == 8,
        c != ':',
        c != '.',
        text::digit_value(c) is None,
    ensures
        !v6_text(g).contains(c),
{
    let start = longest_zeros(g, 0);
    let end = start + zeros_at(g, start);
    v4_text_reads_back(mapped_octets(g));
    lemma_hexes_have_no(g, c);
    lemma_hexes_have_no(g.take(start), c);
    lemma_hexes_have_no(g.skip(end), c);
    reveal_strlit("::ffff:");
    reveal_strlit("::");
    let s = v6_text(g);
    if s.contains(c) {
        let i = choose|i: int| 0 <= i < s.len() && s[i] == c;
        if is_mapped(g) {
            let t = v4_text(mapped_octets(g));
            assert(!t.contains(c));
            if i >= 7 {
                assert(t[i - 7] == c);
            }
        } else if end - start > 1 {
            let a = text::join(hexes(g.take(start)), ':');
            let b = text::join(hexes(g.skip(end)), ':');
            if i < a.len() {
                assert(a[i] == c);
            } else if i >= a.len() + 2 {
                assert(b[i - a.len() - 2] == c);
            }
        }
    }
}

impl SocketAddr {
    /// Whether the scope is one that the address can have.
    pub open spec fn wf(&self) -> bool {
        self.ip is V4 ==> self.scope == 0
    }

    /// The address as text: `a.b.c.d:port`, or `[groups]:port` with the scope
    /// after a percent sign where there is one.
    pub open spec fn text(&self) -> Seq<char> {
        match self.ip {
            IpAddr::V4(o) => v4_text(o@).push(':') + text::dec(self.port as nat),
            IpAddr::V6(g) => seq!['['] + scoped_text(g@, self.scope as nat) + seq![']', ':']
                + text::dec(self.port as nat),
        }
    }
}

/// An IPv6 address with its scope after a percent sign, where it has one.
pub open spec fn scoped_text(g: Seq<u16>, scope: nat) -> Seq<char> {
    if scope == 0 {
        v6_text(g)
    } else {
        v6_text(g).push('%') + text::dec(scope)
    }
}

/// The groups and the scope that an IPv6 literal with an optional numeric
/// scope stands for.
pub open spec fn scoped_in(s: Seq<char>) -> Option<(Seq<u16>, nat)> {
    let at = text::place_of(s, '%', 0);
    let ip = v6_in(s.take(at));
    let scope = if at < s.len() {
        text::number_in(s.skip(at + 1), 10, 0xffff_ffff)
    } else {
        Some(0)
    };
    if ip is Some && scope is Some {
        Some((ip->0, scope->0))
    } else {
        None
    }
}

/// The socket address that a text spells.
pub open spec fn addr_in(s: Seq<char>) -> Option<SocketAddr> {
    if s.len() > 0 && s[0] == '[' {
        let end = text::place_of(s, ']', 1);
        if end + 1 < s.len() && s[end + 1] == ':' {
            let ip = scoped_in(s.subrange(1, end));
            let port = text::number_in(s.skip(end + 2), 10, 65535);
            if ip is Some && port is Some {
                Some(
                    SocketAddr {
                        ip: IpAddr::V6(groups((ip->0).0)),
                        port: port->0 as u16,
                        scope: (ip->0).1 as u32,
                    },
                )
            } else {
                None
            }
        } else {
            None
        }
    } else {
        let at = text::place_of(s, ':', 0);
        if at < s.len() {
            let ip = v4_in(s.take(at));
            let port = text::number_in(s.skip(at + 1), 10, 65535);
            if ip is Some && port is Some {
                Some(
                    SocketAddr {
                        ip: IpAddr::V4(octets(ip->0)),
                        port: port->0 as u16,
                        scope: 0,
                    },
                )
            } else {
                None
            }
        } else {
            None
        }
    }
}

/// Reads an IPv6 literal with an optional numeric scope.
pub fn parse_scoped(s: &[char]) -> (r: Option<([u16; 8], u32)>)
    ensures
        match r {
            Some(x) => scoped_in(s@) == Some((x.0@, x.1 as nat)),
            None => scoped_in(s@) is None,
        },
{
    let at: usize = text::find_char(s, '%', 0);
    let ip = vstd::slice::slice_subrange(s, 0, at);
    assert(ip@ =~= s@.take(at as int));
    let g = match parse_v6(ip) {
        Some(g) => g,
        None => return None,
    };
    if at == s.len() {
        return Some((g, 0));
    }
    let digits = vstd::slice::slice_subrange(s, at + 1, s.len());
    assert(digits@ =~= s@.skip(at + 1));
    match text::parse_number(digits, 10, 0xffff_ffff) {
        Some(n) => Some((g, n as u32)),
        None => None,
    }
}

/// Reads a socket address.
pub fn parse_addr(s: &[char]) -> (r: Option<SocketAddr>)
    ensures
        r == addr_in(s@),
        r is Some ==> r->0.wf(),
{
    if s.len() > 0 && s[0] == '[' {
        let end: usize = text::find_char(s, ']', 1);
        if end >= s.len() || end + 1 >= s.len() || s[end + 1] != ':' {
            return None;
        }
        let inside = vstd::slice::slice_subrange(s, 1, end);
        let digits = vstd::slice::slice_subrange(s, end + 2, s.len());
        assert(inside@ =~= s@.subrange(1, end as int));
        assert(digits@ =~= s@.skip(end + 2));
        match (parse_scoped(inside), text::parse_number(digits, 10, 65535)) {
            (Some(x), Some(n)) => {
                assert(x.0 =~= groups(x.0@));
                Some(SocketAddr { ip: IpAddr::V6(x.0), port: n as u16, scope: x.1 })
            },
            _ => None,
        }
    } else {
        let at: usize = text::find_char(s, ':', 0);
        if at >= s.len() {
            return None;
        }
        let head = vstd::slice::slice_subrange(s, 0, at);
        let digits = vstd::slice::slice_subrange(s, at + 1, s.len());
        assert(head@ =~= s@.take(at as int));
        assert(digits@ =~= s@.skip(at + 1));
        match (parse_v4(head), text::parse_number(digits, 10, 65535)) {
            (Some(o), Some(n)) => {
                assert(o =~= octets(o@));
                Some(SocketAddr { ip: IpAddr::V4(o), port: n as u16, scope: 0 })
            },
            _ => None,
        }
    }
}

impl SocketAddr {
    /// An address without a scope.
    pub fn new(ip: IpAddr, port: u16) -> (a: SocketAddr)
        ensures
            a == (SocketAddr { ip, port, scope: 0 }),
            a.wf(),
    {
        SocketAddr { ip, port, scope: 0 }
    }

    /// Whether this is an IPv6 address.
    pub fn is_ipv6(&self) -> (r: bool)
        ensures
            r == (self.ip is V6),
    {
        self.ip.is_v6()
    }

    /// Whether two addresses are the same.
    pub fn same(&self, other: &SocketAddr) -> (r: bool)
        ensures
            r == (self == other),
    {
        self.port == other.port && self.scope == other.scope && self.ip.same(&other.ip)
    }

    /// The address as text.
    pub fn to_text(&self) -> (s: String)
        ensures
            s@ == self.text(),
    {
        let mut s = String::new();
        match self.ip {
            IpAddr::V4(o) => {
                push_v4(&mut s, o);
                s.push(':');
            },
            IpAddr::V6(g) => {
                s.push('[');
                push_v6(&mut s, g);
                if self.scope != 0 {
                    s.push('%');
                    text::push_numeral(&mut s, self.scope as u64, 10);
                }
                s.push(']');
                s.push(':');
            },
        }
        text::push_numeral(&mut s, self.port as u64, 10);
        s
    }
}

/// The text of a socket address spells that address.
#[verifier::spinoff_prover]
#[verifier::rlimit(60)]
pub proof fn addr_text_reads_back(a: SocketAddr)
    requires
        a.wf(),
    ensures
        addr_in(a.text()) == Some(a),
{
    let s = a.text();
    let port = text::dec(a.port as nat);
    text::numeral_reads_back(a.port as nat, 10);
    match a.ip {
        IpAddr::V4(o) => {
            let t = v4_text(o@);
            v4_text_reads_back(o@);
            text::numeral_reads_back(o@[0] as nat, 10);
            assert(!t.contains('[') && !t.contains(':'));
            text::place_after(t, ':', port);
            assert(s.take(t.len() as int) =~= t);
            assert(s.skip(t.len() as int + 1) =~= port);
            if s[0] == '[' {
                assert(t.len() > 0 ==> t.contains(t[0]));
            }
            assert(octets(o@) =~= o);
        },
        IpAddr::V6(g) => {
            let t = v6_text(g@);
            let st = scoped_text(g@, a.scope as nat);
            v6_text_reads_back(g@);
            lemma_v6_text_has_no(g@, ']');
            lemma_v6_text_has_no(g@, '%');
            text::numeral_reads_back(a.scope as nat, 10);
            text::numeral_has_no(a.scope as nat, 10, ']');
            let scope = text::dec(a.scope as nat);
            text::place_after(t, '%', scope);
            assert(!st.contains(']')) by {
                if st.contains(']') {
                    let i = choose|i: int| 0 <= i < st.len() && st[i] == ']';
                    if i < t.len() {
                        assert(t[i] == ']');
                    } else if i > t.len() {
                        assert(scope[i - t.len() - 1] == ']');
                    }
                }
            }
            if a.scope == 0 {
                assert(st.take(st.len() as int) =~= t);
            } else {
                assert(st.take(t.len() as int) =~= t);
                assert(st.skip(t.len() as int + 1) =~= scope);
            }
            assert(scoped_in(st) == Some((g@, a.scope as nat)));
            let end = st.len() + 1;
            text::place_of_is_first(s, ']', 1);
            assert(s[end as int] == ']');
            let found = text::place_of(s, ']', 1);
            if found < end {
                assert(st[found - 1] == s[found]);
            }
            assert(found == end);
            assert(s.subrange(1, end as int) =~= st);
            assert(s.skip(end as int + 2) =~= port);
            assert(groups(g@) =~= g);
        },
    }
}

proof fn lemma_digits_have_no(s: Seq<char>, base: nat, c: char)
    requires
        text::all_digits(s, base),
        text::digit_value(c) is None,
    ensures
        !s.contains(c),
{
    if s.contains(c) {
        let i = choose|i: int| 0 <= i < s.len() && s[i] == c;
        assert(text::digit_value(s[i]) is Some);
    }
}

proof fn lemma_v4_has_no(s: Seq<char>, c: char)
    requires
        v4_in(s) is Some,
        c != '.',
        text::digit_value(c) is None,
    ensures
        !s.contains(c),
{
    let parts = text::split(s, '.');
    text::join_of_split(s, '.');
    assert forall|i: int| 0 <= i < parts.len() implies !(#[trigger] parts[i]).contains(c) by {
        assert(octet_in(parts[i]) is Some);
        lemma_digits_have_no(parts[i], 10, c);
    }
    text::join_has_no(parts, '.', c);
}

proof fn lemma_groups_have_no(parts: Seq<Seq<char>>, v4: bool, c: char, i: int)
    requires
        groups_in(parts, v4) is Some,
        0 <= i < parts.len(),
        c != '.',
        text::digit_value(c) is None,
    ensures
        !parts[i].contains(c),
    decreases parts.len(),
{
    if i == parts.len() - 1 {
        if v4 && v4_in(parts.last()) is Some {
            lemma_v4_has_no(parts.last(), c);
        } else {
            lemma_digits_have_no(parts.last(), 16, c);
        }
    } else {
        lemma_groups_have_no(parts.drop_last(), false, c, i);
    }
}

proof fn lemma_gap_bounds(parts: Seq<Seq<char>>, from: int)
    requires
        0 <= from,
    ensures
        gap_in(parts, from) <= parts.len() - 1,
        gap_in(parts, from) < parts.len() - 1 ==> gap_in(parts, from) >= from
            && parts[gap_in(parts, from)].len() == 0,
    decreases parts.len() - from,
{
    if from < parts.len() - 1 && parts[from].len() > 0 {
        lemma_gap_bounds(parts, from + 1);
    }
}

/// An IPv6 literal is made of hexadecimal digits, colons and dots.
pub proof fn v6_literal_has_no(s: Seq<char>, c: char)
    requires
        v6_in(s) is Some,
        c != '.',
        c != ':',
        text::digit_value(c) is None,
    ensures
        !s.contains(c),
{
    let parts = text::split(s, ':');
    text::join_of_split(s, ':');
    let n = parts.len() as int;
    let gap = gap_in(parts, 1);
    lemma_gap_bounds(parts, 1);
    assert forall|i: int| 0 <= i < parts.len() implies !(#[trigger] parts[i]).contains(c) by {
        if gap >= n - 1 {
            lemma_groups_have_no(parts, true, c, i);
        } else if i < gap {
            if !(gap == 1 && parts[0].len() == 0) {
                lemma_groups_have_no(parts.take(gap), false, c, i);
            }
        } else if i > gap {
            if !(gap == n - 2 && parts[n - 1].len() == 0) {
                lemma_groups_have_no(parts.skip(gap + 1), true, c, i - gap - 1);
            }
        }
    }
    text::join_has_no(parts, ':', c);
}

/// No text is a literal of both families: an IPv6 literal holds a colon, an
/// IPv4 literal holds none.
pub proof fn literal_has_one_family(s: Seq<char>)
    ensures
        v6_in(s) is Some ==> s.contains(':') && v4_in(s) is None,
        v4_in(s) is Some ==> !s.contains(':') && v6_in(s) is None,
{
    if v6_in(s) is Some && !s.contains(':') {
        text::place_of_is_first(s, ':', 0);
        let at = text::place_of(s, ':', 0);
        if at < s.len() {
            assert(s.contains(s[at]));
        }
        let parts = text::split(s, ':');
        assert(parts =~= seq![s]);
        assert(parts.drop_last() =~= Seq::<Seq<char>>::empty());
        reveal_with_fuel(groups_in, 2);
    }
    if v4_in(s) is Some {
        lemma_v4_has_no(s, ':');
    }
}

/// The text of an IP address of either family spells that address, and holds
/// nothing but digits, dots and colons.
pub proof fn ip_text_reads_back(ip: IpAddr)
    ensures
        ip_in(ip.text()) == Some(ip),
        forall|c: char|
            c != '.' && c != ':' && text::digit_value(c) is None ==> !(
            #[trigger] ip.text().contains(c)),
{
    literal_has_one_family(ip.text());
    match ip {
        IpAddr::V4(o) => {
            v4_text_reads_back(o@);
            assert(octets(o@) =~= o);
        },
        IpAddr::V6(g) => {
            v6_text_reads_back(g@);
            assert(groups(g@) =~= g);
            assert forall|c: char| c != '.' && c != ':' && text::digit_value(c) is None implies !(
            #[trigger] v6_text(g@).contains(c)) by {
                lemma_v6_text_has_no(g@, c);
            }
        },
    }
}

/// Whether `n` groups from `i` on are zero.
pub open spec fn run_of_zeros(g: Seq<u16>, i: int, n: int) -> bool {
    &&& 0 <= i
    &&& i + n <= g.len()
    &&& forall|k: int| i <= k < i + n ==> #[trigger] g[k] == 0
}

proof fn lemma_run(g: Seq<u16>, i: int, n: int)
    requires
        0 <= i <= g.len(),
        0 <= n,
    ensures
        run_of_zeros(g, i, n) <==> zeros_at(g, i) >= n,
    decreases n,
{
    lemma_zeros(g, i);
    if run_of_zeros(g, i, n) && n > 0 {
        assert(g[i] == 0);
        lemma_run(g, i + 1, n - 1);
        assert(run_of_zeros(g, i + 1, n - 1));
    }
}

proof fn lemma_longest_run(g: Seq<u16>, i: int)
    requires
        0 <= i <= g.len(),
    ensures
        forall|j: int|
            i <= j <= g.len() ==> #[trigger] zeros_at(g, j) <= zeros_at(g, longest_zeros(g, i)),
        forall|j: int|
            i <= j < longest_zeros(g, i) ==> #[trigger] zeros_at(g, j) < zeros_at(
                g,
                longest_zeros(g, i),
            ),
    decreases g.len() - i,
{
    if i < g.len() {
        lemma_longest_run(g, i + 1);
    }
}

/// In the text of an IPv6 address that maps no IPv4 address, the first of the
/// longest runs of two or more zero groups is left out between two colons, and
/// all other groups are spelled; without such a run all of them are.
pub proof fn longest_run_of_zeros_is_left_out(g: Seq<u16>, i: int, n: int)
    requires
        g.len() == 8,
        !is_mapped(g),
    ensures
        n >= 2 && run_of_zeros(g, i, n) && (forall|j: int|
            0 <= j < 8 ==> !(#[trigger] run_of_zeros(g, j, n + 1))) && (forall|j: int|
            0 <= j < i ==> !(#[trigger] run_of_zeros(g, j, n))) ==> v6_text(g) == text::join(
            hexes(g.take(i)),
            ':',
        ) + seq![':', ':'] + text::join(hexes(g.skip(i + n)), ':'),
        (forall|j: int| 0 <= j < 8 ==> !(#[trigger] run_of_zeros(g, j, 2))) ==> v6_text(g)
            == text::join(hexes(g), ':'),
{
    let start = longest_zeros(g, 0);
    lemma_longest(g, 0);
    lemma_longest_run(g, 0);
    lemma_zeros(g, start);
    reveal_strlit("::");
    assert("::"@ =~= seq![':', ':']);
    if n >= 2 && run_of_zeros(g, i, n) && (forall|j: int|
        0 <= j < 8 ==> !(#[trigger] run_of_zeros(g, j, n + 1))) && (forall|j: int|
        0 <= j < i ==> !(#[trigger] run_of_zeros(g, j, n))) {
        lemma_run(g, i, n);
        assert(zeros_at(g, i) <= zeros_at(g, start));
        assert(start < 8);
        lemma_run(g, start, n + 1);
        assert(!run_of_zeros(g, start, n + 1));
        assert(zeros_at(g, start) == n);
        lemma_run(g, start, n);
        assert(run_of_zeros(g, start, n));
        assert(start == i);
    }
    if forall|j: int| 0 <= j < 8 ==> !(#[trigger] run_of_zeros(g, j, 2)) {
        lemma_run(g, start, 2);
        if start < 8 {
            assert(!run_of_zeros(g, start, 2));
        }
    }
}

} // verus!
