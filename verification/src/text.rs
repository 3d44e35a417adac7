//! Text as sequences of characters: decimal and hexadecimal numbers, and the
//! few string operations the rest of the library needs.

use vstd::prelude::*;
use vstd::string::*;
use vstd::utf8::*;

verus! {

/// `String::push` appends one character to the end of the string.
pub assume_specification[ String::push ](s: &mut String, c: char)
    ensures
        final(s)@ == old(s)@.push(c),
;

/// The character of one decimal or hexadecimal (lower case) digit.
pub open spec fn digit_char(d: nat) -> char {
    if d < 10 {
        (48 + d) as char
    } else {
        (87 + d) as char
    }
}

/// `n` written in `base` without leading zeros.
pub open spec fn numeral(n: nat, base: nat) -> Seq<char>
    decreases n,
{
    if base < 2 || n < base {
        seq![digit_char(n)]
    } else {
        proof {
            assert(n / base < n) by (nonlinear_arith)
                requires
                    base >= 2,
                    n >= base,
            ;
        }
        numeral(n / base, base).push(digit_char(n % base))
    }
}

/// `n` in decimal.
pub open spec fn dec(n: nat) -> Seq<char> {
    numeral(n, 10)
}

/// The value of a digit in bases up to sixteen, either case.
pub open spec fn digit_value(c: char) -> Option<nat> {
    if '0' <= c <= '9' {
        Some((c as nat - 48) as nat)
    } else if 'a' <= c <= 'f' {
        Some((c as nat - 87) as nat)
    } else if 'A' <= c <= 'F' {
        Some((c as nat - 55) as nat)
    } else {
        None
    }
}

/// Whether every character is a digit of `base`.
pub open spec fn all_digits(s: Seq<char>, base: nat) -> bool {
    forall|i: int| 0 <= i < s.len() ==> (#[trigger] digit_value(s[i])) is Some && digit_value(s[i])->0 < base
}

/// The number that a sequence of digits stands for.
pub open spec fn digits_value(s: Seq<char>, base: nat) -> nat
    decreases s.len(),
{
    if s.len() == 0 {
        0
    } else {
        digits_value(s.drop_last(), base) * base + digit_value(s.last())->0
    }
}

pub fn digit(d: u8) -> (c: char)
    requires
        d < 16,
    ensures
        c == digit_char(d as nat),
{
    if d < 10 {
        (48 + d) as char
    } else {
        (87 + d) as char
    }
}

/// The value of `c` as a digit of a base up to sixteen.
pub fn value_of_digit(c: char) -> (v: Option<u8>)
    ensures
        match v {
            Some(d) => digit_value(c) == Some(d as nat) && d < 16,
            None => digit_value(c) is None,
        },
{
    if c >= '0' && c <= '9' {
        Some((c as u32 - 48) as u8)
    } else if c >= 'a' && c <= 'f' {
        Some((c as u32 - 87) as u8)
    } else if c >= 'A' && c <= 'F' {
        Some((c as u32 - 55) as u8)
    } else {
        None
    }
}

/// Appends `n` in `base` to `out`.
pub fn push_numeral(out: &mut String, n: u64, base: u64)
    requires
        2 <= base <= 16,
    ensures
        final(out)@ == old(out)@ + numeral(n as nat, base as nat),
    decreases n,
{
    if n < base {
        out.push(digit(n as u8));
    } else {
        assert(n / base < n) by (nonlinear_arith)
            requires
                base >= 2,
                n >= base,
        ;
        push_numeral(out, n / base, base);
        out.push(digit((n % base) as u8));
    }
}

/// `n` in decimal.
pub fn dec_text(n: u64) -> (s: String)
    ensures
        s@ == dec(n as nat),
{
    let mut s = String::new();
    push_numeral(&mut s, n, 10);
    s
}

/// The characters of `s`, in order.
pub fn chars_of(s: &str) -> (v: Vec<char>)
    ensures
        v@ == s@,
{
    let mut v: Vec<char> = Vec::new();
    for c in it: s.chars()
        invariant
            it.seq() == s@,
            v@ == s@.take(it.index() as int),
    {
        v.push(c);
    }
    assert(s@.take(s@.len() as int) == s@);
    v
}

/// The text made of `chars`.
pub fn text_of(chars: &[char]) -> (s: String)
    ensures
        s@ == chars@,
{
    let mut s = String::new();
    let mut i: usize = 0;
    while i < chars.len()
        invariant
            i <= chars.len(),
            s@ == chars@.take(i as int),
        decreases chars.len() - i,
    {
        s.push(chars[i]);
        i = i + 1;
    }
    s
}

/// Whether two texts are the same.
pub fn same_text(a: &str, b: &str) -> (r: bool)
    ensures
        r == (a@ == b@),
{
    let x = String::from_str(a);
    let y = String::from_str(b);
    x == y
}

/// The value of `s` read as digits of `base`, unless it is empty, holds
/// anything else or exceeds `max`.
pub open spec fn number_in(s: Seq<char>, base: nat, max: nat) -> Option<nat> {
    if s.len() > 0 && all_digits(s, base) && digits_value(s, base) <= max {
        Some(digits_value(s, base))
    } else {
        None
    }
}

proof fn lemma_digits_value_grows(s: Seq<char>, k: int, base: nat)
    requires
        0 <= k <= s.len(),
        base >= 1,
    ensures
        digits_value(s.take(k), base) <= digits_value(s, base),
    decreases s.len() - k,
{
    if k < s.len() {
        lemma_digits_value_grows(s, k + 1, base);
        assert(s.take(k + 1).drop_last() == s.take(k));
        let v = digits_value(s.take(k), base);
        assert(v * base >= v) by (nonlinear_arith)
            requires
                base >= 1,
        ;
    } else {
        assert(s.take(k) == s);
    }
}

/// Reads a whole sequence of characters as a number.
pub fn parse_number(s: &[char], base: u64, max: u64) -> (r: Option<u64>)
    requires
        2 <= base <= 16,
        max <= 0xffff_ffff,
    ensures
        match r {
            Some(n) => number_in(s@, base as nat, max as nat) == Some(n as nat),
            None => number_in(s@, base as nat, max as nat) is None,
        },
{
    if s.len() == 0 {
        return None;
    }
    let mut n: u64 = 0;
    let mut i: usize = 0;
    while i < s.len()
        invariant
            i <= s.len(),
            2 <= base <= 16,
            max <= 0xffff_ffff,
            all_digits(s@.take(i as int), base as nat),
            n == digits_value(s@.take(i as int), base as nat),
            n <= max,
        decreases s.len() - i,
    {
        assert(s@.take(i + 1).drop_last() == s@.take(i as int));
        assert(s@.take(i + 1).last() == s@[i as int]);
        match value_of_digit(s[i]) {
            Some(d) => {
                if d as u64 >= base {
                    assert(digit_value(s@[i as int]) is Some && digit_value(s@[i as int])->0 >= base);
                    return None;
                }
                assert(n * base <= 0xffff_ffff * 16) by (nonlinear_arith)
                    requires
                        n <= 0xffff_ffff,
                        base <= 16,
                ;
                n = n * base + d as u64;
                if n > max {
                    proof {
                        lemma_digits_value_grows(s@, i + 1, base as nat);
                    }
                    return None;
                }
            },
            None => {
                assert(digit_value(s@[i as int]) is None);
                return None;
            },
        }
        i = i + 1;
    }
    assert(s@.take(i as int) == s@);
    Some(n)
}

/// A decimal number as `u16::from_str` reads it: an optional `+`, then digits.
pub open spec fn u16_in(s: Seq<char>) -> Option<nat> {
    if s.len() > 0 && s[0] == '+' {
        number_in(s.skip(1), 10, 65535)
    } else {
        number_in(s, 10, 65535)
    }
}

pub fn parse_u16(s: &[char]) -> (r: Option<u16>)
    ensures
        match r {
            Some(n) => u16_in(s@) == Some(n as nat),
            None => u16_in(s@) is None,
        },
{
    let digits = if s.len() > 0 && s[0] == '+' {
        vstd::slice::slice_subrange(s, 1, s.len())
    } else {
        s
    };
    proof {
        if s.len() > 0 && s@[0] == '+' {
            assert(digits@ == s@.skip(1));
        }
    }
    match parse_number(digits, 10, 65535) {
        Some(n) => Some(n as u16),
        None => None,
    }
}

/// A numeral is made of digits of its base and stands for its number.
pub proof fn numeral_reads_back(n: nat, base: nat)
    requires
        2 <= base <= 16,
    ensures
        all_digits(numeral(n, base), base),
        digits_value(numeral(n, base), base) == n,
        numeral(n, base).len() > 0,
    decreases n,
{
    let s = numeral(n, base);
    if n < base {
        assert(s.drop_last() == Seq::<char>::empty());
        assert(digits_value(Seq::<char>::empty(), base) == 0);
        assert(0 * base == 0) by (nonlinear_arith);
        assert(s.last() == digit_char(n));
        assert(digit_value(digit_char(n)) == Some(n));
    } else {
        assert(n / base < n) by (nonlinear_arith)
            requires
                base >= 2,
                n >= base,
        ;
        assert(n % base < base) by (nonlinear_arith)
            requires
                base >= 2,
        ;
        numeral_reads_back(n / base, base);
        assert(s.drop_last() == numeral(n / base, base));
        assert(s.last() == digit_char(n % base));
        assert(digit_value(digit_char(n % base)) == Some(n % base));
        assert((n / base) * base + n % base == n) by (nonlinear_arith)
            requires
                base >= 2,
        ;
        assert forall|i: int| 0 <= i < s.len() implies (#[trigger] digit_value(s[i])) is Some
            && digit_value(s[i])->0 < base by {
            if i < s.len() - 1 {
                assert(s[i] == s.drop_last()[i]);
            }
        }
    }
}

/// Different numbers have different numerals.
pub proof fn numerals_differ(m: nat, n: nat, base: nat)
    requires
        2 <= base <= 16,
        numeral(m, base) == numeral(n, base),
    ensures
        m == n,
{
    numeral_reads_back(m, base);
    numeral_reads_back(n, base);
}

/// The first place at or after `from` of the character `c`, or the length.
pub open spec fn place_of(s: Seq<char>, c: char, from: int) -> int
    decreases s.len() - from,
{
    if from >= s.len() {
        s.len() as int
    } else if s[from] == c {
        from
    } else {
        place_of(s, c, from + 1)
    }
}

/// The parts of `s` between the characters `c`.
pub open spec fn split(s: Seq<char>, c: char) -> Seq<Seq<char>>
    decreases s.len(),
    when true
    via split_decreases
{
    let at = place_of(s, c, 0);
    if at >= s.len() {
        seq![s]
    } else {
        seq![s.take(at)] + split(s.skip(at + 1), c)
    }
}

#[via_fn]
proof fn split_decreases(s: Seq<char>, c: char) {
    place_of_is_first(s, c, 0);
}

/// `parts` with `c` between them.
pub open spec fn join(parts: Seq<Seq<char>>, c: char) -> Seq<char>
    decreases parts.len(),
{
    if parts.len() == 0 {
        Seq::empty()
    } else if parts.len() == 1 {
        parts[0]
    } else {
        parts[0].push(c) + join(parts.skip(1), c)
    }
}

/// What `place_of` finds.
pub proof fn place_of_is_first(s: Seq<char>, c: char, from: int)
    requires
        0 <= from <= s.len(),
    ensures
        from <= place_of(s, c, from) <= s.len(),
        place_of(s, c, from) < s.len() ==> s[place_of(s, c, from)] == c,
        forall|i: int| from <= i < place_of(s, c, from) ==> s[i] != c,
    decreases s.len() - from,
{
    if from < s.len() && s[from] != c {
        place_of_is_first(s, c, from + 1);
    }
}

/// The first `c` of a text that starts with a part without one.
pub proof fn place_after(head: Seq<char>, c: char, tail: Seq<char>)
    requires
        !head.contains(c),
    ensures
        place_of(head.push(c) + tail, c, 0) == head.len(),
        place_of(head, c, 0) == head.len(),
{
    let s = head.push(c) + tail;
    place_of_is_first(s, c, 0);
    place_of_is_first(head, c, 0);
    assert(s[head.len() as int] == c);
    let at = place_of(s, c, 0);
    if at < head.len() {
        assert(head[at] == c);
    }
    let at2 = place_of(head, c, 0);
    if at2 < head.len() {
        assert(head[at2] == c);
    }
}

/// Splitting undoes joining, where no part holds the separator.
pub proof fn split_of_join(parts: Seq<Seq<char>>, c: char)
    requires
        parts.len() > 0,
        forall|i: int| 0 <= i < parts.len() ==> !(#[trigger] parts[i]).contains(c),
    ensures
        split(join(parts, c), c) == parts,
    decreases parts.len(),
{
    if parts.len() == 1 {
        assert(!parts[0].contains(c));
        place_after(parts[0], c, Seq::empty());
        assert(seq![parts[0]] =~= parts);
    } else {
        let rest = parts.skip(1);
        assert forall|i: int| 0 <= i < rest.len() implies !(#[trigger] rest[i]).contains(c) by {
            assert(rest[i] == parts[i + 1]);
        }
        split_of_join(rest, c);
        let s = join(parts, c);
        assert(!parts[0].contains(c));
        place_after(parts[0], c, join(rest, c));
        let at = parts[0].len() as int;
        assert(s.take(at) =~= parts[0]);
        assert(s.skip(at + 1) =~= join(rest, c));
        assert(seq![parts[0]] + rest =~= parts);
    }
}

/// The texts of a vector.
pub open spec fn texts(v: Seq<Vec<char>>) -> Seq<Seq<char>> {
    Seq::new(v.len(), |i: int| v[i]@)
}

/// The first place of `c` at or after `from`.
pub fn find_char(s: &[char], c: char, from: usize) -> (at: usize)
    requires
        from <= s.len(),
    ensures
        at == place_of(s@, c, from as int),
        from <= at <= s.len(),
{
    let mut i: usize = from;
    while i < s.len()
        invariant
            from <= i <= s.len(),
            place_of(s@, c, from as int) == place_of(s@, c, i as int),
        decreases s.len() - i,
    {
        if s[i] == c {
            return i;
        }
        i = i + 1;
    }
    i
}

/// A copy of `s[from..to]`.
pub fn copy_chars(s: &[char], from: usize, to: usize) -> (v: Vec<char>)
    requires
        from <= to <= s.len(),
    ensures
        v@ == s@.subrange(from as int, to as int),
{
    vstd::slice::slice_to_vec(vstd::slice::slice_subrange(s, from, to))
}

/// The parts of `s` between the characters `c`.
pub fn split_chars(s: &[char], c: char) -> (v: Vec<Vec<char>>)
    ensures
        texts(v@) == split(s@, c),
        v.len() > 0,
{
    let mut v: Vec<Vec<char>> = Vec::new();
    let mut start: usize = 0;
    assert(s@.skip(0) =~= s@);
    assert(texts(v@) + split(s@, c) =~= split(s@, c));
    loop
        invariant_except_break
            start <= s.len(),
            texts(v@) + split(s@.skip(start as int), c) == split(s@, c),
        ensures
            texts(v@) == split(s@, c),
            v.len() > 0,
        decreases s.len() - start,
    {
        let ghost rest = s@.skip(start as int);
        let at: usize = find_char(s, c, start);
        proof {
            lemma_place_shift(s@, c, start as int);
            place_of_is_first(rest, c, 0);
        }
        let ghost before = texts(v@);
        v.push(copy_chars(s, start, at));
        assert(texts(v@) =~= before.push(s@.subrange(start as int, at as int)));
        assert(rest.take(at - start) =~= s@.subrange(start as int, at as int));
        if at == s.len() {
            assert(rest.take(at - start) =~= rest);
            assert(before + seq![rest] =~= before.push(rest));
            break;
        }
        assert(rest.skip(at - start + 1) =~= s@.skip(at + 1));
        assert(before + (seq![rest.take(at - start)] + split(s@.skip(at + 1), c)) =~= before.push(
            rest.take(at - start),
        ) + split(s@.skip(at + 1), c));
        start = at + 1;
    }
    v
}

proof fn lemma_place_shift(s: Seq<char>, c: char, from: int)
    requires
        0 <= from <= s.len(),
    ensures
        place_of(s, c, from) == from + place_of(s.skip(from), c, 0),
{
    place_of_is_first(s, c, from);
    place_of_is_first(s.skip(from), c, 0);
    let a = place_of(s, c, from);
    let b = place_of(s.skip(from), c, 0);
    if a < from + b {
        assert(s.skip(from)[a - from] == s[a]);
    } else if a > from + b {
        assert(s.skip(from)[b] == s[from + b]);
    }
}

/// Whether Unicode counts a character as white space.
pub open spec fn is_space(c: char) -> bool {
    ||| '\u{9}' <= c <= '\u{d}'
    ||| c == ' '
    ||| c == '\u{85}'
    ||| c == '\u{a0}'
    ||| c == '\u{1680}'
    ||| '\u{2000}' <= c <= '\u{200a}'
    ||| c == '\u{2028}'
    ||| c == '\u{2029}'
    ||| c == '\u{202f}'
    ||| c == '\u{205f}'
    ||| c == '\u{3000}'
}

pub fn char_is_space(c: char) -> (r: bool)
    ensures
        r == is_space(c),
{
    (c >= '\u{9}' && c <= '\u{d}') || c == ' ' || c == '\u{85}' || c == '\u{a0}' || c == '\u{1680}'
        || (c >= '\u{2000}' && c <= '\u{200a}') || c == '\u{2028}' || c == '\u{2029}' || c
        == '\u{202f}' || c == '\u{205f}' || c == '\u{3000}'
}

/// `s` without white space at its start.
pub open spec fn trim_start(s: Seq<char>) -> Seq<char>
    decreases s.len(),
{
    if s.len() > 0 && is_space(s[0]) {
        trim_start(s.skip(1))
    } else {
        s
    }
}

/// `s` without white space at its end.
pub open spec fn trim_end(s: Seq<char>) -> Seq<char>
    decreases s.len(),
{
    if s.len() > 0 && is_space(s.last()) {
        trim_end(s.drop_last())
    } else {
        s
    }
}

/// `s` without white space at either end.
pub open spec fn trimmed(s: Seq<char>) -> Seq<char> {
    trim_end(trim_start(s))
}

/// `s` without white space at either end.
pub fn trim(s: &[char]) -> (v: Vec<char>)
    ensures
        v@ == trimmed(s@),
{
    let mut start: usize = 0;
    assert(s@.skip(0) =~= s@);
    while start < s.len() && char_is_space(s[start])
        invariant
            start <= s.len(),
            trim_start(s@) == trim_start(s@.skip(start as int)),
        decreases s.len() - start,
    {
        assert(s@.skip(start as int).skip(1) =~= s@.skip(start + 1));
        start = start + 1;
    }
    assert(trim_start(s@) == s@.skip(start as int));
    let mut end: usize = s.len();
    while end > start && char_is_space(s[end - 1])
        invariant
            start <= end <= s.len(),
            trim_end(s@.skip(start as int)) == trim_end(s@.subrange(start as int, end as int)),
        decreases end - start,
    {
        assert(s@.subrange(start as int, end as int).drop_last() =~= s@.subrange(
            start as int,
            end - 1,
        ));
        end = end - 1;
    }
    copy_chars(s, start, end)
}

/// Joining two lists of parts.
pub proof fn join_of_two(a: Seq<Seq<char>>, b: Seq<Seq<char>>, c: char)
    requires
        a.len() > 0,
        b.len() > 0,
    ensures
        join(a + b, c) == join(a, c).push(c) + join(b, c),
    decreases a.len(),
{
    let all = a + b;
    if a.len() == 1 {
        assert(all.skip(1) =~= b);
    } else {
        join_of_two(a.skip(1), b, c);
        assert(all.skip(1) =~= a.skip(1) + b);
        assert(join(all, c) =~= join(a, c).push(c) + join(b, c));
    }
}

/// A numeral holds no character that is not a digit.
pub proof fn numeral_has_no(n: nat, base: nat, c: char)
    requires
        2 <= base <= 16,
        digit_value(c) is None,
    ensures
        !numeral(n, base).contains(c),
{
    numeral_reads_back(n, base);
    let s = numeral(n, base);
    if s.contains(c) {
        let i = choose|i: int| 0 <= i < s.len() && s[i] == c;
        assert(digit_value(s[i]) is Some);
    }
}

/// How long a numeral of a small number is.
pub proof fn numeral_is_short(n: nat)
    ensures
        n < 65536 ==> numeral(n, 16).len() <= 4,
        n < 256 ==> numeral(n, 10).len() <= 3,
{
    reveal_with_fuel(numeral, 4);
}

/// A numeral of more than one digit does not start with zero.
pub proof fn numeral_starts(n: nat, base: nat)
    requires
        2 <= base <= 16,
    ensures
        numeral(n, base).len() > 1 ==> numeral(n, base)[0] != '0',
        n > 0 ==> numeral(n, base)[0] != '0',
        numeral(n, base).len() > 0,
    decreases n,
{
    if n >= base {
        assert(n / base < n && n / base > 0) by (nonlinear_arith)
            requires
                base >= 2,
                n >= base,
        ;
        numeral_starts(n / base, base);
    }
}

/// Joining undoes splitting.
pub proof fn join_of_split(s: Seq<char>, c: char)
    ensures
        join(split(s, c), c) == s,
        split(s, c).len() > 0,
    decreases s.len(),
{
    let at = place_of(s, c, 0);
    place_of_is_first(s, c, 0);
    if at < s.len() {
        let rest = s.skip(at + 1);
        join_of_split(rest, c);
        let parts = split(s, c);
        assert(parts.skip(1) =~= split(rest, c));
        assert(s =~= s.take(at).push(c) + rest);
    }
}

/// A joined text holds no character that neither its parts nor the separator
/// hold.
pub proof fn join_has_no(parts: Seq<Seq<char>>, sep: char, c: char)
    requires
        sep != c,
        forall|i: int| 0 <= i < parts.len() ==> !(#[trigger] parts[i]).contains(c),
    ensures
        !join(parts, sep).contains(c),
    decreases parts.len(),
{
    let s = join(parts, sep);
    if parts.len() > 0 {
        assert(!parts[0].contains(c));
    }
    if parts.len() > 1 {
        let rest = parts.skip(1);
        assert forall|i: int| 0 <= i < rest.len() implies !(#[trigger] rest[i]).contains(c) by {
            assert(rest[i] == parts[i + 1]);
        }
        join_has_no(rest, sep, c);
        let tail = join(rest, sep);
        if s.contains(c) {
            let i = choose|i: int| 0 <= i < s.len() && s[i] == c;
            let n = parts[0].len();
            if i < n {
                assert(parts[0][i] == c);
            } else if i > n {
                assert(tail[i - n - 1] == c);
            }
        }
    }
}

/// A decimal number as `u32::from_str` reads it: an optional `+`, then digits.
pub open spec fn u32_in(s: Seq<char>) -> Option<nat> {
    if s.len() > 0 && s[0] == '+' {
        number_in(s.skip(1), 10, 0xffff_ffff)
    } else {
        number_in(s, 10, 0xffff_ffff)
    }
}

pub fn parse_u32(s: &[char]) -> (r: Option<u32>)
    ensures
        match r {
            Some(n) => u32_in(s@) == Some(n as nat),
            None => u32_in(s@) is None,
        },
{
    let digits = if s.len() > 0 && s[0] == '+' {
        vstd::slice::slice_subrange(s, 1, s.len())
    } else {
        s
    };
    proof {
        if s.len() > 0 && s@[0] == '+' {
            assert(digits@ == s@.skip(1));
        }
    }
    match parse_number(digits, 10, 0xffff_ffff) {
        Some(n) => Some(n as u32),
        None => None,
    }
}

/// The first place at or after `from` of a white space, or the length.
pub open spec fn place_of_space(s: Seq<char>, from: int) -> int
    decreases s.len() - from,
{
    if from >= s.len() {
        s.len() as int
    } else if is_space(s[from]) {
        from
    } else {
        place_of_space(s, from + 1)
    }
}

/// The first word of `s`, which is empty if there is none, and what follows.
pub open spec fn first_word(s: Seq<char>) -> (Seq<char>, Seq<char>) {
    let t = trim_start(s);
    let end = place_of_space(t, 0);
    (t.take(end), t.skip(end))
}

/// The first word of `s`, which is empty if there is none, and what follows.
pub fn next_word(s: &[char]) -> (r: (Vec<char>, Vec<char>))
    ensures
        (r.0@, r.1@) == first_word(s@),
{
    let mut start: usize = 0;
    assert(s@.skip(0) =~= s@);
    while start < s.len() && char_is_space(s[start])
        invariant
            start <= s.len(),
            trim_start(s@) == trim_start(s@.skip(start as int)),
        decreases s.len() - start,
    {
        assert(s@.skip(start as int).skip(1) =~= s@.skip(start + 1));
        start = start + 1;
    }
    let ghost t = s@.skip(start as int);
    assert(trim_start(s@) == t);
    let mut end: usize = start;
    while end < s.len() && !char_is_space(s[end])
        invariant
            start <= end <= s.len(),
            t == s@.skip(start as int),
            place_of_space(t, 0) == place_of_space(t, end - start),
        decreases s.len() - end,
    {
        end = end + 1;
    }
    assert(place_of_space(t, 0) == end - start);
    assert(t.take(end - start) =~= s@.subrange(start as int, end as int));
    assert(t.skip(end - start) =~= s@.subrange(end as int, s@.len() as int));
    (copy_chars(s, start, end), copy_chars(s, end, s.len()))
}

/// The thousandths `r` behind a decimal point, without trailing zeros.
pub open spec fn fraction(r: nat) -> Seq<char> {
    if r == 0 {
        Seq::empty()
    } else if r % 100 == 0 {
        seq!['.', digit_char(r / 100)]
    } else if r % 10 == 0 {
        seq!['.', digit_char(r / 100), digit_char(r / 10 % 10)]
    } else {
        seq!['.', digit_char(r / 100), digit_char(r / 10 % 10), digit_char(r % 10)]
    }
}

/// A duration in milliseconds, as `{:?}` writes a `Duration`: `8s`, `1.5s`,
/// `300ms`, `0ns`.
pub open spec fn duration(ms: nat) -> Seq<char> {
    if ms == 0 {
        "0ns"@
    } else if ms < 1000 {
        dec(ms) + "ms"@
    } else {
        dec(ms / 1000) + fraction(ms % 1000) + "s"@
    }
}

/// A duration in milliseconds, as `{:?}` writes a `Duration`.
pub fn duration_text(ms: u64) -> (s: String)
    ensures
        s@ == duration(ms as nat),
{
    if ms == 0 {
        return String::from_str("0ns");
    }
    if ms < 1000 {
        return dec_text(ms).concat("ms");
    }
    let mut s = dec_text(ms / 1000);
    let ghost head = s@;
    let r: u64 = ms % 1000;
    if r != 0 {
        s.push('.');
        s.push(digit((r / 100) as u8));
        if r % 100 != 0 {
            s.push(digit((r / 10 % 10) as u8));
            if r % 10 != 0 {
                s.push(digit((r % 10) as u8));
            }
        }
    }
    assert(s@ =~= head + fraction(r as nat));
    s.concat("s")
}

/// A number in decimal, with a minus sign where it is negative.
pub open spec fn signed(n: int) -> Seq<char> {
    if n < 0 {
        seq!['-'] + dec((-n) as nat)
    } else {
        dec(n as nat)
    }
}

/// A number in decimal, with a minus sign where it is negative.
pub fn signed_text(n: i64) -> (s: String)
    ensures
        s@ == signed(n as int),
{
    if n >= 0 {
        return dec_text(n as u64);
    }
    let mut s = String::new();
    s.push('-');
    let m: u64 = if n == i64::MIN {
        0x8000_0000_0000_0000
    } else {
        (-n) as u64
    };
    push_numeral(&mut s, m, 10);
    assert(s@ =~= signed(n as int));
    s
}

/// Whether a text can be cut after `n` bytes: it is no longer, or a character
/// ends there.
pub open spec fn cut_fits(s: Seq<char>, n: nat) -> bool {
    encode_utf8(s).len() > n ==> is_char_boundary(encode_utf8(s), n as int)
}

/// The first `n` bytes of a text, or all of a shorter one.
pub open spec fn first_bytes(s: Seq<char>, n: nat) -> Seq<char> {
    if encode_utf8(s).len() <= n {
        s
    } else {
        decode_utf8(encode_utf8(s).take(n as int))
    }
}

/// The first `n` bytes of a text, or all of a shorter one.
pub fn first_bytes_of(s: &str, n: usize) -> (r: String)
    requires
        cut_fits(s@, n as nat),
    ensures
        r@ == first_bytes(s@, n as nat),
{
    if s.as_bytes().len() <= n {
        return String::from_str(s);
    }
    let head = s.split_at(n).0;
    proof {
        encode_utf8_decode_utf8(head@);
        assert(encode_utf8(head@) == encode_utf8(s@).take(n as int));
    }
    String::from_str(head)
}

/// A text of ASCII characters can be cut anywhere, and has as many characters
/// as bytes.
pub proof fn ascii_is_cut_anywhere(s: Seq<char>, n: nat)
    requires
        is_ascii_chars(s),
    ensures
        cut_fits(s, n),
        first_bytes(s, n) == (if s.len() <= n {
            s
        } else {
            s.take(n as int)
        }),
{
    is_ascii_chars_encode_utf8(s);
    encode_utf8_valid_utf8(s);
    if s.len() > n {
        let head = s.take(n as int);
        assert(s[n as int] as u8 == encode_utf8(s)[n as int]);
        is_char_boundary_iff_not_is_continuation_byte(encode_utf8(s), n as int);
        assert(is_ascii_chars(head));
        is_ascii_chars_encode_utf8(head);
        assert forall|i: int| 0 <= i < n implies encode_utf8(head)[i] == encode_utf8(s)[i] by {
            assert(head[i] == s[i]);
        }
        assert(encode_utf8(head) =~= encode_utf8(s).take(n as int));
        encode_utf8_decode_utf8(head);
    }
}

/// A text without the separator is its only part.
pub proof fn split_of_one(s: Seq<char>, c: char)
    requires
        !s.contains(c),
    ensures
        split(s, c) == seq![s],
{
    place_of_is_first(s, c, 0);
    let at = place_of(s, c, 0);
    if at < s.len() {
        assert(s.contains(s[at]));
    }
}

/// The parts of two texts with the separator between them are the parts of the
/// one and then those of the other.
pub proof fn split_of_two(a: Seq<char>, c: char, b: Seq<char>)
    ensures
        split(a.push(c) + b, c) == split(a, c) + split(b, c),
    decreases a.len(),
{
    let s = a.push(c) + b;
    let at = place_of(a, c, 0);
    place_of_is_first(a, c, 0);
    place_of_is_first(s, c, 0);
    let found = place_of(s, c, 0);
    assert(s[a.len() as int] == c);
    if at < a.len() {
        assert(s[at] == c);
        assert(found == at) by {
            if found < at {
                assert(a[found] == s[found]);
            }
        }
        split_of_two(a.skip(at + 1), c, b);
        assert(s.skip(at + 1) =~= a.skip(at + 1).push(c) + b);
        assert(s.take(at) =~= a.take(at));
        assert(split(s, c) =~= split(a, c) + split(b, c));
    } else {
        assert(found == a.len()) by {
            if found < a.len() {
                assert(a[found] == s[found]);
            }
        }
        assert(s.take(found) =~= a);
        assert(s.skip(found + 1) =~= b);
    }
}

/// What is trimmed is what stands between the white space at the two ends, and
/// has none at either end.
pub proof fn trimmed_has_no_space_around(s: Seq<char>)
    ensures
        trimmed(s).len() > 0 ==> !is_space(trimmed(s)[0]) && !is_space(trimmed(s).last()),
        exists|i: int, j: int|
            {
                &&& 0 <= i <= j <= s.len()
                &&& trimmed(s) == #[trigger] s.subrange(i, j)
                &&& forall|k: int| 0 <= k < i ==> is_space(#[trigger] s[k])
                &&& forall|k: int| j <= k < s.len() ==> is_space(#[trigger] s[k])
            },
{
    let t = trim_start(s);
    lemma_trim_start(s);
    lemma_trim_end(t);
    let i = s.len() - t.len();
    let j = i + trimmed(s).len();
    assert(trimmed(s) =~= s.subrange(i, j));
    assert forall|k: int| j <= k < s.len() implies is_space(#[trigger] s[k]) by {
        assert(t[k - i] == s[k]);
    }
}

proof fn lemma_trim_start(s: Seq<char>)
    ensures
        trim_start(s).len() <= s.len(),
        trim_start(s) == s.skip(s.len() - trim_start(s).len()),
        trim_start(s).len() > 0 ==> !is_space(trim_start(s)[0]),
        forall|k: int| 0 <= k < s.len() - trim_start(s).len() ==> is_space(#[trigger] s[k]),
    decreases s.len(),
{
    if s.len() > 0 && is_space(s[0]) {
        lemma_trim_start(s.skip(1));
        let n = s.len() - trim_start(s).len();
        assert(s.skip(1).skip(n - 1) =~= s.skip(n));
        assert forall|k: int| 0 <= k < n implies is_space(#[trigger] s[k]) by {
            if k > 0 {
                assert(s.skip(1)[k - 1] == s[k]);
            }
        }
    } else {
        assert(s.skip(0) =~= s);
    }
}

proof fn lemma_trim_end(s: Seq<char>)
    ensures
        trim_end(s).len() <= s.len(),
        trim_end(s) == s.take(trim_end(s).len() as int),
        trim_end(s).len() > 0 ==> !is_space(trim_end(s).last()),
        forall|k: int| trim_end(s).len() <= k < s.len() ==> is_space(#[trigger] s[k]),
    decreases s.len(),
{
    if s.len() > 0 && is_space(s.last()) {
        lemma_trim_end(s.drop_last());
        let n = trim_end(s).len() as int;
        assert(s.drop_last().take(n) =~= s.take(n));
        assert forall|k: int| n <= k < s.len() implies is_space(#[trigger] s[k]) by {
            if k < s.len() - 1 {
                assert(s.drop_last()[k] == s[k]);
            }
        }
    } else {
        assert(s.take(s.len() as int) =~= s);
    }
}

/// The digits behind the point of a duration spell its thousandths of a second,
/// without a zero at their end.
pub proof fn fraction_spells_the_thousandths(r: nat)
    requires
        0 < r < 1000,
    ensures
        ({
            let f = fraction(r);
            let value = digits_value(f.skip(1), 10);
            &&& f[0] == '.'
            &&& f.last() != '0'
            &&& f.len() == 2 && value * 100 == r || f.len() == 3 && value * 10 == r || f.len() == 4
                && value == r
        }),
{
    let f = fraction(r);
    let d = f.skip(1);
    reveal_with_fuel(digits_value, 4);
    if r % 100 == 0 {
        assert(d =~= seq![digit_char(r / 100)]);
        assert(d.drop_last() =~= Seq::<char>::empty());
    } else if r % 10 == 0 {
        assert(d =~= seq![digit_char(r / 100), digit_char(r / 10 % 10)]);
        assert(d.drop_last() =~= seq![digit_char(r / 100)]);
        assert(d.drop_last().drop_last() =~= Seq::<char>::empty());
    } else {
        assert(d =~= seq![digit_char(r / 100), digit_char(r / 10 % 10), digit_char(r % 10)]);
        assert(d.drop_last() =~= seq![digit_char(r / 100), digit_char(r / 10 % 10)]);
        assert(d.drop_last().drop_last() =~= seq![digit_char(r / 100)]);
        assert(d.drop_last().drop_last().drop_last() =~= Seq::<char>::empty());
    }
}

/// A duration is told in milliseconds below a second, and in seconds from there
/// on: whole ones, and then the thousandths.
pub proof fn durations_are_told_in_their_unit(ms: nat)
    ensures
        0 < ms < 1000 ==> duration(ms) == dec(ms) + seq!['m', 's'],
        ms >= 1000 && ms % 1000 == 0 ==> duration(ms) == dec(ms / 1000) + seq!['s'],
        ms >= 1000 && ms % 1000 != 0 ==> duration(ms) == dec(ms / 1000) + fraction(ms % 1000) + seq![
            's',
        ],
{
    reveal_strlit("ms");
    reveal_strlit("s");
    assert("ms"@ =~= seq!['m', 's']);
    assert("s"@ =~= seq!['s']);
    if ms % 1000 == 0 {
        assert(dec(ms / 1000) + fraction(ms % 1000) =~= dec(ms / 1000));
    }
}

/// A number with a sign reads back: a minus stands in front exactly where it is
/// negative, and the digits spell its size.
pub proof fn signed_reads_back(n: int)
    ensures
        n < 0 ==> signed(n)[0] == '-' && digits_value(signed(n).skip(1), 10) == -n,
        n >= 0 ==> !signed(n).contains('-') && digits_value(signed(n), 10) == n,
{
    if n < 0 {
        numeral_reads_back((-n) as nat, 10);
        assert(signed(n).skip(1) =~= dec((-n) as nat));
    } else {
        numeral_reads_back(n as nat, 10);
        numeral_has_no(n as nat, 10, '-');
    }
}

} // verus!
