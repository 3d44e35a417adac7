//! UTC dates and times of Unix timestamps.

use vstd::prelude::*;
use vstd::string::*;
use crate::text;

verus! {

/// Whether `y` is a leap year of the Gregorian calendar.
pub open spec fn is_leap(y: nat) -> bool {
    y % 4 == 0 && (y % 100 != 0 || y % 400 == 0)
}

/// The number of days in a month.
pub open spec fn month_len(y: nat, m: nat) -> nat {
    if m == 2 {
        if is_leap(y) {
            29
        } else {
            28
        }
    } else if m == 4 || m == 6 || m == 9 || m == 11 {
        30
    } else {
        31
    }
}

/// The number of days in a year.
pub open spec fn year_len(y: nat) -> nat {
    if is_leap(y) {
        366
    } else {
        365
    }
}

/// The number of days from 1 January of year 0 to 1 January of year `y`.
pub open spec fn days_before_year(y: nat) -> nat
    decreases y,
{
    if y == 0 {
        0
    } else {
        days_before_year((y - 1) as nat) + year_len((y - 1) as nat)
    }
}

/// The number of days from 1 January to the first of month `m`.
pub open spec fn days_before_month(y: nat, m: nat) -> nat
    decreases m,
{
    if m <= 1 {
        0
    } else {
        days_before_month(y, (m - 1) as nat) + month_len(y, (m - 1) as nat)
    }
}

/// A point in time, to the second.
#[derive(Debug, Clone, Copy, PartialEq, Eq)]
pub struct Civil {
    pub year: u64,
    pub month: u64,
    pub day: u64,
    pub hour: u64,
    pub minute: u64,
    pub second: u64,
}

/// The number of days from 1 January of year 0 to 1 January 1970.
pub const EPOCH_DAYS: u64 = 719528;

impl Civil {
    /// Whether this is a date and a time of day that exist.
    pub open spec fn valid(&self) -> bool {
        &&& 1 <= self.month <= 12
        &&& 1 <= self.day <= month_len(self.year as nat, self.month as nat)
        &&& self.hour < 24
        &&& self.minute < 60
        &&& self.second < 60
    }

    /// The number of days from 1 January of year 0.
    pub open spec fn day_number(&self) -> nat {
        (days_before_year(self.year as nat) + days_before_month(
            self.year as nat,
            self.month as nat,
        ) + self.day - 1) as nat
    }

    /// The number of seconds from the start of 1 January of year 0.
    pub open spec fn seconds(&self) -> nat {
        self.day_number() * 86400 + self.hour as nat * 3600 + self.minute as nat * 60
            + self.second as nat
    }
}

/// Whether `c` is the date and the time at `unix_ms` milliseconds after the
/// start of 1970, with what is less than a second cut off.
pub open spec fn is_civil_of(c: Civil, unix_ms: nat) -> bool {
    c.valid() && c.seconds() == EPOCH_DAYS * 86400 + unix_ms / 1000
}

fn leap(y: u64) -> (r: bool)
    ensures
        r == is_leap(y as nat),
{
    y % 4 == 0 && (y % 100 != 0 || y % 400 == 0)
}

fn len_of_year(y: u64) -> (n: u64)
    ensures
        n == year_len(y as nat),
{
    if leap(y) {
        366
    } else {
        365
    }
}

fn len_of_month(y: u64, m: u64) -> (n: u64)
    ensures
        n == month_len(y as nat, m as nat),
{
    if m == 2 {
        if leap(y) {
            29
        } else {
            28
        }
    } else if m == 4 || m == 6 || m == 9 || m == 11 {
        30
    } else {
        31
    }
}

proof fn lemma_leap_repeats(e: nat, y: nat)
    ensures
        is_leap(400 * e + y) == is_leap(y),
{
    vstd::arithmetic::div_mod::lemma_mod_multiples_vanish(100 * e as int, y as int, 4);
    vstd::arithmetic::div_mod::lemma_mod_multiples_vanish(4 * e as int, y as int, 100);
    vstd::arithmetic::div_mod::lemma_mod_multiples_vanish(e as int, y as int, 400);
}

/// Four hundred years have the same number of days wherever they start from a
/// multiple of four hundred.
proof fn lemma_era(e: nat, y: nat)
    ensures
        days_before_year(400 * e + y) == days_before_year(400 * e) + days_before_year(y),
    decreases y,
{
    if y > 0 {
        lemma_era(e, (y - 1) as nat);
        lemma_leap_repeats(e, (y - 1) as nat);
        assert(400 * e + y - 1 == 400 * e + (y - 1));
    }
}

#[verifier::spinoff_prover]
#[verifier::rlimit(50)]
proof fn lemma_days_formula(y: nat)
    ensures
        days_before_year(y) == 365 * y + (y + 3) / 4 - (y + 99) / 100 + (y + 399) / 400,
    decreases y,
{
    if y > 0 {
        lemma_days_formula((y - 1) as nat);
    }
}

proof fn lemma_eras(e: nat)
    ensures
        days_before_year(400 * e) == 146097 * e,
{
    lemma_days_formula(400 * e);
}

/// The year that holds a day, and the days before it in that year.
fn year_of_day(z: u64) -> (r: (u64, u64))
    requires
        z <= 0xffff_ffff_ffff,
    ensures
        days_before_year(r.0 as nat) + r.1 == z,
        r.1 < year_len(r.0 as nat),
{
    let era: u64 = z / 146097;
    let doe: u64 = z % 146097;
    let mut y: u64 = 0;
    let mut before: u64 = 0;
    while y < 399 && before + len_of_year(y) <= doe
        invariant_except_break
            y <= 399,
            before == days_before_year(y as nat),
            before <= doe < 146097,
        ensures
            y <= 399,
            before == days_before_year(y as nat),
            before <= doe < 146097,
            y == 399 || before + year_len(y as nat) > doe,
        decreases 399 - y,
    {
        before = before + len_of_year(y);
        y = y + 1;
    }
    let year: u64 = era * 400 + y;
    proof {
        lemma_era(era as nat, y as nat);
        lemma_eras(era as nat);
        lemma_eras(1);
        lemma_leap_repeats(era as nat, y as nat);
        assert(z == 146097 * era + doe);
        if y == 399 {
            assert(days_before_year(400) == days_before_year(399) + year_len(399));
        }
    }
    (year, doe - before)
}

/// The month that holds a day of a year, and the days before it in that month.
fn month_of_day(year: u64, doy: u64) -> (r: (u64, u64))
    requires
        doy < year_len(year as nat),
    ensures
        1 <= r.0 <= 12,
        days_before_month(year as nat, r.0 as nat) + r.1 == doy,
        r.1 < month_len(year as nat, r.0 as nat),
{
    let mut month: u64 = 1;
    let mut first: u64 = 0;
    while month < 12 && first + len_of_month(year, month) <= doy
        invariant_except_break
            1 <= month <= 12,
            first == days_before_month(year as nat, month as nat),
            first <= doy < year_len(year as nat),
        ensures
            1 <= month <= 12,
            first == days_before_month(year as nat, month as nat),
            first <= doy < year_len(year as nat),
            month == 12 || first + month_len(year as nat, month as nat) > doy,
        decreases 12 - month,
    {
        first = first + len_of_month(year, month);
        month = month + 1;
    }
    proof {
        lemma_year_of_months(year as nat);
    }
    (month, doy - first)
}

/// The date and the time of a Unix timestamp in milliseconds.
pub fn civil_from_unix_ms(unix_ms: u64) -> (c: Civil)
    ensures
        is_civil_of(c, unix_ms as nat),
{
    let secs: u64 = unix_ms / 1000;
    let tod: u64 = secs % 86400;
    let (year, doy) = year_of_day(secs / 86400 + EPOCH_DAYS);
    let (month, day) = month_of_day(year, doy);
    Civil {
        year,
        month,
        day: day + 1,
        hour: tod / 3600,
        minute: tod % 3600 / 60,
        second: tod % 60,
    }
}

proof fn lemma_year_of_months(y: nat)
    ensures
        days_before_month(y, 12) + month_len(y, 12) == year_len(y),
{
    reveal_with_fuel(days_before_month, 13);
}

/// `n` in decimal with zeros in front up to `width` digits.
pub open spec fn padded(n: nat, width: nat) -> Seq<char> {
    let digits = text::dec(n);
    if digits.len() >= width {
        digits
    } else {
        Seq::new((width - digits.len()) as nat, |i: int| '0') + digits
    }
}

/// `YYYYmmddTHHMMSSZ`.
pub open spec fn stamp_text(c: Civil) -> Seq<char> {
    padded(c.year as nat, 4) + padded(c.month as nat, 2) + padded(c.day as nat, 2) + seq!['T']
        + padded(c.hour as nat, 2) + padded(c.minute as nat, 2) + padded(c.second as nat, 2)
        + seq!['Z']
}

/// `YYYY-MM-DD HH:MM:SSZ`.
pub open spec fn timestamp_text(c: Civil) -> Seq<char> {
    padded(c.year as nat, 4) + seq!['-'] + padded(c.month as nat, 2) + seq!['-'] + padded(
        c.day as nat,
        2,
    ) + seq![' '] + padded(c.hour as nat, 2) + seq![':'] + padded(c.minute as nat, 2) + seq![':']
        + padded(c.second as nat, 2) + seq!['Z']
}

fn push_padded(s: &mut String, n: u64, width: usize)
    requires
        width <= 4,
    ensures
        final(s)@ == old(s)@ + padded(n as nat, width as nat),
{
    let digits = text::dec_text(n);
    let len: usize = digits.as_str().unicode_len();
    let ghost before = s@;
    let ghost zeros = Seq::new((width - len) as nat, |i: int| '0');
    let mut i: usize = len;
    while i < width
        invariant
            len <= i,
            i <= width || i == len,
            zeros == Seq::new((width - len) as nat, |i: int| '0'),
            s@ == before + zeros.take(i - len),
            len <= width ==> i <= width,
        decreases width - i,
    {
        s.push('0');
        i = i + 1;
    }
    assert(len < width ==> zeros.take(i - len) =~= zeros);
    assert(len >= width ==> zeros.take(0) =~= Seq::<char>::empty());
    s.append(digits.as_str());
}

/// The time as it stands in file names, so that they sort by time.
pub fn utc_stamp(unix_ms: u64) -> (s: String)
    ensures
        exists|c: Civil| is_civil_of(c, unix_ms as nat) && s@ == #[trigger] stamp_text(c),
{
    let c = civil_from_unix_ms(unix_ms);
    let mut s = String::new();
    push_padded(&mut s, c.year, 4);
    push_padded(&mut s, c.month, 2);
    push_padded(&mut s, c.day, 2);
    s.push('T');
    push_padded(&mut s, c.hour, 2);
    push_padded(&mut s, c.minute, 2);
    push_padded(&mut s, c.second, 2);
    s.push('Z');
    assert(s@ =~= stamp_text(c));
    s
}

/// The time for a human reader.
pub fn utc_timestamp(unix_ms: u64) -> (s: String)
    ensures
        exists|c: Civil| is_civil_of(c, unix_ms as nat) && s@ == #[trigger] timestamp_text(c),
{
    let c = civil_from_unix_ms(unix_ms);
    let mut s = String::new();
    push_padded(&mut s, c.year, 4);
    s.push('-');
    push_padded(&mut s, c.month, 2);
    s.push('-');
    push_padded(&mut s, c.day, 2);
    s.push(' ');
    push_padded(&mut s, c.hour, 2);
    s.push(':');
    push_padded(&mut s, c.minute, 2);
    s.push(':');
    push_padded(&mut s, c.second, 2);
    s.push('Z');
    assert(s@ =~= timestamp_text(c));
    s
}

/// Whether date and time `a` come before `b` field by field.
pub open spec fn earlier(a: Civil, b: Civil) -> bool {
    ||| a.year < b.year
    ||| a.year == b.year && a.month < b.month
    ||| a.year == b.year && a.month == b.month && a.day < b.day
    ||| a.year == b.year && a.month == b.month && a.day == b.day && a.hour < b.hour
    ||| a.year == b.year && a.month == b.month && a.day == b.day && a.hour == b.hour && a.minute
        < b.minute
    ||| a.year == b.year && a.month == b.month && a.day == b.day && a.hour == b.hour && a.minute
        == b.minute && a.second < b.second
}

proof fn lemma_years_grow(a: nat, b: nat)
    requires
        a <= b,
    ensures
        days_before_year(a) <= days_before_year(b),
    decreases b - a,
{
    if a < b {
        lemma_years_grow(a, (b - 1) as nat);
    }
}

proof fn lemma_months_grow(y: nat, a: nat, b: nat)
    requires
        1 <= a <= b,
    ensures
        days_before_month(y, a) <= days_before_month(y, b),
    decreases b - a,
{
    if a < b {
        lemma_months_grow(y, a, (b - 1) as nat);
    }
}

proof fn lemma_in_year(c: Civil)
    requires
        c.valid(),
    ensures
        days_before_month(c.year as nat, c.month as nat) + c.day <= year_len(c.year as nat),
{
    let y = c.year as nat;
    lemma_months_grow(y, c.month as nat + 1, 13);
    lemma_year_of_months(y);
    assert(days_before_month(y, 13) == days_before_month(y, 12) + month_len(y, 12));
}

proof fn lemma_earlier(a: Civil, b: Civil)
    requires
        a.valid(),
        b.valid(),
        earlier(a, b),
    ensures
        a.seconds() < b.seconds(),
{
    lemma_in_year(a);
    let y = a.year as nat;
    if a.year < b.year {
        lemma_years_grow(y + 1, b.year as nat);
        assert(days_before_year(y + 1) == days_before_year(y) + year_len(y));
    } else if a.month < b.month {
        lemma_months_grow(y, a.month as nat + 1, b.month as nat);
        assert(days_before_month(y, a.month as nat + 1) == days_before_month(y, a.month as nat)
            + month_len(y, a.month as nat));
    }
}

/// There is one date and time for every second.
pub proof fn civil_is_unique(a: Civil, b: Civil)
    requires
        a.valid(),
        b.valid(),
        a.seconds() == b.seconds(),
    ensures
        a == b,
{
    if a != b {
        if earlier(a, b) {
            lemma_earlier(a, b);
        } else {
            lemma_earlier(b, a);
        }
    }
}

/// Whether `s` sorts before `t`, character by character.
pub open spec fn sorts_before(s: Seq<char>, t: Seq<char>) -> bool {
    exists|i: int|
        0 <= i < s.len() && i < t.len() && #[trigger] s[i] < t[i] && s.take(i) == t.take(i)
}

proof fn lemma_two_digits(n: nat)
    requires
        n < 100,
    ensures
        padded(n, 2) == seq![text::digit_char(n / 10), text::digit_char(n % 10)],
{
    reveal_with_fuel(text::numeral, 3);
    assert(padded(n, 2) =~= seq![text::digit_char(n / 10), text::digit_char(n % 10)]);
}

proof fn lemma_four_digits(n: nat)
    requires
        n < 10000,
    ensures
        padded(n, 4) == seq![
            text::digit_char(n / 1000),
            text::digit_char(n / 100 % 10),
            text::digit_char(n / 10 % 10),
            text::digit_char(n % 10),
        ],
{
    reveal_with_fuel(text::numeral, 5);
    assert(padded(n, 4) =~= seq![
        text::digit_char(n / 1000),
        text::digit_char(n / 100 % 10),
        text::digit_char(n / 10 % 10),
        text::digit_char(n % 10),
    ]);
}

proof fn lemma_digits_sort(s: Seq<char>, t: Seq<char>, k: int)
    requires
        s.len() == t.len(),
        0 <= k < s.len(),
        forall|i: int| 0 <= i < k ==> s[i] == t[i],
        s[k] < t[k],
    ensures
        sorts_before(s, t),
{
    assert(s.take(k) =~= t.take(k));
}

proof fn lemma_pad_2_sorts(m: nat, n: nat)
    requires
        m < n < 100,
    ensures
        sorts_before(padded(m, 2), padded(n, 2)),
{
    lemma_two_digits(m);
    lemma_two_digits(n);
    if m / 10 < n / 10 {
        lemma_digits_sort(padded(m, 2), padded(n, 2), 0);
    } else {
        lemma_digits_sort(padded(m, 2), padded(n, 2), 1);
    }
}

proof fn lemma_first_digit(m: nat, n: nat) -> (k: int)
    requires
        m < n < 10000,
    ensures
        0 <= k < 4,
        k == 0 ==> m / 1000 < n / 1000,
        k > 0 ==> m / 1000 == n / 1000,
        k == 1 ==> m / 100 % 10 < n / 100 % 10,
        k > 1 ==> m / 100 % 10 == n / 100 % 10,
        k == 2 ==> m / 10 % 10 < n / 10 % 10,
        k > 2 ==> m / 10 % 10 == n / 10 % 10,
        k == 3 ==> m % 10 < n % 10,
{
    assert(m / 10 == m / 100 * 10 + m / 10 % 10 && n / 10 == n / 100 * 10 + n / 10 % 10);
    assert(m / 100 == m / 1000 * 10 + m / 100 % 10 && n / 100 == n / 1000 * 10 + n / 100 % 10);
    if m / 1000 < n / 1000 {
        0
    } else if m / 100 < n / 100 {
        1
    } else if m / 10 < n / 10 {
        2
    } else {
        3
    }
}

proof fn lemma_pad_4_sorts(m: nat, n: nat)
    requires
        m < n < 10000,
    ensures
        sorts_before(padded(m, 4), padded(n, 4)),
{
    let k = lemma_first_digit(m, n);
    lemma_four_digits(m);
    lemma_four_digits(n);
    lemma_digits_sort(padded(m, 4), padded(n, 4), k);
}

spec fn flat(parts: Seq<Seq<char>>) -> Seq<char>
    decreases parts.len(),
{
    if parts.len() == 0 {
        Seq::empty()
    } else {
        parts[0] + flat(parts.skip(1))
    }
}

proof fn lemma_flat_sorts(a: Seq<Seq<char>>, b: Seq<Seq<char>>, k: int)
    requires
        0 <= k < a.len(),
        k < b.len(),
        forall|i: int| 0 <= i < k ==> a[i] == b[i],
        sorts_before(a[k], b[k]),
    ensures
        sorts_before(flat(a), flat(b)),
    decreases k,
{
    let s = flat(a);
    let t = flat(b);
    if k == 0 {
        let i = choose|i: int|
            0 <= i < a[0].len() && i < b[0].len() && #[trigger] a[0][i] < b[0][i] && a[0].take(i)
                == b[0].take(i);
        assert(s[i] == a[0][i] && t[i] == b[0][i]);
        assert(s.take(i) =~= a[0].take(i));
        assert(t.take(i) =~= b[0].take(i));
    } else {
        let ra = a.skip(1);
        let rb = b.skip(1);
        assert forall|i: int| 0 <= i < k - 1 implies ra[i] == rb[i] by {
            assert(a[i + 1] == b[i + 1]);
        }
        lemma_flat_sorts(ra, rb, k - 1);
        let s2 = flat(ra);
        let t2 = flat(rb);
        let i = choose|i: int|
            0 <= i < s2.len() && i < t2.len() && #[trigger] s2[i] < t2[i] && s2.take(i) == t2.take(
                i,
            );
        let n = a[0].len();
        assert(s[n + i] == s2[i] && t[n + i] == t2[i]);
        assert(s.take(n + i) =~= a[0] + s2.take(i));
        assert(t.take(n + i) =~= a[0] + t2.take(i));
    }
}

spec fn stamp_parts(c: Civil) -> Seq<Seq<char>> {
    seq![
        padded(c.year as nat, 4),
        padded(c.month as nat, 2),
        padded(c.day as nat, 2),
        seq!['T'],
        padded(c.hour as nat, 2),
        padded(c.minute as nat, 2),
        padded(c.second as nat, 2),
        seq!['Z'],
    ]
}

proof fn lemma_stamp_parts(c: Civil)
    ensures
        stamp_text(c) == flat(stamp_parts(c)),
{
    let p = stamp_parts(c);
    lemma_flat_8(p[0], p[1], p[2], p[3], p[4], p[5], p[6], p[7]);
}

proof fn lemma_flat_8(
    a: Seq<char>,
    b: Seq<char>,
    c: Seq<char>,
    d: Seq<char>,
    e: Seq<char>,
    f: Seq<char>,
    g: Seq<char>,
    h: Seq<char>,
)
    ensures
        flat(seq![a, b, c, d, e, f, g, h]) == a + b + c + d + e + f + g + h,
{
    let none = Seq::<Seq<char>>::empty();
    let p8 = seq![h];
    let p7 = seq![g, h];
    let p6 = seq![f, g, h];
    let p5 = seq![e, f, g, h];
    let p4 = seq![d, e, f, g, h];
    let p3 = seq![c, d, e, f, g, h];
    let p2 = seq![b, c, d, e, f, g, h];
    let p1 = seq![a, b, c, d, e, f, g, h];
    assert(p8.skip(1) =~= none);
    assert(p7.skip(1) =~= p8);
    assert(p6.skip(1) =~= p7);
    assert(p5.skip(1) =~= p6);
    assert(p4.skip(1) =~= p5);
    assert(p3.skip(1) =~= p4);
    assert(p2.skip(1) =~= p3);
    assert(p1.skip(1) =~= p2);
    assert(flat(none) =~= Seq::<char>::empty());
    assert(flat(p8) =~= h);
    assert(flat(p7) =~= g + h);
    assert(flat(p6) =~= f + (g + h));
    assert(flat(p5) =~= e + (f + (g + h)));
    assert(flat(p4) =~= d + (e + (f + (g + h))));
    assert(flat(p3) =~= c + (d + (e + (f + (g + h)))));
    assert(flat(p2) =~= b + (c + (d + (e + (f + (g + h))))));
    assert(flat(p1) =~= a + (b + (c + (d + (e + (f + (g + h)))))));
    assert(flat(p1) =~= a + b + c + d + e + f + g + h);
}

/// File names sort by time: of two times that differ by the second, the
/// earlier one's stamp sorts first, up to the end of the year 9999.
pub proof fn stamps_sort_by_time(t1: nat, t2: nat, a: Civil, b: Civil)
    requires
        is_civil_of(a, t1),
        is_civil_of(b, t2),
        t1 / 1000 < t2 / 1000,
        b.year <= 9999,
    ensures
        sorts_before(stamp_text(a), stamp_text(b)),
{
    if !earlier(a, b) {
        if earlier(b, a) {
            lemma_earlier(b, a);
        } else {
            assert(a == b);
        }
    }
    lemma_stamp_parts(a);
    lemma_stamp_parts(b);
    let p = stamp_parts(a);
    let q = stamp_parts(b);
    if a.year < b.year {
        lemma_pad_4_sorts(a.year as nat, b.year as nat);
        lemma_flat_sorts(p, q, 0);
    } else if a.month < b.month {
        lemma_pad_2_sorts(a.month as nat, b.month as nat);
        lemma_flat_sorts(p, q, 1);
    } else if a.day < b.day {
        lemma_pad_2_sorts(a.day as nat, b.day as nat);
        lemma_flat_sorts(p, q, 2);
    } else if a.hour < b.hour {
        lemma_pad_2_sorts(a.hour as nat, b.hour as nat);
        lemma_flat_sorts(p, q, 4);
    } else if a.minute < b.minute {
        lemma_pad_2_sorts(a.minute as nat, b.minute as nat);
        lemma_flat_sorts(p, q, 5);
    } else {
        lemma_pad_2_sorts(a.second as nat, b.second as nat);
        lemma_flat_sorts(p, q, 6);
    }
}

/// The years before a year have 365 days each, and one more for each of them that
/// four divides, but for those that a hundred divides, and again for those that
/// four hundred divides. The days before a month come to 367 in twelve months, less
/// those that February lacks, and all months to the days of the year.
#[verifier::spinoff_prover]
#[verifier::rlimit(60)]
pub proof fn days_are_counted_by_the_gregorian_rule(y: nat, m: nat)
    requires
        1 <= m <= 12,
    ensures
        days_before_year(y) == 365 * y + (y + 3) / 4 - (y + 99) / 100 + (y + 399) / 400,
        days_before_month(y, m) == (367 * m - 362) / 12 - if m <= 2 {
            0int
        } else if is_leap(y) {
            1int
        } else {
            2int
        },
        days_before_month(y, 13) == year_len(y),
        days_before_year(y + 1) == days_before_year(y) + days_before_month(y, 13),
        days_before_year(y + 400) == days_before_year(y) + 146097,
        EPOCH_DAYS == days_before_year(1970),
{
    lemma_days_formula(y);
    lemma_months(y);
    assert(days_before_year(y + 1) == days_before_year(y) + year_len(y));
    assert(days_before_year(y + 400) == days_before_year(y) + 146097) by {
        lemma_era(1, y);
        lemma_eras(1);
    }
    lemma_epoch();
}

proof fn lemma_epoch()
    ensures
        days_before_year(1970) == EPOCH_DAYS,
{
    lemma_days_formula(1970);
}

#[verifier::spinoff_prover]
#[verifier::rlimit(60)]
proof fn lemma_months(y: nat)
    ensures
        forall|m: nat|
            1 <= m <= 12 ==> #[trigger] days_before_month(y, m) == (367 * m - 362) / 12 - if m
                <= 2 {
                0int
            } else if is_leap(y) {
                1int
            } else {
                2int
            },
        days_before_month(y, 13) == year_len(y),
{
    reveal_with_fuel(days_before_month, 14);
    assert forall|m: nat| 1 <= m <= 12 implies #[trigger] days_before_month(y, m) == (367 * m - 362)
        / 12 - if m <= 2 {
        0int
    } else if is_leap(y) {
        1int
    } else {
        2int
    } by {
        assert(m == 1 || m == 2 || m == 3 || m == 4 || m == 5 || m == 6 || m == 7 || m == 8 || m
            == 9 || m == 10 || m == 11 || m == 12);
    }
}

proof fn lemma_padded_value(n: nat, width: nat)
    requires
        width == 2 && n < 100 || width == 4 && n < 10000,
    ensures
        padded(n, width).len() == width,
        text::digits_value(padded(n, width), 10) == n,
{
    let s = padded(n, width);
    if width == 2 {
        lemma_two_digits(n);
        assert(s.drop_last().drop_last() =~= Seq::<char>::empty());
    } else {
        lemma_four_digits(n);
        assert(s.drop_last().drop_last().drop_last().drop_last() =~= Seq::<char>::empty());
    }
    reveal_with_fuel(text::digits_value, 5);
    assert(text::digits_value(Seq::<char>::empty(), 10) == 0);
}

/// A timestamp spells the date and the time of day at fixed places, up to the
/// end of the year 9999: the year, the month and the day with dashes between
/// them, a space, the hour, the minute and the second with colons between them,
/// and `Z`. The stamp of a file name spells the same without the dashes and
/// colons and with a `T` in place of the space.
pub proof fn timestamps_spell_the_date(c: Civil)
    requires
        c.valid(),
        c.year <= 9999,
    ensures
        ({
            let t = timestamp_text(c);
            &&& t.len() == 20
            &&& text::digits_value(t.subrange(0, 4), 10) == c.year
            &&& text::digits_value(t.subrange(5, 7), 10) == c.month
            &&& text::digits_value(t.subrange(8, 10), 10) == c.day
            &&& text::digits_value(t.subrange(11, 13), 10) == c.hour
            &&& text::digits_value(t.subrange(14, 16), 10) == c.minute
            &&& text::digits_value(t.subrange(17, 19), 10) == c.second
            &&& t[4] == '-' && t[7] == '-' && t[10] == ' ' && t[13] == ':' && t[16] == ':' && t[19]
                == 'Z'
        }),
        ({
            let t = stamp_text(c);
            &&& t.len() == 16
            &&& text::digits_value(t.subrange(0, 4), 10) == c.year
            &&& text::digits_value(t.subrange(4, 6), 10) == c.month
            &&& text::digits_value(t.subrange(6, 8), 10) == c.day
            &&& text::digits_value(t.subrange(9, 11), 10) == c.hour
            &&& text::digits_value(t.subrange(11, 13), 10) == c.minute
            &&& text::digits_value(t.subrange(13, 15), 10) == c.second
            &&& t[8] == 'T' && t[15] == 'Z'
        }),
{
    lemma_padded_value(c.year as nat, 4);
    lemma_padded_value(c.month as nat, 2);
    lemma_padded_value(c.day as nat, 2);
    lemma_padded_value(c.hour as nat, 2);
    lemma_padded_value(c.minute as nat, 2);
    lemma_padded_value(c.second as nat, 2);
    let t = timestamp_text(c);
    assert(t.subrange(0, 4) =~= padded(c.year as nat, 4));
    assert(t.subrange(5, 7) =~= padded(c.month as nat, 2));
    assert(t.subrange(8, 10) =~= padded(c.day as nat, 2));
    assert(t.subrange(11, 13) =~= padded(c.hour as nat, 2));
    assert(t.subrange(14, 16) =~= padded(c.minute as nat, 2));
    assert(t.subrange(17, 19) =~= padded(c.second as nat, 2));
    let u = stamp_text(c);
    assert(u.subrange(0, 4) =~= padded(c.year as nat, 4));
    assert(u.subrange(4, 6) =~= padded(c.month as nat, 2));
    assert(u.subrange(6, 8) =~= padded(c.day as nat, 2));
    assert(u.subrange(9, 11) =~= padded(c.hour as nat, 2));
    assert(u.subrange(11, 13) =~= padded(c.minute as nat, 2));
    assert(u.subrange(13, 15) =~= padded(c.second as nat, 2));
}

} // verus!
