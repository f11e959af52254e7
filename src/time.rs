//! Spans of time with nanosecond precision and their ISO-8601 text.
use vstd::prelude::*;
use crate::error::Error;
use crate::serializer::{count_char, count_in};
use crate::text::{pow10, lemma_pow10_small};
use chrono::TimeZone;
use crate::text::{
    slice_chars, is_digit as digit_char_spec,
    all_digits, chars_of, digits_to_u64, digits_value, fixed_digits, is_digit, nat_text,
    push_fixed, push_nat, run_end, scan_digits, string_of, trim_zeros, trim_zeros_vec, zeros,
    extend_chars,
};

verus! {

/// Nanoseconds in a second.
pub const NANOS_PER_SECOND: i64 = 1_000_000_000;

/// Nanoseconds in a minute.
pub const NANOS_PER_MINUTE: i64 = 60_000_000_000;

/// Nanoseconds in an hour.
pub const NANOS_PER_HOUR: i64 = 3_600_000_000_000;

/// Nanoseconds in a day.
pub const NANOS_PER_DAY: i64 = 86_400_000_000_000;

/// The fractional digits of `f` nanoseconds, with trailing zeros removed.
pub open spec fn fraction_text(f: nat) -> Seq<char> {
    trim_zeros(fixed_digits(f, 9))
}

/// Whole and fractional seconds of `r` nanoseconds.
pub open spec fn seconds_text(r: nat) -> Seq<char> {
    let s = r / NANOS_PER_SECOND as nat;
    let f = r % NANOS_PER_SECOND as nat;
    if f == 0 {
        nat_text(s)
    } else {
        nat_text(s) + seq!['.'] + fraction_text(f)
    }
}

/// The `H`, `M` and `S` components of `rem` nanoseconds, each left out when zero.
pub open spec fn clock_text(rem: nat) -> Seq<char> {
    let h = rem / NANOS_PER_HOUR as nat;
    let r2 = rem % NANOS_PER_HOUR as nat;
    let m = r2 / NANOS_PER_MINUTE as nat;
    let r3 = r2 % NANOS_PER_MINUTE as nat;
    (if h > 0 { nat_text(h).push('H') } else { Seq::empty() }) + (if m > 0 {
        nat_text(m).push('M')
    } else {
        Seq::empty()
    }) + (if r3 > 0 { seconds_text(r3).push('S') } else { Seq::empty() })
}

/// The ISO-8601 text of a span of `n` nanoseconds: `PT0S` for zero, else
/// `P`, the days, and a `T` section for what is left, with a leading `-`
/// for a negative span.
pub open spec fn duration_text(n: int) -> Seq<char> {
    if n == 0 {
        seq!['P', 'T', '0', 'S']
    } else {
        let a = (if n < 0 { -n } else { n }) as nat;
        let days = a / NANOS_PER_DAY as nat;
        let rem = a % NANOS_PER_DAY as nat;
        let body = seq!['P'] + (if days > 0 { nat_text(days).push('D') } else { Seq::empty() }) + (
        if rem > 0 {
            seq!['T'] + clock_text(rem)
        } else {
            Seq::empty()
        });
        if n < 0 {
            seq!['-'] + body
        } else {
            body
        }
    }
}

/// Whether a run of digits starts at `i` in `s` and is followed by `c`.
pub open spec fn unit_at(s: Seq<char>, i: int, c: char) -> bool {
    run_end(s, i) > i && run_end(s, i) < s.len() && s[run_end(s, i)] == c
}

/// The value of the run of digits that starts at `i` in `s`.
pub open spec fn run_value(s: Seq<char>, i: int) -> nat {
    digits_value(s.subrange(i, run_end(s, i)))
}

/// The nanoseconds written by fractional digits `f`: the first nine,
/// padded with zeros on the right.
pub open spec fn fraction_nanos(f: Seq<char>) -> nat {
    if f.len() >= 9 {
        digits_value(f.subrange(0, 9))
    } else {
        digits_value(f + zeros((9 - f.len()) as nat))
    }
}

/// The seconds component that starts at `i` in `s` (digits, optionally `.`
/// and digits, then `S`): its nanoseconds and the position after it.
pub open spec fn seconds_at(s: Seq<char>, i: int) -> Option<(int, int)> {
    let e = run_end(s, i);
    if e == i {
        None
    } else if e + 1 < s.len() && s[e] == '.' && run_end(s, e + 1) > e + 1 {
        let f = run_end(s, e + 1);
        if f < s.len() && s[f] == 'S' {
            Some(
                (
                    run_value(s, i) * NANOS_PER_SECOND + fraction_nanos(s.subrange(e + 1, f)),
                    f + 1,
                ),
            )
        } else {
            None
        }
    } else if e < s.len() && s[e] == 'S' {
        Some((run_value(s, i) * NANOS_PER_SECOND, e + 1))
    } else {
        None
    }
}

/// The nanoseconds of the seconds component at `i` in `s`.
pub open spec fn seconds_nanos(s: Seq<char>, i: int) -> int {
    match seconds_at(s, i) {
        Some((ns, _)) => ns,
        None => 0,
    }
}

/// The position after the seconds component at `i` in `s`.
pub open spec fn seconds_next(s: Seq<char>, i: int) -> int {
    match seconds_at(s, i) {
        Some((_, next)) => next,
        None => 0,
    }
}

/// The nanoseconds written by the `T` section of a duration from `p` to
/// the end of `s`: `[nH][nM][n[.n]S]`.
pub open spec fn clock_value(s: Seq<char>, p: int) -> Option<int> {
    let h = if unit_at(s, p, 'H') { run_value(s, p) } else { 0 };
    let after_hours = if unit_at(s, p, 'H') { run_end(s, p) + 1 } else { p };
    let m = if unit_at(s, after_hours, 'M') { run_value(s, after_hours) } else { 0 };
    let after_minutes = if unit_at(s, after_hours, 'M') { run_end(s, after_hours) + 1 } else { after_hours };
    let base = h * NANOS_PER_HOUR + m * NANOS_PER_MINUTE;
    if after_minutes == s.len() {
        Some(base)
    } else {
        match seconds_at(s, after_minutes) {
            Some((ns, after_seconds)) => if after_seconds == s.len() {
                Some(base + ns)
            } else {
                None
            },
            None => None,
        }
    }
}

/// The nanoseconds written by an ISO-8601 duration `P[nD][T[nH][nM][n[.n]S]]`,
/// or `None` where `s` does not have that form.
pub open spec fn duration_value(s: Seq<char>) -> Option<int> {
    if s.len() == 0 || s[0] != 'P' {
        None
    } else {
        let days = if unit_at(s, 1, 'D') { run_value(s, 1) } else { 0 };
        let after_days = if unit_at(s, 1, 'D') { run_end(s, 1) + 1 } else { 1 };
        if after_days == s.len() {
            Some(days * NANOS_PER_DAY)
        } else if s[after_days] != 'T' {
            None
        } else {
            match clock_value(s, after_days + 1) {
                Some(c) => Some(days * NANOS_PER_DAY + c),
                None => None,
            }
        }
    }
}

/// Appends the seconds of `r` nanoseconds, with a fraction where there is one.
fn push_seconds(out: &mut Vec<char>, r: u64)
    ensures
        final(out)@ == old(out)@ + seconds_text(r as nat),
{
    let whole = r / NANOS_PER_SECOND as u64;
    let f = r % NANOS_PER_SECOND as u64;
    push_nat(out, whole);
    if f != 0 {
        out.push('.');
        let mut digits: Vec<char> = Vec::new();
        push_fixed(&mut digits, f, 9);
        let trimmed = trim_zeros_vec(&digits);
        extend_chars(out, &trimmed);
        assert(final(out)@ =~= old(out)@ + (nat_text(whole as nat) + seq!['.'] + fraction_text(f as nat)));
    }
}

/// Appends the hours, minutes and seconds of `rem` nanoseconds.
fn push_clock(out: &mut Vec<char>, rem: u64)
    ensures
        final(out)@ == old(out)@ + clock_text(rem as nat),
{
    let ghost start = out@;
    let h = rem / NANOS_PER_HOUR as u64;
    let r2 = rem % NANOS_PER_HOUR as u64;
    let m = r2 / NANOS_PER_MINUTE as u64;
    let r3 = r2 % NANOS_PER_MINUTE as u64;
    let ghost hp = if h > 0 { nat_text(h as nat).push('H') } else { Seq::<char>::empty() };
    let ghost mp = if m > 0 { nat_text(m as nat).push('M') } else { Seq::<char>::empty() };
    let ghost sp = if r3 > 0 { seconds_text(r3 as nat).push('S') } else { Seq::<char>::empty() };
    if h > 0 {
        push_nat(out, h);
        out.push('H');
    }
    assert(out@ =~= start + hp);
    if m > 0 {
        push_nat(out, m);
        out.push('M');
    }
    assert(out@ =~= start + hp + mp);
    if r3 > 0 {
        push_seconds(out, r3);
        out.push('S');
    }
    assert(out@ =~= start + (hp + mp + sp));
}

/// A run of digits read from text: its value where it fits in a `u64`, and
/// the position after the character that ends it.
struct Component {
    value: Option<u64>,
    next: usize,
}

/// Reads the run of digits at `i` where it is followed by `c`.
fn read_unit(v: &Vec<char>, i: usize, c: char) -> (r: Option<Component>)
    requires
        i <= v@.len(),
    ensures
        r is Some <==> unit_at(v@, i as int, c),
        r is Some ==> r->0.next == run_end(v@, i as int) + 1,
        r is Some ==> (r->0.value is Some <==> run_value(v@, i as int) <= u64::MAX),
        r is Some && r->0.value is Some ==> r->0.value->0 == run_value(v@, i as int),
{
    let e = scan_digits(v, i);
    if e > i && e < v.len() && v[e] == c {
        Some(Component { value: digits_to_u64(v, i, e), next: e + 1 })
    } else {
        None
    }
}

/// The nanoseconds written by the fractional digits of `v` from `a` up to `b`.
fn fraction_value(v: &Vec<char>, a: usize, b: usize) -> (r: u64)
    requires
        a <= b <= v@.len(),
        all_digits(v@.subrange(a as int, b as int)),
    ensures
        r == fraction_nanos(v@.subrange(a as int, b as int)),
        r < NANOS_PER_SECOND,
{
    let ghost f = v@.subrange(a as int, b as int);
    let ghost g = if f.len() >= 9 { f.subrange(0, 9) } else { f + zeros((9 - f.len()) as nat) };
    assert(g.len() == 9);
    let mut acc: u64 = 0;
    let mut k: usize = 0;
    while k < 9
        invariant
            k <= 9,
            a <= b <= v@.len(),
            f == v@.subrange(a as int, b as int),
            all_digits(f),
            g == (if f.len() >= 9 { f.subrange(0, 9) } else { f + zeros((9 - f.len()) as nat) }),
            g.len() == 9,
            acc == digits_value(g.subrange(0, k as int)),
            acc < crate::text::pow10(k as nat),
        decreases 9 - k,
    {
        proof {
            if k < b - a {
                assert(g[k as int] == f[k as int]);
                assert(crate::text::is_digit(f[k as int]));
                assert(f[k as int] == v@[a + k]);
            } else {
                assert(g[k as int] == '0');
            }
            crate::text::lemma_pow10_small(k as nat);
        }
        let d: u64 = if k < b - a { (v[a + k] as u32 - '0' as u32) as u64 } else { 0 };
        proof {
            assert(g.subrange(0, k + 1).drop_last() == g.subrange(0, k as int));
            assert(acc * 10 + d < crate::text::pow10(k as nat) * 10) by (nonlinear_arith)
                requires acc < crate::text::pow10(k as nat), d <= 9;
        }
        acc = acc * 10 + d;
        k += 1;
    }
    assert(g.subrange(0, 9) == g);
    proof {
        crate::text::lemma_pow10_small(9);
    }
    acc
}

/// Reads the seconds component at `p`, which must end the text.
fn read_seconds(v: &Vec<char>, p: usize) -> (r: Option<i128>)
    requires
        p <= v@.len(),
    ensures
        r is Some ==> seconds_at(v@, p as int) is Some && seconds_next(v@, p as int) == v@.len()
            && r->0 == seconds_nanos(v@, p as int),
        r is Some ==> 0 <= r->0 <= 0x1_0000_0000_0000_0000 * 1_000_000_000,
        r is None ==> seconds_at(v@, p as int) is None || seconds_next(v@, p as int) != v@.len()
            || seconds_nanos(v@, p as int) > i64::MAX,
{
    let n = v.len();
    let e = scan_digits(v, p);
    if e == p {
        return None;
    }
    let whole = match digits_to_u64(v, p, e) {
        Some(w) => w,
        None => {
            return None;
        },
    };
    let mut frac: u64 = 0;
    let mut q = e;
    if e < n && v[e] == '.' && e + 1 < n && scan_digits(v, e + 1) > e + 1 {
        let f = scan_digits(v, e + 1);
        frac = fraction_value(v, e + 1, f);
        q = f;
    }
    if q < n && v[q] == 'S' && q + 1 == n {
        assert(whole as i128 * 1_000_000_000 <= 0xffff_ffff_ffff_ffff * 1_000_000_000)
            by (nonlinear_arith)
            requires whole <= u64::MAX;
        Some(whole as i128 * NANOS_PER_SECOND as i128 + frac as i128)
    } else {
        None
    }
}

/// Reads the `T` section of a duration from `p` to the end of the text.
fn read_clock(v: &Vec<char>, p: usize) -> (r: Option<i128>)
    requires
        p <= v@.len(),
    ensures
        r is Some ==> clock_value(v@, p as int) is Some && r->0 == clock_value(v@, p as int)->0,
        r is Some ==> 0 <= r->0 <= 0x1_0000_0000_0000_0000 * 5_000_000_000_000,
        r is None ==> clock_value(v@, p as int) is None || clock_value(v@, p as int)->0
            > i64::MAX,
{
    let mut total: i128 = 0;
    let mut p = p;
    let ghost p0 = p;
    match read_unit(v, p, 'H') {
        Some(c) => match c.value {
            Some(h) => {
                assert(h as i128 * 3_600_000_000_000 <= 0xffff_ffff_ffff_ffff * 3_600_000_000_000)
                    by (nonlinear_arith)
                    requires h <= u64::MAX;
                total = h as i128 * NANOS_PER_HOUR as i128;
                p = c.next;
            },
            None => {
                return None;
            },
        },
        None => {},
    }
    match read_unit(v, p, 'M') {
        Some(c) => match c.value {
            Some(m) => {
                assert(m as i128 * 60_000_000_000 <= 0xffff_ffff_ffff_ffff * 60_000_000_000)
                    by (nonlinear_arith)
                    requires m <= u64::MAX;
                total = total + m as i128 * NANOS_PER_MINUTE as i128;
                p = c.next;
            },
            None => {
                return None;
            },
        },
        None => {},
    }
    if p < v.len() {
        match read_seconds(v, p) {
            Some(ns) => {
                total = total + ns;
            },
            None => {
                return None;
            },
        }
    }
    Some(total)
}

/// A signed span of time, counted in nanoseconds.
#[derive(Debug, Clone, Copy, PartialEq, Eq, PartialOrd, Ord, Hash)]
pub struct Duration {
    /// The length of the span in nanoseconds.
    pub nanoseconds: i64,
}

impl Duration {
    /// A span of `nanoseconds` nanoseconds.
    pub fn from_nanos(nanoseconds: i64) -> (r: Duration)
        ensures
            r.nanoseconds == nanoseconds,
    {
        Duration { nanoseconds }
    }

    /// A span of `milliseconds` milliseconds.
    pub fn from_millis(milliseconds: i64) -> (r: Duration)
        requires
            i64::MIN <= milliseconds * 1_000_000 <= i64::MAX,
        ensures
            r.nanoseconds == milliseconds * 1_000_000,
    {
        Duration { nanoseconds: milliseconds * 1_000_000 }
    }

    /// A span of `seconds` seconds.
    pub fn from_seconds(seconds: i64) -> (r: Duration)
        requires
            i64::MIN <= seconds * NANOS_PER_SECOND <= i64::MAX,
        ensures
            r.nanoseconds == seconds * NANOS_PER_SECOND,
    {
        Duration { nanoseconds: seconds * NANOS_PER_SECOND }
    }

    /// A span of `minutes` minutes.
    pub fn from_minutes(minutes: i64) -> (r: Duration)
        requires
            i64::MIN <= minutes * NANOS_PER_MINUTE <= i64::MAX,
        ensures
            r.nanoseconds == minutes * NANOS_PER_MINUTE,
    {
        Duration { nanoseconds: minutes * NANOS_PER_MINUTE }
    }

    /// A span of `hours` hours.
    pub fn from_hours(hours: i64) -> (r: Duration)
        requires
            i64::MIN <= hours * NANOS_PER_HOUR <= i64::MAX,
        ensures
            r.nanoseconds == hours * NANOS_PER_HOUR,
    {
        Duration { nanoseconds: hours * NANOS_PER_HOUR }
    }

    /// A span of `days` days of 86,400 seconds.
    pub fn from_days(days: i64) -> (r: Duration)
        requires
            i64::MIN <= days * NANOS_PER_DAY <= i64::MAX,
        ensures
            r.nanoseconds == days * NANOS_PER_DAY,
    {
        Duration { nanoseconds: days * NANOS_PER_DAY }
    }

    /// The length of the span in nanoseconds.
    pub fn total_nanos(&self) -> (r: i64)
        ensures
            r == self.nanoseconds,
    {
        self.nanoseconds
    }

    /// The sum of two spans.
    pub fn add(&self, other: &Duration) -> (r: Duration)
        requires
            i64::MIN <= self.nanoseconds + other.nanoseconds <= i64::MAX,
        ensures
            r.nanoseconds == self.nanoseconds + other.nanoseconds,
    {
        Duration { nanoseconds: self.nanoseconds + other.nanoseconds }
    }

    /// This span less `other`.
    pub fn sub(&self, other: &Duration) -> (r: Duration)
        requires
            i64::MIN <= self.nanoseconds - other.nanoseconds <= i64::MAX,
        ensures
            r.nanoseconds == self.nanoseconds - other.nanoseconds,
    {
        Duration { nanoseconds: self.nanoseconds - other.nanoseconds }
    }

    /// The span of the same length in the other direction.
    pub fn neg(&self) -> (r: Duration)
        requires
            self.nanoseconds != i64::MIN,
        ensures
            r.nanoseconds == -self.nanoseconds,
    {
        Duration { nanoseconds: -self.nanoseconds }
    }

    /// The span of the same length, forwards.
    pub fn abs(&self) -> (r: Duration)
        requires
            self.nanoseconds != i64::MIN,
        ensures
            r.nanoseconds == (if self.nanoseconds < 0 {
                -self.nanoseconds
            } else {
                self.nanoseconds as int
            }),
    {
        if self.nanoseconds < 0 {
            Duration { nanoseconds: -self.nanoseconds }
        } else {
            Duration { nanoseconds: self.nanoseconds }
        }
    }

    /// Whether the span is empty.
    pub fn is_zero(&self) -> (r: bool)
        ensures
            r == (self.nanoseconds == 0),
    {
        self.nanoseconds == 0
    }

    /// Whether the span runs backwards.
    pub fn is_negative(&self) -> (r: bool)
        ensures
            r == (self.nanoseconds < 0),
    {
        self.nanoseconds < 0
    }

    /// The ISO-8601 text of the span: `PT0S` for zero, else `P`, the days
    /// and a `T` section with hours, minutes and seconds, each left out when
    /// zero, fractional seconds without trailing zeros, and a leading `-` for
    /// a negative span.
    pub fn to_iso8601(&self) -> (r: String)
        ensures
            r@ == duration_text(self.nanoseconds as int),
    {
        let n = self.nanoseconds;
        if n == 0 {
            let z = vec!['P', 'T', '0', 'S'];
            return string_of(&z);
        }
        let a: u64 = if n < 0 { (-(n as i128)) as u64 } else { n as u64 };
        let mut out: Vec<char> = Vec::new();
        if n < 0 {
            out.push('-');
        }
        let ghost sign = out@;
        out.push('P');
        let days = a / NANOS_PER_DAY as u64;
        let rem = a % NANOS_PER_DAY as u64;
        let ghost dp = if days > 0 { nat_text(days as nat).push('D') } else { Seq::<char>::empty() };
        let ghost tp = if rem > 0 { seq!['T'] + clock_text(rem as nat) } else { Seq::<char>::empty() };
        if days > 0 {
            push_nat(&mut out, days);
            out.push('D');
        }
        assert(out@ =~= sign + seq!['P'] + dp);
        if rem > 0 {
            out.push('T');
            push_clock(&mut out, rem);
        }
        assert(out@ =~= sign + (seq!['P'] + dp + tp));
        string_of(&out)
    }

    /// Reads an ISO-8601 duration `P[nD][T[nH][nM][n[.n]S]]`; fractional
    /// seconds count to the nanosecond, digits past the ninth are dropped.
    pub fn from_iso8601(s: &str) -> (r: Result<Duration, Error>)
        ensures
            r is Ok <==> duration_value(s@) is Some && duration_value(s@)->0 <= i64::MAX,
            r is Ok ==> r->Ok_0.nanoseconds == duration_value(s@)->0,
            r is Err ==> r->Err_0 is InvalidDuration,
    {
        let v = chars_of(s);
        let n = v.len();
        if n == 0 || v[0] != 'P' {
            return Err(Error::InvalidDuration(string_of(&v)));
        }
        let mut total: i128 = 0;
        let mut p: usize = 1;
        match read_unit(&v, 1, 'D') {
            Some(c) => match c.value {
                Some(d) => {
                    assert(d as i128 * 86_400_000_000_000 <= 0xffff_ffff_ffff_ffff * 86_400_000_000_000)
                        by (nonlinear_arith)
                        requires d <= u64::MAX;
                    total = d as i128 * NANOS_PER_DAY as i128;
                    p = c.next;
                },
                None => {
                    return Err(Error::InvalidDuration(string_of(&v)));
                },
            },
            None => {},
        }
        if p < n {
            if v[p] != 'T' {
                return Err(Error::InvalidDuration(string_of(&v)));
            }
            match read_clock(&v, p + 1) {
                Some(c) => {
                    total = total + c;
                },
                None => {
                    return Err(Error::InvalidDuration(string_of(&v)));
                },
            }
        }
        if total > i64::MAX as i128 {
            return Err(Error::InvalidDuration(string_of(&v)));
        }
        Ok(Duration { nanoseconds: total as i64 })
    }
}


/// Whether `y` is a leap year of the proleptic Gregorian calendar.
pub open spec fn is_leap_year(y: int) -> bool {
    y % 4 == 0 && (y % 100 != 0 || y % 400 == 0)
}

/// The number of days in month `m` of year `y`.
pub open spec fn days_in_month(y: int, m: int) -> int {
    if m == 2 {
        if is_leap_year(y) {
            29
        } else {
            28
        }
    } else if m == 4 || m == 6 || m == 9 || m == 11 {
        30
    } else {
        31
    }
}

/// Whether the fields name a real date and a time of day without a leap second.
pub open spec fn valid_civil(y: int, m: int, d: int, h: int, mi: int, sec: int) -> bool {
    1 <= m <= 12 && 1 <= d <= days_in_month(y, m) && 0 <= h < 24 && 0 <= mi < 60 && 0 <= sec < 60
}

/// The number of days from 1970-01-01 to the date `y-m-d`.
pub open spec fn days_from_civil(y: int, m: int, d: int) -> int {
    let y1 = if m <= 2 { y - 1 } else { y };
    let era = y1 / 400;
    let yoe = y1 - era * 400;
    let mp = if m > 2 { m - 3 } else { m + 9 };
    let doy = (153 * mp + 2) / 5 + d - 1;
    let doe = yoe * 365 + yoe / 4 - yoe / 100 + doy;
    era * 146097 + doe - 719468
}

/// The Unix time in seconds of a UTC date and time.
pub open spec fn civil_seconds(y: int, m: int, d: int, h: int, mi: int, sec: int) -> int {
    days_from_civil(y, m, d) * 86400 + h * 3600 + mi * 60 + sec
}

/// The text `YYYY-MM-DDTHH:MM:SS` of a date and time, each field
/// zero-padded.
pub open spec fn stamp_text(y: nat, m: nat, d: nat, h: nat, mi: nat, sec: nat) -> Seq<char> {
    fixed_digits(y, 4) + seq!['-'] + fixed_digits(m, 2) + seq!['-'] + fixed_digits(d, 2) + seq!['T']
        + fixed_digits(h, 2) + seq![':'] + fixed_digits(mi, 2) + seq![':'] + fixed_digits(sec, 2)
}

/// Whether `t` is `YYYY-MM-DDTHH:MM:SS` for the UTC date and time, in the
/// years 0 to 9999, of the Unix time `secs`.
pub open spec fn is_stamp_of(secs: int, t: Seq<char>) -> bool {
    exists|y: nat, m: nat, d: nat, h: nat, mi: nat, sec: nat|
        y <= 9999 && valid_civil(y as int, m as int, d as int, h as int, mi as int, sec as int)
            && civil_seconds(y as int, m as int, d as int, h as int, mi as int, sec as int) == secs
            && t == #[trigger] stamp_text(y, m, d, h, mi, sec)
}

/// What chrono's `DateTime::parse_from_rfc3339` reads from `s`: the Unix
/// time in seconds, the nanoseconds past it, and the offset from UTC in
/// seconds.
pub uninterp spec fn rfc3339_parts(s: Seq<char>) -> Option<(int, int, int)>;

/// What chrono's `FromStr` for `DateTime<Utc>` reads from `s`: the Unix time
/// in seconds and the nanoseconds past it.
pub uninterp spec fn utc_parts(s: Seq<char>) -> Option<(int, int)>;

/// The text `YYYY-MM-DDTHH:MM:SS` that chrono writes for a Unix time in
/// seconds, where it can represent that time.
pub uninterp spec fn utc_seconds_text(secs: int) -> Option<Seq<char>>;

/// The RFC 3339 text that chrono writes for a Unix time, its nanoseconds and
/// an offset from UTC in seconds, where it can represent them.
pub uninterp spec fn rfc3339_text(secs: int, nanos: int, offset: int) -> Option<Seq<char>>;

/// A point in time as chrono reads it from text.
struct TimeParts {
    /// The Unix time in seconds.
    seconds: i64,
    /// Nanoseconds past that second.
    nanos: u32,
    /// The offset from UTC in seconds.
    offset: i32,
}

/// Relies on chrono's `DateTime::parse_from_rfc3339`, with `timestamp`,
/// `timestamp_subsec_nanos` and the offset's `local_minus_utc`.
#[verifier::external_body]
fn parse_rfc3339(s: &str) -> (r: Option<TimeParts>)
    ensures
        match rfc3339_parts(s@) {
            Some((secs, nanos, offset)) => r is Some && r->0.seconds == secs && r->0.nanos
                == nanos && r->0.offset == offset,
            None => r is None,
        },
        r is Some ==> -86_400 < r->0.offset < 86_400,
        r is Some ==> s@.contains(':'),
{
    chrono::DateTime::parse_from_rfc3339(s).ok().map(
        |dt| TimeParts {
            seconds: dt.timestamp(),
            nanos: dt.timestamp_subsec_nanos(),
            offset: dt.offset().local_minus_utc(),
        },
    )
}

/// Relies on chrono's `FromStr` for `DateTime<Utc>`, with `timestamp` and
/// `timestamp_subsec_nanos`.
#[verifier::external_body]
fn parse_utc(s: &str) -> (r: Option<TimeParts>)
    ensures
        match utc_parts(s@) {
            Some((secs, nanos)) => r is Some && r->0.seconds == secs && r->0.nanos == nanos
                && r->0.offset == 0,
            None => r is None,
        },
        r is Some ==> s@.contains(':'),
{
    s.parse::<chrono::DateTime<chrono::Utc>>().ok().map(
        |dt| TimeParts { seconds: dt.timestamp(), nanos: dt.timestamp_subsec_nanos(), offset: 0 },
    )
}

/// Relies on chrono's `DateTime::from_timestamp` and `format` with
/// `%Y-%m-%dT%H:%M:%S`; every time within about 250,000 years of the epoch
/// lies in chrono's range, and for the years 0 to 9999 each field is the
/// zero-padded number of the UTC date and time of that second.
#[verifier::external_body]
fn format_utc_seconds(secs: i64) -> (r: Option<String>)
    ensures
        match utc_seconds_text(secs as int) {
            Some(t) => r is Some && r->0@ == t,
            None => r is None,
        },
        -8_000_000_000_000 <= secs <= 8_000_000_000_000 ==> r is Some,
        -62_167_219_200 <= secs <= 253_402_300_799 ==> r is Some && is_stamp_of(secs as int, r->0@),
{
    chrono::DateTime::from_timestamp(secs, 0).map(|dt| dt.format("%Y-%m-%dT%H:%M:%S").to_string())
}

/// Relies on chrono's `DateTime::from_timestamp`, `FixedOffset::east_opt`,
/// `with_timezone` and `to_rfc3339`.
#[verifier::external_body]
fn format_rfc3339(secs: i64, nanos: u32, offset: i32) -> (r: Option<String>)
    ensures
        match rfc3339_text(secs as int, nanos as int, offset as int) {
            Some(t) => r is Some && r->0@ == t,
            None => r is None,
        },
{
    let dt = chrono::DateTime::from_timestamp(secs, nanos)?;
    let zone = chrono::FixedOffset::east_opt(offset)?;
    Some(dt.with_timezone(&zone).to_rfc3339())
}

/// Relies on chrono's `Utc.with_ymd_and_hms` and `timestamp`: a UTC date and
/// time is read where its fields are valid, as its Unix time in seconds.
#[verifier::external_body]
fn civil_timestamp(y: i32, m: u32, d: u32, h: u32, mi: u32, sec: u32) -> (r: Option<i64>)
    requires
        0 <= y <= 9999,
    ensures
        r is Some <==> valid_civil(y as int, m as int, d as int, h as int, mi as int, sec as int),
        r is Some ==> r->0 == civil_seconds(
            y as int,
            m as int,
            d as int,
            h as int,
            mi as int,
            sec as int,
        ),
{
    chrono::Utc.with_ymd_and_hms(y, m, d, h, mi, sec).single().map(|dt| dt.timestamp())
}

/// Relies on `std::time::SystemTime::now`: nanoseconds since the Unix epoch,
/// zero for a clock set before it.
#[verifier::external_body]
fn system_nanos() -> (r: i64)
{
    std::time::SystemTime::now()
        .duration_since(std::time::UNIX_EPOCH)
        .unwrap_or_default()
        .as_nanos() as i64
}

/// Relies on `std::time::SystemTime::now`: milliseconds since the Unix
/// epoch.
#[verifier::external_body]
pub(crate) fn system_millis() -> (r: u64)
{
    std::time::SystemTime::now()
        .duration_since(std::time::UNIX_EPOCH)
        .unwrap_or_default()
        .as_millis() as u64
}


/// Whether the text of a timestamp names an offset from UTC: it holds a `+`,
/// or more than two `-`.
pub open spec fn has_offset(s: Seq<char>) -> bool {
    count_char(s, '+') > 0 || count_char(s, '-') > 2
}

/// Whether `t` has the shape `YYYY-MM-DDTHH:MM:SS`, optionally followed by
/// `.` and fractional digits.
pub open spec fn stamp_shape(t: Seq<char>) -> bool {
    &&& t.len() >= 19
    &&& all_digits(t.subrange(0, 4)) && all_digits(t.subrange(5, 7)) && all_digits(t.subrange(8, 10))
    &&& all_digits(t.subrange(11, 13)) && all_digits(t.subrange(14, 16)) && all_digits(t.subrange(17, 19))
    &&& t[4] == '-' && t[7] == '-' && t[10] == 'T' && t[13] == ':' && t[16] == ':'
    &&& t.len() == 19 || (t.len() > 20 && t[19] == '.' && all_digits(t.subrange(20, t.len() as int)))
}

/// The number written by the digits of `t` from `a` up to `b`.
pub open spec fn field(t: Seq<char>, a: int, b: int) -> int {
    digits_value(t.subrange(a, b)) as int
}

/// The nanoseconds since the epoch of a UTC timestamp `YYYY-MM-DDTHH:MM:SS[.f]`
/// without its `Z`, or `None` where it has another shape or names no real
/// date and time.
pub open spec fn zulu_nanos(t: Seq<char>) -> Option<int> {
    if stamp_shape(t) && valid_civil(
        field(t, 0, 4),
        field(t, 5, 7),
        field(t, 8, 10),
        field(t, 11, 13),
        field(t, 14, 16),
        field(t, 17, 19),
    ) {
        let secs = civil_seconds(
            field(t, 0, 4),
            field(t, 5, 7),
            field(t, 8, 10),
            field(t, 11, 13),
            field(t, 14, 16),
            field(t, 17, 19),
        );
        let f = if t.len() > 19 {
            fraction_nanos(t.subrange(20, t.len() as int))
        } else {
            0
        };
        Some(secs * NANOS_PER_SECOND + f)
    } else {
        None
    }
}

/// The nanoseconds since the epoch that an ISO-8601 timestamp names: one
/// with an offset as chrono reads it, converted to UTC; one without, with
/// or without a final `Z`, as a UTC time with up to nine fractional digits
/// counted.
pub open spec fn instant_value(s: Seq<char>) -> Option<int> {
    if has_offset(s) {
        match rfc3339_parts(s) {
            Some((secs, nanos, _)) => if nanos < NANOS_PER_SECOND {
                Some(secs * NANOS_PER_SECOND + nanos)
            } else {
                None
            },
            None => None,
        }
    } else if s.len() > 0 && s.last() == 'Z' {
        zulu_nanos(s.drop_last())
    } else {
        zulu_nanos(s)
    }
}

/// The ISO-8601 text of an instant `n` nanoseconds after the epoch: the
/// UTC date and time of its second, the fraction without trailing zeros
/// where there is one, and `Z`.
pub open spec fn instant_text(n: int) -> Seq<char> {
    let secs = n / NANOS_PER_SECOND as int;
    let rem = n % NANOS_PER_SECOND as int;
    let base = utc_seconds_text(secs)->0;
    if rem == 0 {
        base.push('Z')
    } else {
        base + seq!['.'] + fraction_text(rem as nat) + seq!['Z']
    }
}

/// The last `w` digits of a number are `w` digits.
pub proof fn lemma_fixed_digits_shape(n: nat, w: nat)
    ensures
        fixed_digits(n, w).len() == w,
        all_digits(fixed_digits(n, w)),
        digits_value(fixed_digits(n, w)) == n % pow10(w),
    decreases w,
{
    if w > 0 {
        lemma_fixed_digits_shape(n / 10, (w - 1) as nat);
        let f = fixed_digits(n, w);
        let g = fixed_digits(n / 10, (w - 1) as nat);
        assert(f == g.push(crate::text::digit_char(n % 10)));
        assert(f.drop_last() == g);
        assert(crate::text::digit_value(crate::text::digit_char(n % 10)) == n % 10);
        assert(all_digits(f)) by {
            assert forall|i: int| 0 <= i < f.len() implies digit_char_spec(#[trigger] f[i]) by {
                if i < g.len() {
                    assert(f[i] == g[i]);
                }
            }
        }
        let p = pow10((w - 1) as nat);
        assert(pow10(w) == 10 * p);
        assert(p > 0) by {
            lemma_pow10_positive((w - 1) as nat);
        }
        assert((n / 10) % p * 10 + n % 10 == n % (10 * p)) by (nonlinear_arith)
            requires
                p > 0,
        {
            assert(n == (n / 10) * 10 + n % 10);
            assert(n / 10 == ((n / 10) / p) * p + (n / 10) % p);
            assert(n == ((n / 10) / p) * (10 * p) + ((n / 10) % p * 10 + n % 10));
            assert(0 <= (n / 10) % p * 10 + n % 10 < 10 * p);
        }
    } else {
        assert(n % 1 == 0);
    }
}

/// Powers of ten are positive.
pub proof fn lemma_pow10_positive(k: nat)
    ensures
        pow10(k) > 0,
    decreases k,
{
    if k > 0 {
        lemma_pow10_positive((k - 1) as nat);
    }
}

/// Counting a character in a concatenation adds the counts of the parts.
pub proof fn lemma_count_concat(a: Seq<char>, b: Seq<char>, c: char)
    ensures
        count_char(a + b, c) == count_char(a, c) + count_char(b, c),
    decreases b.len(),
{
    if b.len() == 0 {
        assert(a + b == a);
    } else {
        lemma_count_concat(a, b.drop_last(), c);
        assert((a + b).drop_last() == a + b.drop_last());
    }
}

/// A run of digits holds no character that is not a digit.
pub proof fn lemma_count_digits(a: Seq<char>, c: char)
    requires
        all_digits(a),
        !digit_char_spec(c),
    ensures
        count_char(a, c) == 0,
    decreases a.len(),
{
    if a.len() > 0 {
        assert(all_digits(a.drop_last())) by {
            assert forall|i: int| 0 <= i < a.drop_last().len() implies digit_char_spec(#[trigger] a.drop_last()[i]) by {
                assert(a.drop_last()[i] == a[i]);
            }
        }
        assert(digit_char_spec(a[a.len() - 1]));
        lemma_count_digits(a.drop_last(), c);
    }
}

/// Trimming trailing zeros keeps a prefix, and the zeros put back give the
/// whole again; digits trimmed to nothing were all zeros.
pub proof fn lemma_trim_zeros_restore(x: Seq<char>)
    ensures
        trim_zeros(x).len() <= x.len(),
        trim_zeros(x) + zeros((x.len() - trim_zeros(x).len()) as nat) == x,
        trim_zeros(x).len() == 0 ==> digits_value(x) == 0,
    decreases x.len(),
{
    if x.len() > 0 && x.last() == '0' {
        lemma_trim_zeros_restore(x.drop_last());
        let t = trim_zeros(x.drop_last());
        let k = (x.drop_last().len() - t.len()) as nat;
        assert(zeros(k + 1) == zeros(k).push('0'));
        assert(t + zeros(k + 1) =~= (t + zeros(k)).push('0'));
        assert(x == x.drop_last().push('0'));
        assert(crate::text::digit_value('0') == 0);
    } else {
        assert(x + zeros(0) =~= x);
    }
}

/// The text of a date and time holds two `-` and no `+`.
proof fn lemma_stamp_counts(y: nat, m: nat, d: nat, h: nat, mi: nat, sec: nat)
    ensures
        count_char(stamp_text(y, m, d, h, mi, sec), '-') == 2,
        count_char(stamp_text(y, m, d, h, mi, sec), '+') == 0,
        stamp_text(y, m, d, h, mi, sec).len() == 19,
{
    lemma_fixed_digits_shape(y, 4);
    lemma_fixed_digits_shape(m, 2);
    lemma_fixed_digits_shape(d, 2);
    lemma_fixed_digits_shape(h, 2);
    lemma_fixed_digits_shape(mi, 2);
    lemma_fixed_digits_shape(sec, 2);
    reveal_with_fuel(count_char, 2);
    lemma_count_digits(fixed_digits(y, 4), '-');
    lemma_count_digits(fixed_digits(y, 4), '+');
    lemma_count_digits(fixed_digits(m, 2), '-');
    lemma_count_digits(fixed_digits(m, 2), '+');
    lemma_count_digits(fixed_digits(d, 2), '-');
    lemma_count_digits(fixed_digits(d, 2), '+');
    lemma_count_digits(fixed_digits(h, 2), '-');
    lemma_count_digits(fixed_digits(h, 2), '+');
    lemma_count_digits(fixed_digits(mi, 2), '-');
    lemma_count_digits(fixed_digits(mi, 2), '+');
    lemma_count_digits(fixed_digits(sec, 2), '-');
    lemma_count_digits(fixed_digits(sec, 2), '+');
    let acc0 = fixed_digits(y, 4);
    lemma_count_concat(acc0, seq!['-'], '-');
    lemma_count_concat(acc0, seq!['-'], '+');
    let acc1 = acc0 + seq!['-'];
    lemma_count_concat(acc1, fixed_digits(m, 2), '-');
    lemma_count_concat(acc1, fixed_digits(m, 2), '+');
    let acc2 = acc1 + fixed_digits(m, 2);
    lemma_count_concat(acc2, seq!['-'], '-');
    lemma_count_concat(acc2, seq!['-'], '+');
    let acc3 = acc2 + seq!['-'];
    lemma_count_concat(acc3, fixed_digits(d, 2), '-');
    lemma_count_concat(acc3, fixed_digits(d, 2), '+');
    let acc4 = acc3 + fixed_digits(d, 2);
    lemma_count_concat(acc4, seq!['T'], '-');
    lemma_count_concat(acc4, seq!['T'], '+');
    let acc5 = acc4 + seq!['T'];
    lemma_count_concat(acc5, fixed_digits(h, 2), '-');
    lemma_count_concat(acc5, fixed_digits(h, 2), '+');
    let acc6 = acc5 + fixed_digits(h, 2);
    lemma_count_concat(acc6, seq![':'], '-');
    lemma_count_concat(acc6, seq![':'], '+');
    let acc7 = acc6 + seq![':'];
    lemma_count_concat(acc7, fixed_digits(mi, 2), '-');
    lemma_count_concat(acc7, fixed_digits(mi, 2), '+');
    let acc8 = acc7 + fixed_digits(mi, 2);
    lemma_count_concat(acc8, seq![':'], '-');
    lemma_count_concat(acc8, seq![':'], '+');
    let acc9 = acc8 + seq![':'];
    lemma_count_concat(acc9, fixed_digits(sec, 2), '-');
    lemma_count_concat(acc9, fixed_digits(sec, 2), '+');
    let acc10 = acc9 + fixed_digits(sec, 2);
    let acc = acc10;
    assert(acc == stamp_text(y, m, d, h, mi, sec));
}

/// Ten to the second and to the fourth.
proof fn lemma_pow10_values()
    ensures
        pow10(2) == 100,
        pow10(4) == 10000,
{
    reveal_with_fuel(pow10, 5);
}

/// The fractional digits of a nonzero remainder are digits, not none,
/// and are worth the remainder once padded back to nine.
proof fn lemma_fraction_text_reads_back(rem: nat)
    requires
        0 < rem < NANOS_PER_SECOND,
    ensures
        fraction_text(rem).len() > 0,
        fraction_text(rem).len() <= 9,
        all_digits(fraction_text(rem)),
        fraction_nanos(fraction_text(rem)) == rem,
{
    let f = fraction_text(rem);
    let g = fixed_digits(rem, 9);
    lemma_fixed_digits_shape(rem, 9);
    lemma_pow10_small(8);
    lemma_trim_zeros_restore(g);
    assert(g == f + zeros((g.len() - f.len()) as nat));
    assert(g.subrange(0, f.len() as int) =~= f);
    assert forall|i: int| 0 <= i < f.len() implies digit_char_spec(#[trigger] f[i]) by {
        assert(f[i] == g[i]);
    }
    if f.len() >= 9 {
        assert(f.subrange(0, 9) =~= g);
    }
}

/// The text after the date and time of an instant holds no `-` or `+`.
proof fn lemma_suffix_counts(rem: nat)
    requires
        rem < NANOS_PER_SECOND,
    ensures
        ({
            let suffix = if rem == 0 { Seq::<char>::empty() } else { seq!['.'] + fraction_text(rem) };
            &&& count_char(suffix + seq!['Z'], '+') == 0
            &&& count_char(suffix + seq!['Z'], '-') == 0
        }),
{
    let suffix = if rem == 0 { Seq::<char>::empty() } else { seq!['.'] + fraction_text(rem) };
    reveal_with_fuel(count_char, 2);
    lemma_count_concat(suffix, seq!['Z'], '+');
    lemma_count_concat(suffix, seq!['Z'], '-');
    if rem != 0 {
        let f = fraction_text(rem);
        lemma_fraction_text_reads_back(rem);
        lemma_count_digits(f, '+');
        lemma_count_digits(f, '-');
        lemma_count_concat(seq!['.'], f, '+');
        lemma_count_concat(seq!['.'], f, '-');
    }
}

/// The date and time of a timestamp text, with an optional fraction after
/// it, have the shape and the fields that were written.
proof fn lemma_stamp_fields(y: nat, m: nat, d: nat, h: nat, mi: nat, sec: nat, suffix: Seq<char>)
    requires
        y <= 9999,
        m < 100 && d < 100 && h < 100 && mi < 100 && sec < 100,
        suffix.len() == 0 || (suffix.len() > 1 && suffix[0] == '.' && all_digits(
            suffix.subrange(1, suffix.len() as int),
        )),
    ensures
        ({
            let t = stamp_text(y, m, d, h, mi, sec) + suffix;
            &&& stamp_shape(t)
            &&& field(t, 0, 4) == y && field(t, 5, 7) == m && field(t, 8, 10) == d
            &&& field(t, 11, 13) == h && field(t, 14, 16) == mi && field(t, 17, 19) == sec
            &&& t.len() > 19 ==> t.subrange(20, t.len() as int) == suffix.subrange(1, suffix.len() as int)
        }),
{
    let t = stamp_text(y, m, d, h, mi, sec) + suffix;
    lemma_fixed_digits_shape(y, 4);
    lemma_fixed_digits_shape(m, 2);
    lemma_fixed_digits_shape(d, 2);
    lemma_fixed_digits_shape(h, 2);
    lemma_fixed_digits_shape(mi, 2);
    lemma_fixed_digits_shape(sec, 2);
    lemma_pow10_values();
    assert(t.subrange(0, 4) =~= fixed_digits(y, 4));
    assert(t.subrange(5, 7) =~= fixed_digits(m, 2));
    assert(t.subrange(8, 10) =~= fixed_digits(d, 2));
    assert(t.subrange(11, 13) =~= fixed_digits(h, 2));
    assert(t.subrange(14, 16) =~= fixed_digits(mi, 2));
    assert(t.subrange(17, 19) =~= fixed_digits(sec, 2));
    assert(t[4] == '-' && t[7] == '-' && t[10] == 'T' && t[13] == ':' && t[16] == ':');
    if suffix.len() > 0 {
        assert(t[19] == '.');
        assert(t.subrange(20, t.len() as int) =~= suffix.subrange(1, suffix.len() as int));
    }
}

/// Reading back the text of an instant gives the instant.
#[verifier::rlimit(50)]
proof fn lemma_instant_text_reads_back(n: int, st: Seq<char>)
    requires
        i64::MIN <= n <= i64::MAX,
        is_stamp_of(n / NANOS_PER_SECOND as int, st),
        utc_seconds_text(n / NANOS_PER_SECOND as int) == Some(st),
    ensures
        instant_value(instant_text(n)) == Some(n),
{
    let secs = n / NANOS_PER_SECOND as int;
    let rem = n % NANOS_PER_SECOND as int;
    let (y, m, d, h, mi, sec) = choose|y: nat, m: nat, d: nat, h: nat, mi: nat, sec: nat|
        y <= 9999 && valid_civil(y as int, m as int, d as int, h as int, mi as int, sec as int)
            && civil_seconds(y as int, m as int, d as int, h as int, mi as int, sec as int) == secs
            && st == #[trigger] stamp_text(y, m, d, h, mi, sec);
    lemma_stamp_counts(y, m, d, h, mi, sec);
    let suffix = if rem == 0 { Seq::<char>::empty() } else { seq!['.'] + fraction_text(rem as nat) };
    lemma_suffix_counts(rem as nat);
    if rem != 0 {
        lemma_fraction_text_reads_back(rem as nat);
        assert(suffix.subrange(1, suffix.len() as int) =~= fraction_text(rem as nat));
    }
    lemma_stamp_fields(y, m, d, h, mi, sec, suffix);
    let text = instant_text(n);
    assert(text =~= st + (suffix + seq!['Z']));
    lemma_count_concat(st, suffix + seq!['Z'], '+');
    lemma_count_concat(st, suffix + seq!['Z'], '-');
    assert(!has_offset(text));
    assert(text.drop_last() =~= st + suffix);
}

/// A run of `k` digits writes a number below ten to the `k`.
pub proof fn lemma_digits_value_bound(s: Seq<char>)
    requires
        all_digits(s),
    ensures
        digits_value(s) < pow10(s.len()),
    decreases s.len(),
{
    if s.len() > 0 {
        assert(all_digits(s.drop_last())) by {
            assert forall|i: int| 0 <= i < s.drop_last().len() implies crate::text::is_digit(#[trigger] s.drop_last()[i]) by {
                assert(s.drop_last()[i] == s[i]);
            }
        }
        assert(crate::text::is_digit(s[s.len() - 1]));
        lemma_digits_value_bound(s.drop_last());
        assert(digits_value(s.drop_last()) * 10 + crate::text::digit_value(s.last()) < pow10(s.len()))
            by (nonlinear_arith)
            requires
                digits_value(s.drop_last()) < pow10(s.drop_last().len()),
                crate::text::digit_value(s.last()) <= 9,
                pow10(s.len()) == 10 * pow10(s.drop_last().len()),
        ;
    }
}

/// Reads the digits of `v` from `a` up to `b`, at most four of them.
fn read_field(v: &Vec<char>, a: usize, b: usize) -> (r: u32)
    requires
        a <= b <= v@.len(),
        b - a <= 4,
        all_digits(v@.subrange(a as int, b as int)),
    ensures
        r as int == field(v@, a as int, b as int),
        r < 10000,
{
    proof {
        lemma_digits_value_bound(v@.subrange(a as int, b as int));
        lemma_pow10_small(0);
        lemma_pow10_small(1);
        lemma_pow10_small(2);
        lemma_pow10_small(3);
        lemma_pow10_small(4);
    }
    match digits_to_u64(v, a, b) {
        Some(x) => x as u32,
        None => 0,
    }
}

/// Whether the characters of `v` from `a` up to `b` are all digits.
fn digits_between(v: &Vec<char>, a: usize, b: usize) -> (r: bool)
    requires
        a <= b <= v@.len(),
    ensures
        r == all_digits(v@.subrange(a as int, b as int)),
{
    let e = scan_digits(v, a);
    if e >= b {
        assert(v@.subrange(a as int, b as int) == v@.subrange(a as int, e as int).subrange(0, b - a));
        true
    } else {
        assert(!digit_char_spec(v@[e as int]) || e >= v@.len());
        assert(v@.subrange(a as int, b as int)[e - a] == v@[e as int]);
        false
    }
}

/// Reads a UTC timestamp `YYYY-MM-DDTHH:MM:SS[.f]` without its `Z`.
fn read_zulu(t: &Vec<char>) -> (r: Option<i128>)
    ensures
        r is Some <==> zulu_nanos(t@) is Some,
        r is Some ==> r->0 == zulu_nanos(t@)->0,
{
    let n = t.len();
    if n < 19 {
        return None;
    }
    if !(digits_between(t, 0, 4) && digits_between(t, 5, 7) && digits_between(t, 8, 10)
        && digits_between(t, 11, 13) && digits_between(t, 14, 16) && digits_between(t, 17, 19)) {
        return None;
    }
    if !(t[4] == '-' && t[7] == '-' && t[10] == 'T' && t[13] == ':' && t[16] == ':') {
        return None;
    }
    let mut frac: u64 = 0;
    if n > 19 {
        if !(n > 20 && t[19] == '.' && digits_between(t, 20, n)) {
            return None;
        }
        frac = fraction_value(t, 20, n);
    }
    let y = read_field(t, 0, 4);
    let mo = read_field(t, 5, 7);
    let d = read_field(t, 8, 10);
    let h = read_field(t, 11, 13);
    let mi = read_field(t, 14, 16);
    let sec = read_field(t, 17, 19);
    match civil_timestamp(y as i32, mo, d, h, mi, sec) {
        Some(secs) => Some(secs as i128 * NANOS_PER_SECOND as i128 + frac as i128),
        None => None,
    }
}

/// A point in time, counted in nanoseconds since the Unix epoch, in UTC.
#[derive(Debug, Clone, Copy, PartialEq, Eq, PartialOrd, Ord, Hash)]
pub struct Instant {
    /// Nanoseconds since 1970-01-01T00:00:00Z.
    pub nanoseconds: i64,
}

impl Instant {
    /// The instant `nanoseconds` after the epoch.
    pub fn from_nanos(nanoseconds: i64) -> (r: Instant)
        ensures
            r.nanoseconds == nanoseconds,
    {
        Instant { nanoseconds }
    }

    /// The instant `milliseconds` after the epoch.
    pub fn from_millis(milliseconds: i64) -> (r: Instant)
        requires
            i64::MIN <= milliseconds * 1_000_000 <= i64::MAX,
        ensures
            r.nanoseconds == milliseconds * 1_000_000,
    {
        Instant { nanoseconds: milliseconds * 1_000_000 }
    }

    /// The instant `seconds` after the epoch.
    pub fn from_seconds(seconds: i64) -> (r: Instant)
        requires
            i64::MIN <= seconds * NANOS_PER_SECOND <= i64::MAX,
        ensures
            r.nanoseconds == seconds * NANOS_PER_SECOND,
    {
        Instant { nanoseconds: seconds * NANOS_PER_SECOND }
    }

    /// The instant the system clock reads now.
    pub fn now() -> (r: Instant) {
        Instant { nanoseconds: system_nanos() }
    }

    /// Reads an ISO-8601 timestamp: one with an offset is converted to
    /// UTC; one without is taken as UTC, with or without a final `Z`;
    /// fractional seconds count to the nanosecond.
    pub fn from_iso8601(s: &str) -> (r: Result<Instant, Error>)
        ensures
            r is Ok <==> instant_value(s@) is Some && i64::MIN <= instant_value(s@)->0 <= i64::MAX,
            r is Ok ==> r->Ok_0.nanoseconds == instant_value(s@)->0,
            r is Err ==> r->Err_0 is InvalidDate,
    {
        let v = chars_of(s);
        let total: i128;
        if count_in(&v, '+') > 0 || count_in(&v, '-') > 2 {
            match parse_rfc3339(s) {
                Some(p) => {
                    if p.nanos >= 1_000_000_000 {
                        return Err(Error::InvalidDate(string_of(&v)));
                    }
                    total = p.seconds as i128 * NANOS_PER_SECOND as i128 + p.nanos as i128;
                },
                None => {
                    return Err(Error::InvalidDate(string_of(&v)));
                },
            }
        } else {
            let n = v.len();
            let end = if n > 0 && v[n - 1] == 'Z' { n - 1 } else { n };
            let t = slice_chars(&v, 0, end);
            proof {
                if n > 0 && v@[n - 1] == 'Z' {
                    assert(t@ == s@.drop_last());
                } else {
                    assert(t@ == s@);
                }
            }
            match read_zulu(&t) {
                Some(x) => {
                    total = x;
                },
                None => {
                    return Err(Error::InvalidDate(string_of(&v)));
                },
            }
        }
        if total < i64::MIN as i128 || total > i64::MAX as i128 {
            return Err(Error::InvalidDate(string_of(&v)));
        }
        Ok(Instant { nanoseconds: total as i64 })
    }

    /// The ISO-8601 text of the instant in UTC: seconds only where they are
    /// whole, else a fraction without trailing zeros, and a final `Z`; it
    /// reads back as the same instant.
    #[verifier::rlimit(60)]
    pub fn to_iso8601(&self) -> (r: String)
        ensures
            r@ == instant_text(self.nanoseconds as int),
            instant_value(r@) == Some(self.nanoseconds as int),
            utc_seconds_text(self.nanoseconds as int / NANOS_PER_SECOND as int) is Some,
            is_stamp_of(
                self.nanoseconds as int / NANOS_PER_SECOND as int,
                utc_seconds_text(self.nanoseconds as int / NANOS_PER_SECOND as int)->0,
            ),
    {
        let n = self.nanoseconds as i128;
        let secs: i128 = if n >= 0 {
            n / 1_000_000_000
        } else {
            -((-n + 999_999_999) / 1_000_000_000)
        };
        let rem: i128 = n - secs * 1_000_000_000;
        assert(secs == n / 1_000_000_000 && rem == n % 1_000_000_000) by (nonlinear_arith)
            requires
                n >= 0 ==> secs == n / 1_000_000_000,
                n < 0 ==> secs == -((-n + 999_999_999) / 1_000_000_000),
                rem == n - secs * 1_000_000_000,
        ;
        assert(-9_300_000_000 <= secs <= 9_300_000_000) by (nonlinear_arith)
            requires
                secs == n / 1_000_000_000,
                i64::MIN <= n <= i64::MAX,
        ;
        let base = match format_utc_seconds(secs as i64) {
            Some(b) => b,
            None => {
                assert(false);
                String::new()
            },
        };
        let ghost st = base@;
        let mut out = chars_of(base.as_str());
        if rem != 0 {
            out.push('.');
            let mut digits: Vec<char> = Vec::new();
            push_fixed(&mut digits, rem as u64, 9);
            let trimmed = trim_zeros_vec(&digits);
            extend_chars(&mut out, &trimmed);
        }
        out.push('Z');
        let r = string_of(&out);
        assert(r@ == instant_text(self.nanoseconds as int));
        proof {
            lemma_instant_text_reads_back(self.nanoseconds as int, st);
        }
        r
    }

    /// Nanoseconds since the epoch.
    pub fn epoch_nanos(&self) -> (r: i64)
        ensures
            r == self.nanoseconds,
    {
        self.nanoseconds
    }

    /// Whole milliseconds since the epoch, rounded towards zero.
    pub fn epoch_millis(&self) -> (r: i64)
        ensures
            r == trunc_div(self.nanoseconds as int, 1_000_000),
    {
        if self.nanoseconds < 0 {
            -((-(self.nanoseconds as i128)) / 1_000_000) as i64
        } else {
            self.nanoseconds / 1_000_000
        }
    }

    /// Whole seconds since the epoch, rounded towards zero.
    pub fn epoch_seconds(&self) -> (r: i64)
        ensures
            r == trunc_div(self.nanoseconds as int, NANOS_PER_SECOND as int),
    {
        if self.nanoseconds < 0 {
            -((-(self.nanoseconds as i128)) / 1_000_000_000) as i64
        } else {
            self.nanoseconds / NANOS_PER_SECOND
        }
    }
}

/// `a / b` rounded towards zero, for a positive `b`.
pub open spec fn trunc_div(a: int, b: int) -> int {
    if a < 0 {
        -((-a) / b)
    } else {
        a / b
    }
}

/// A UTC timestamp with an optional offset from UTC in minutes, kept for
/// older data; `Instant` is preferred.
#[derive(Debug, Clone, Copy, PartialEq, Eq)]
pub struct Date {
    /// The Unix time in seconds.
    pub seconds: i64,
    /// Nanoseconds past that second.
    pub nanos: u32,
    /// The offset from UTC in minutes, if one was written.
    pub tz_offset: Option<i16>,
}

/// The text of a date: with its offset in RFC 3339 form where it has one,
/// else `YYYY-MM-DDTHH:MM:SS`, the fraction of the second without trailing
/// zeros where there is one, and `Z`; `None` where chrono cannot represent
/// it.
pub open spec fn date_text(d: Date) -> Option<Seq<char>> {
    match d.tz_offset {
        Some(m) => rfc3339_text(d.seconds as int, d.nanos as int, m * 60),
        None => match utc_seconds_text(d.seconds as int) {
            Some(t) => if d.nanos % 1_000_000_000 == 0 {
                Some(t.push('Z'))
            } else {
                Some(t + seq!['.'] + fraction_text((d.nanos % 1_000_000_000) as nat) + seq!['Z'])
            },
            None => None,
        },
    }
}

/// The date that `from_iso8601` reads from `s`, or `None`; chrono reads
/// no timestamp from a text without a `:`.
pub open spec fn date_of(s: Seq<char>) -> Option<Date> {
    if !s.contains(':') {
        None
    } else {
        date_parts_of(s)
    }
}

/// The date that chrono's readers give for `s`, or `None`.
pub open spec fn date_parts_of(s: Seq<char>) -> Option<Date> {
    match rfc3339_parts(s) {
        Some((secs, nanos, offset)) => Some(
            Date {
                seconds: secs as i64,
                nanos: nanos as u32,
                tz_offset: if s.len() > 0 && s.last() == 'Z' {
                    None
                } else {
                    Some(trunc_div(offset, 60) as i16)
                },
            },
        ),
        None => match utc_parts(s) {
            Some((secs, nanos)) => Some(
                Date { seconds: secs as i64, nanos: nanos as u32, tz_offset: None },
            ),
            None => None,
        },
    }
}

impl Date {
    /// A date at the Unix time `seconds`, with no offset recorded.
    pub fn from_utc(seconds: i64, nanos: u32) -> (r: Date)
        ensures
            r.seconds == seconds,
            r.nanos == nanos,
            r.tz_offset is None,
    {
        Date { seconds, nanos, tz_offset: None }
    }

    /// Reads an RFC 3339 timestamp; its offset is kept unless it is written `Z`.
    pub fn from_iso8601(s: &str) -> (r: Result<Date, Error>)
        ensures
            r is Ok <==> date_of(s@) is Some,
            r is Ok ==> r->Ok_0 == date_of(s@)->0,
            r is Err ==> r->Err_0 is InvalidDate,
    {
        match parse_rfc3339(s) {
            Some(p) => {
                let v = chars_of(s);
                let n = v.len();
                if n > 0 && v[n - 1] == 'Z' {
                    Ok(Date { seconds: p.seconds, nanos: p.nanos, tz_offset: None })
                } else {
                    let minutes: i32 = if p.offset < 0 {
                        -((-p.offset) / 60)
                    } else {
                        p.offset / 60
                    };
                    Ok(Date { seconds: p.seconds, nanos: p.nanos, tz_offset: Some(minutes as i16) })
                }
            },
            None => match parse_utc(s) {
                Some(p) => Ok(Date { seconds: p.seconds, nanos: p.nanos, tz_offset: None }),
                None => {
                    let v = chars_of(s);
                    Err(Error::InvalidDate(string_of(&v)))
                },
            },
        }
    }

    /// The date as text: RFC 3339 with its offset where one is recorded,
    /// else `YYYY-MM-DDTHH:MM:SS[.f]Z` with the fraction trimmed of
    /// trailing zeros; `None` where it lies outside the range of
    /// dates that can be written.
    pub fn to_iso8601(&self) -> (r: Option<String>)
        ensures
            match date_text(*self) {
                Some(t) => r is Some && r->0@ == t,
                None => r is None,
            },
    {
        match self.tz_offset {
            Some(m) => format_rfc3339(self.seconds, self.nanos, m as i32 * 60),
            None => match format_utc_seconds(self.seconds) {
                Some(t) => {
                    let mut c = chars_of(t.as_str());
                    let frac = self.nanos % 1_000_000_000;
                    if frac != 0 {
                        c.push('.');
                        let mut digits: Vec<char> = Vec::new();
                        push_fixed(&mut digits, frac as u64, 9);
                        let trimmed = trim_zeros_vec(&digits);
                        extend_chars(&mut c, &trimmed);
                    }
                    c.push('Z');
                    Some(string_of(&c))
                },
                None => None,
            },
        }
    }
}

impl std::str::FromStr for Instant {
    type Err = Error;

    fn from_str(s: &str) -> Result<Instant, Error> {
        Instant::from_iso8601(s)
    }
}

impl std::str::FromStr for Duration {
    type Err = Error;

    fn from_str(s: &str) -> Result<Duration, Error> {
        Duration::from_iso8601(s)
    }
}

impl std::str::FromStr for Date {
    type Err = Error;

    fn from_str(s: &str) -> Result<Date, Error> {
        Date::from_iso8601(s)
    }
}

} // verus!
