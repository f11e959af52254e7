//! Exact decimal numbers: a sign, a run of digits and a power of ten.
use vstd::prelude::*;
use crate::error::Error;
use crate::text::{
    all_digits, chars_of, char_is_digit, extend_chars, push_zeros, slice_chars, string_of,
    strip_first, strip_last, zeros,
};

verus! {

/// A decimal number `(-1)^negative * digits * 10^exponent`, kept exactly as
/// written, with no binary rounding.
#[derive(Debug, Clone, PartialEq, Eq)]
pub struct Decimal128 {
    /// The digits, without the decimal point.
    pub digits: String,
    /// The power of ten; negative for fractional digits.
    pub exponent: i64,
    /// Whether the number is negative.
    pub negative: bool,
}

/// Formatting a decimal read from a literal gives back the literal's text
/// without its suffix: digits, point and sign exactly as written.
pub proof fn lemma_decimal_round_trip(s: Seq<char>, d: Decimal128)
    requires
        is_decimal_literal(s),
        d.negative == (decimal_body(s).len() > 0 && decimal_body(s)[0] == '-'),
        all_digits(strip_first(decimal_body(s), '-')) ==> d.digits@ == strip_first(
            decimal_body(s),
            '-',
        ) && d.exponent == 0,
        forall|k: int| #[trigger]
            dot_split(strip_first(decimal_body(s), '-'), k) ==> d.digits@ == strip_first(
                decimal_body(s),
                '-',
            ).subrange(0, k) + strip_first(decimal_body(s), '-').subrange(
                k + 1,
                strip_first(decimal_body(s), '-').len() as int,
            ) && d.exponent == k + 1 - strip_first(decimal_body(s), '-').len(),
    ensures
        decimal_text(d.negative, d.digits@, d.exponent as int) == decimal_body(s),
{
    let t = decimal_body(s);
    let u = strip_first(t, '-');
    let sign = if d.negative { seq!['-'] } else { Seq::<char>::empty() };
    assert(t == sign + u);
    if all_digits(u) && u.len() > 0 {
        assert(decimal_text(d.negative, d.digits@, d.exponent as int) == sign + u);
    } else {
        let k = choose|k: int| dot_split(u, k);
        let len = d.digits@.len() as int;
        assert(len == u.len() - 1);
        assert(d.digits@.subrange(0, len + d.exponent) == u.subrange(0, k));
        assert(d.digits@.subrange(len + d.exponent, len) == u.subrange(k + 1, u.len() as int));
        assert(u == u.subrange(0, k) + seq!['.'] + u.subrange(k + 1, u.len() as int));
    }
}

/// Whether `u` splits at `k` into a non-empty integer part, a `.` and a
/// non-empty fractional part, all digits.
pub open spec fn dot_split(u: Seq<char>, k: int) -> bool {
    &&& 0 < k < u.len() - 1
    &&& u[k] == '.'
    &&& all_digits(u.subrange(0, k))
    &&& all_digits(u.subrange(k + 1, u.len() as int))
}

/// Whether `u` is an unsigned decimal: digits, optionally `.` and more digits.
pub open spec fn is_unsigned_decimal(u: Seq<char>) -> bool {
    (u.len() > 0 && all_digits(u)) || exists|k: int| dot_split(u, k)
}

/// The decimal text of a literal: the literal without one trailing `m`.
pub open spec fn decimal_body(s: Seq<char>) -> Seq<char> {
    strip_last(s, 'm')
}

/// Whether `s` is a decimal literal: an optional `-`, an unsigned decimal
/// and an optional `m`.
pub open spec fn is_decimal_literal(s: Seq<char>) -> bool {
    is_unsigned_decimal(strip_first(decimal_body(s), '-'))
}

/// The text of `(-1)^negative * digits * 10^exponent`, with a decimal point
/// where the exponent is negative.
pub open spec fn decimal_text(negative: bool, digits: Seq<char>, exponent: int) -> Seq<char> {
    let sign = if negative { seq!['-'] } else { Seq::<char>::empty() };
    let len = digits.len() as int;
    sign + if exponent == 0 {
        digits
    } else if exponent < 0 {
        if -exponent >= len {
            seq!['0', '.'] + zeros((-exponent - len) as nat) + digits
        } else {
            digits.subrange(0, len + exponent) + seq!['.'] + digits.subrange(len + exponent, len)
        }
    } else {
        digits + zeros(exponent as nat)
    }
}

impl Decimal128 {
    /// Reads a decimal literal: an optional `-`, digits, optionally `.` and
    /// more digits, and an optional `m` suffix.
    pub fn from_str(s: &str) -> (r: Result<Decimal128, Error>)
        ensures
            r is Ok <==> is_decimal_literal(s@) && s@.len() <= i64::MAX,
            r is Err ==> r->Err_0 is InvalidDecimal128,
            r is Ok ==> ({
                let t = decimal_body(s@);
                let u = strip_first(t, '-');
                let d = r->Ok_0;
                &&& d.negative == (t.len() > 0 && t[0] == '-')
                &&& all_digits(u) ==> d.digits@ == u && d.exponent == 0
                &&& forall|k: int| #[trigger] dot_split(u, k) ==> d.digits@ == u.subrange(0, k)
                    + u.subrange(k + 1, u.len() as int) && d.exponent == k + 1 - u.len()
            }),
    {
        let v = chars_of(s);
        if v.len() as u64 > 0x7fff_ffff_ffff_ffff {
            return Err(Error::InvalidDecimal128(string_of(&v)));
        }
        let mut end = v.len();
        if end > 0 && v[end - 1] == 'm' {
            end -= 1;
        }
        let negative = end > 0 && v[0] == '-';
        let start: usize = if negative { 1 } else { 0 };
        let u = slice_chars(&v, start, end);
        proof {
            assert(v@.subrange(0, end as int) == decimal_body(s@));
            assert(u@ == strip_first(decimal_body(s@), '-'));
        }
        let n = u.len();
        let mut k: usize = 0;
        while k < n && char_is_digit(u[k])
            invariant
                k <= n == u@.len(),
                all_digits(u@.subrange(0, k as int)),
            decreases n - k,
        {
            k += 1;
            assert(u@.subrange(0, k as int).drop_last() == u@.subrange(0, k - 1));
        }
        if k == 0 {
            proof {
                assert forall|j: int| !dot_split(u@, j) by {
                    if dot_split(u@, j) {
                        assert(u@.subrange(0, j)[0] == u@[0]);
                    }
                }
                if n > 0 {
                    assert(!crate::text::is_digit(u@[0]));
                }
            }
            return Err(Error::InvalidDecimal128(string_of(&v)));
        }
        if k == n {
            proof {
                assert(u@.subrange(0, n as int) == u@);
            }
            return Ok(Decimal128 { digits: string_of(&u), exponent: 0, negative });
        }
        if u[k] != '.' {
            proof {
                assert(!all_digits(u@));
                assert forall|j: int| !dot_split(u@, j) by {
                    if dot_split(u@, j) {
                        if j < k {
                            assert(u@.subrange(0, k as int)[j] == u@[j]);
                        } else if j > k {
                            assert(u@.subrange(0, j)[k as int] == u@[k as int]);
                        }
                    }
                }
            }
            return Err(Error::InvalidDecimal128(string_of(&v)));
        }
        let mut j: usize = k + 1;
        while j < n && char_is_digit(u[j])
            invariant
                k < j <= n == u@.len(),
                all_digits(u@.subrange(k + 1, j as int)),
            decreases n - j,
        {
            j += 1;
            assert(u@.subrange(k + 1, j as int).drop_last() == u@.subrange(k + 1, j - 1));
        }
        if j == k + 1 || j < n {
            proof {
                assert(!all_digits(u@)) by {
                    assert(!crate::text::is_digit(u@[k as int]));
                }
                assert forall|i: int| !dot_split(u@, i) by {
                    if dot_split(u@, i) {
                        if i < k {
                            assert(u@.subrange(0, k as int)[i] == u@[i]);
                        } else if i > k {
                            assert(u@.subrange(0, i)[k as int] == u@[k as int]);
                        } else if j < n {
                            assert(u@.subrange(k + 1, n as int)[j - k - 1] == u@[j as int]);
                        }
                    }
                }
            }
            return Err(Error::InvalidDecimal128(string_of(&v)));
        }
        let frac = n - k - 1;
        let mut digits = slice_chars(&u, 0, k);
        let tail = slice_chars(&u, k + 1, n);
        extend_chars(&mut digits, &tail);
        proof {
            assert(dot_split(u@, k as int));
            assert(!all_digits(u@)) by {
                assert(!crate::text::is_digit(u@[k as int]));
            }
            assert forall|i: int| #[trigger] dot_split(u@, i) implies i == k by {
                if i < k {
                    assert(u@.subrange(0, k as int)[i] == u@[i]);
                } else if i > k {
                    assert(u@.subrange(0, i)[k as int] == u@[k as int]);
                }
            }
        }
        Ok(Decimal128 { digits: string_of(&digits), exponent: -(frac as i64), negative })
    }

    /// The number as text, without a suffix.
    pub fn to_string(&self) -> (r: String)
        ensures
            r@ == decimal_text(self.negative, self.digits@, self.exponent as int),
    {
        let d = chars_of(self.digits.as_str());
        let len = d.len();
        let mut out: Vec<char> = Vec::new();
        if self.negative {
            out.push('-');
        }
        let ghost sign = out@;
        let e = self.exponent;
        if e == 0 {
            extend_chars(&mut out, &d);
        } else if e < 0 {
            let mag: u64 = (-(e as i128)) as u64;
            if mag >= len as u64 {
                out.push('0');
                out.push('.');
                push_zeros(&mut out, mag - len as u64);
                extend_chars(&mut out, &d);
                assert(out@ == sign + (seq!['0', '.'] + zeros((mag - len) as nat) + d@));
            } else {
                let cut = len - mag as usize;
                let int_part = slice_chars(&d, 0, cut);
                let frac_part = slice_chars(&d, cut, len);
                extend_chars(&mut out, &int_part);
                out.push('.');
                extend_chars(&mut out, &frac_part);
                assert(out@ == sign + (int_part@ + seq!['.'] + frac_part@));
            }
        } else {
            extend_chars(&mut out, &d);
            push_zeros(&mut out, e as u64);
        }
        string_of(&out)
    }

    /// The number as kJSON text, with the `m` suffix.
    pub fn to_kjson_string(&self) -> (r: String)
        ensures
            r@ == decimal_text(self.negative, self.digits@, self.exponent as int).push('m'),
    {
        let body = self.to_string();
        let mut out = chars_of(body.as_str());
        out.push('m');
        string_of(&out)
    }
}

impl std::str::FromStr for Decimal128 {
    type Err = Error;

    fn from_str(s: &str) -> Result<Decimal128, Error> {
        Decimal128::from_str(s)
    }
}

} // verus!
