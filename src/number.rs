//! Plain kJSON numbers, held as exact decimals.
use vstd::prelude::*;
use crate::text::{chars_of, nat_text, push_nat, extend_chars, push_zeros, slice_chars, string_of, trim_zeros, trim_zeros_vec, zeros};

verus! {

/// A plain number `(-1)^negative * digits * 10^exponent`, held exactly as it
/// was written rather than rounded to a binary double.
#[derive(Debug, Clone, PartialEq, Eq)]
pub struct Number {
    /// Whether the number carries a minus sign.
    pub negative: bool,
    /// The significant digits, without a decimal point.
    pub digits: String,
    /// The power of ten that scales the digits.
    pub exponent: i64,
}

/// The digits before the decimal point of `digits * 10^e`.
pub open spec fn int_part(digits: Seq<char>, e: int) -> Seq<char> {
    let len = digits.len() as int;
    if e >= 0 {
        digits + zeros(e as nat)
    } else if -e >= len {
        seq!['0']
    } else {
        digits.subrange(0, len + e)
    }
}

/// The digits after the decimal point of `digits * 10^e`.
pub open spec fn frac_part(digits: Seq<char>, e: int) -> Seq<char> {
    let len = digits.len() as int;
    if e >= 0 {
        Seq::empty()
    } else if -e >= len {
        zeros((-e - len) as nat) + digits
    } else {
        digits.subrange(len + e, len)
    }
}

/// `s` without its leading zeros, keeping at least one character.
pub open spec fn strip_leading_zeros(s: Seq<char>) -> Seq<char>
    decreases s.len(),
{
    if s.len() > 1 && s[0] == '0' {
        strip_leading_zeros(s.drop_first())
    } else {
        s
    }
}

/// The canonical text of a number: an optional `-`, the integer digits
/// without leading zeros, and the fractional digits without trailing zeros
/// after a `.` where any are left.
pub open spec fn number_text(negative: bool, digits: Seq<char>, e: int) -> Seq<char> {
    let sign = if negative { seq!['-'] } else { Seq::<char>::empty() };
    let f = trim_zeros(frac_part(digits, e));
    sign + strip_leading_zeros(int_part(digits, e)) + if f.len() == 0 {
        Seq::<char>::empty()
    } else {
        seq!['.'] + f
    }
}

/// `v` without its leading zeros, keeping at least one character.
fn strip_leading_zeros_vec(v: &Vec<char>) -> (r: Vec<char>)
    ensures
        r@ == strip_leading_zeros(v@),
{
    let mut i: usize = 0;
    assert(v@.subrange(0, v@.len() as int) == v@);
    while i < v.len() && v.len() - i > 1 && v[i] == '0'
        invariant
            i <= v@.len(),
            strip_leading_zeros(v@.subrange(i as int, v@.len() as int)) == strip_leading_zeros(v@),
        decreases v@.len() - i,
    {
        assert(v@.subrange(i as int, v@.len() as int).drop_first() == v@.subrange(i + 1, v@.len() as int));
        i += 1;
    }
    slice_chars(v, i, v.len())
}

impl Number {
    /// The whole number `n`.
    pub fn from_i64(n: i64) -> (r: Number)
        ensures
            r.negative == (n < 0),
            r.digits@ == nat_text((if n < 0 { -n } else { n as int }) as nat),
            r.exponent == 0,
    {
        let mag: u64 = if n < 0 { (-(n as i128)) as u64 } else { n as u64 };
        let mut d: Vec<char> = Vec::new();
        push_nat(&mut d, mag);
        Number { negative: n < 0, digits: string_of(&d), exponent: 0 }
    }

    /// The canonical text of the number.
    pub fn to_text(&self) -> (r: Vec<char>)
        ensures
            r@ == number_text(self.negative, self.digits@, self.exponent as int),
    {
        let d = chars_of(self.digits.as_str());
        let len = d.len();
        let e = self.exponent;
        let mut ip: Vec<char> = Vec::new();
        let mut fp: Vec<char> = Vec::new();
        if e >= 0 {
            extend_chars(&mut ip, &d);
            push_zeros(&mut ip, e as u64);
        } else {
            let mag: u64 = (-(e as i128)) as u64;
            if mag >= len as u64 {
                ip.push('0');
                push_zeros(&mut fp, mag - len as u64);
                extend_chars(&mut fp, &d);
            } else {
                let cut = len - mag as usize;
                ip = slice_chars(&d, 0, cut);
                fp = slice_chars(&d, cut, len);
            }
        }
        assert(ip@ == int_part(d@, e as int));
        assert(fp@ == frac_part(d@, e as int));
        let mut out: Vec<char> = Vec::new();
        if self.negative {
            out.push('-');
        }
        let ghost sign = out@;
        let whole = strip_leading_zeros_vec(&ip);
        let fraction = trim_zeros_vec(&fp);
        extend_chars(&mut out, &whole);
        if fraction.len() > 0 {
            out.push('.');
            extend_chars(&mut out, &fraction);
            assert(out@ =~= sign + whole@ + (seq!['.'] + fraction@));
        } else {
            assert(out@ =~= sign + whole@ + Seq::<char>::empty());
        }
        out
    }

    /// The canonical text of the number, as a string.
    pub fn to_string(&self) -> (r: String)
        ensures
            r@ == number_text(self.negative, self.digits@, self.exponent as int),
    {
        let t = self.to_text();
        string_of(&t)
    }
}

} // verus!
