//! Integers of any size, read and written through `num_bigint`.
use vstd::prelude::*;
use crate::error::Error;
use crate::text::{
    all_digits, chars_of, digits_value, is_digit, nat_text, scan_digits, slice_chars, string_of,
    strip_first, strip_last,
};
use num_traits::Num;

verus! {

/// The decimal text of `i`: a `-` for a negative number, then its digits
/// without leading zeros.
pub open spec fn int_text(i: int) -> Seq<char> {
    if i < 0 {
        seq!['-'] + nat_text((-i) as nat)
    } else {
        nat_text(i as nat)
    }
}

/// Whether `t` is a plain decimal integer: an optional `-`, then one or more
/// digits.
pub open spec fn is_plain_integer(t: Seq<char>) -> bool {
    let m = strip_first(t, '-');
    m.len() > 0 && all_digits(m)
}

/// The value of a plain decimal integer.
pub open spec fn plain_integer_value(t: Seq<char>) -> int {
    let v = digits_value(strip_first(t, '-')) as int;
    if t.len() > 0 && t[0] == '-' {
        -v
    } else {
        v
    }
}

/// Keeping the characters other than `_` of a run of digits keeps them all.
pub proof fn lemma_filter_digits(d: Seq<char>)
    requires
        all_digits(d),
    ensures
        d.filter(|c: char| c != '_') == d,
    decreases d.len(),
{
    reveal(Seq::filter);
    if d.len() > 0 {
        let e = d.drop_last();
        assert(all_digits(e)) by {
            assert forall|i: int| 0 <= i < e.len() implies is_digit(#[trigger] e[i]) by {
                assert(e[i] == d[i]);
            }
        }
        lemma_filter_digits(e);
        assert(is_digit(d.last()));
        assert(d == e.push(d.last()));
    }
}

/// A plain decimal integer is one that `num_bigint` reads, with the same value.
proof fn lemma_plain_integer_read(t: Seq<char>)
    requires
        is_plain_integer(t),
    ensures
        is_integer_text(t),
        integer_value(t) == plain_integer_value(t),
{
    let m = strip_first(t, '-');
    assert(is_digit(m[0]));
    if t.len() > 0 && t[0] == '+' {
        assert(m == t);
        assert(is_digit(t[0]));
    }
    assert(magnitude_of(t) == m);
    lemma_filter_digits(m);
}

/// The digits of a decimal integer after its sign.
pub open spec fn magnitude_of(s: Seq<char>) -> Seq<char> {
    if s.len() > 0 && (s[0] == '-' || s[0] == '+') {
        s.drop_first()
    } else {
        s
    }
}

/// Whether `s` is a decimal integer as `num_bigint` reads one: an optional
/// `-` or `+`, then a digit, then digits and `_` separators.
pub open spec fn is_integer_text(s: Seq<char>) -> bool {
    let m = magnitude_of(s);
    &&& m.len() > 0
    &&& is_digit(m[0])
    &&& forall|i: int| 0 <= i < m.len() ==> is_digit(#[trigger] m[i]) || m[i] == '_'
}

/// The value of a decimal integer text, its `_` separators skipped.
pub open spec fn integer_value(s: Seq<char>) -> int {
    let v = digits_value(magnitude_of(s).filter(|c: char| c != '_')) as int;
    if s.len() > 0 && s[0] == '-' {
        -v
    } else {
        v
    }
}

/// Relies on `num_bigint::BigInt::from_str_radix` with radix ten and on its
/// `Display`: the integer is read from an optional sign and digits with `_`
/// separators, and written back in canonical decimal form.
#[verifier::external_body]
fn canonical_integer(s: &str) -> (r: Option<String>)
    ensures
        r is Some <==> is_integer_text(s@),
        r is Some ==> r->0@ == int_text(integer_value(s@)),
{
    num_bigint::BigInt::from_str_radix(s, 10).ok().map(|v| v.to_string())
}

/// Relies on `num_bigint::BigInt::from` for `i64` and on its `Display`: the
/// decimal text of `n`.
#[verifier::external_body]
fn integer_text_of(n: i64) -> (r: String)
    ensures
        r@ == int_text(n as int),
{
    num_bigint::BigInt::from(n).to_string()
}

/// An integer of any size.
#[derive(Debug, Clone, PartialEq, Eq, Hash)]
pub struct BigInt {
    text: String,
}

impl BigInt {
    /// The canonical decimal text of the integer.
    pub closed spec fn view_text(&self) -> Seq<char> {
        self.text@
    }

    /// The integer `n`.
    pub fn from_i64(n: i64) -> (r: BigInt)
        ensures
            r.view_text() == int_text(n as int),
    {
        BigInt { text: integer_text_of(n) }
    }

    /// Reads a decimal integer: an optional `-`, one or more digits, and
    /// an optional `n` suffix.
    pub fn from_str(s: &str) -> (r: Result<BigInt, Error>)
        ensures
            r is Ok <==> is_plain_integer(strip_last(s@, 'n')),
            r is Ok ==> r->Ok_0.view_text() == int_text(plain_integer_value(strip_last(s@, 'n'))),
            r is Err ==> r->Err_0 is InvalidBigInt,
    {
        let v = chars_of(s);
        let mut end = v.len();
        if end > 0 && v[end - 1] == 'n' {
            end -= 1;
        }
        let body_chars = slice_chars(&v, 0, end);
        let body = string_of(&body_chars);
        let ghost t = body_chars@;
        assert(t == strip_last(s@, 'n'));
        let start: usize = if end > 0 && body_chars[0] == '-' { 1 } else { 0 };
        let stop = scan_digits(&body_chars, start);
        assert(body_chars@.subrange(start as int, end as int) == strip_first(t, '-'));
        if start == end || stop < end {
            proof {
                if stop < end {
                    assert(strip_first(t, '-')[stop - start] == t[stop as int]);
                }
            }
            return Err(Error::InvalidBigInt(body));
        }
        proof {
            lemma_plain_integer_read(t);
        }
        match canonical_integer(body.as_str()) {
            Some(text) => Ok(BigInt { text }),
            None => Err(Error::InvalidBigInt(body)),
        }
    }

    /// The integer in decimal, without a suffix.
    pub fn to_string(&self) -> (r: String)
        ensures
            r@ == self.view_text(),
    {
        let c = chars_of(self.text.as_str());
        string_of(&c)
    }

    /// The integer as kJSON text, with the `n` suffix.
    pub fn to_kjson_string(&self) -> (r: String)
        ensures
            r@ == self.view_text().push('n'),
    {
        let mut c = chars_of(self.text.as_str());
        c.push('n');
        string_of(&c)
    }
}

impl std::str::FromStr for BigInt {
    type Err = Error;

    fn from_str(s: &str) -> Result<BigInt, Error> {
        BigInt::from_str(s)
    }
}

} // verus!
