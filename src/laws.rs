//! Laws that relate reading and writing kJSON text.
use vstd::prelude::*;
use crate::bigint::{int_text, is_plain_integer, plain_integer_value};
use crate::serializer::count_char;
use crate::decimal::{decimal_body, dot_split, is_decimal_literal};
use crate::guid::{all_hex, ascii_lower, hex_digits_value, hyphenated_digits, is_hex, uuid_digits, uuid_text};
use crate::error::Error;
use crate::number::number_text;
use crate::parser::{
    is_delimiter, is_space, lexeme_end, literal_end, literal_value, mantissa_end, number_end,
    number_ok, number_value, parse_result, ws_end,
};
use crate::serializer::{escape_char, escaped, is_control, quote_for, quoted, value_text};
use crate::parser::{is_quote, simple_escape, string_body};
use crate::text::{strip_last, all_digits, digit_value, digits_value, is_digit, nat_text, run_end, strip_first, trim_zeros};
use crate::number::{frac_part, int_part, strip_leading_zeros, Number};
use crate::time::date_of;
use crate::value::{
    keys_ascending, key_lt, lemma_key_lt_irreflexive, lemma_key_lt_transitive,
    Entry, Object, Value,
};

verus! {

/// The sign of a literal: `-` where it is negative.
pub open spec fn sign_text(negative: bool) -> Seq<char> {
    if negative {
        seq!['-']
    } else {
        Seq::empty()
    }
}

/// Whether `d` is the integer part of a literal: digits, without a leading
/// zero unless it is the only one.
pub open spec fn is_int_digits(d: Seq<char>) -> bool {
    d.len() > 0 && all_digits(d) && (d.len() == 1 || d[0] != '0')
}

/// The text of a number literal with no exponent: a sign, integer digits,
/// and a `.` with fraction digits where there are any.
pub open spec fn plain_literal(negative: bool, whole: Seq<char>, frac: Seq<char>) -> Seq<char> {
    sign_text(negative) + whole + if frac.len() > 0 {
        seq!['.'] + frac
    } else {
        Seq::empty()
    }
}

/// No character of a literal with no white space, `,`, `]` or `}` ends it
/// early.
proof fn lemma_literal_end_whole(s: Seq<char>, i: int)
    requires
        0 <= i <= s.len(),
        forall|k: int| i <= k < s.len() ==> !is_delimiter(#[trigger] s[k]),
    ensures
        literal_end(s, i) == s.len(),
    decreases s.len() - i,
{
    if i < s.len() {
        lemma_literal_end_whole(s, i + 1);
    }
}

/// The parts of a plain literal, character by character.
proof fn lemma_plain_literal_chars(negative: bool, whole: Seq<char>, frac: Seq<char>)
    requires
        is_int_digits(whole),
        all_digits(frac),
    ensures
        ({
            let s = plain_literal(negative, whole, frac);
            let a = if negative { 1int } else { 0int };
            &&& s.subrange(a, a + whole.len()) == whole
            &&& frac.len() > 0 ==> s[a + whole.len()] == '.' && s.subrange(
                a + whole.len() + 1,
                s.len() as int,
            ) == frac
            &&& frac.len() == 0 ==> s.len() == a + whole.len()
            &&& frac.len() > 0 ==> s.len() == a + whole.len() + 1 + frac.len()
            &&& negative ==> s[0] == '-'
            &&& !negative ==> s[0] == whole[0]
            &&& forall|k: int| 0 <= k < s.len() ==> is_digit(#[trigger] s[k]) || s[k] == '-' || s[k] == '.'
            &&& forall|k: int| 0 < k < s.len() ==> s[k] != '-'
        }),
{
    let s = plain_literal(negative, whole, frac);
    let a = if negative { 1int } else { 0int };
    assert(s.subrange(a, a + whole.len()) =~= whole);
    if frac.len() > 0 {
        assert(s.subrange(a + whole.len() + 1, s.len() as int) =~= frac);
    }
    assert forall|k: int| 0 <= k < s.len() implies is_digit(#[trigger] s[k]) || s[k] == '-' || s[k] == '.' by {
        if k < a {
        } else if k < a + whole.len() {
            assert(s[k] == whole[k - a]);
        } else if k == a + whole.len() {
        } else {
            assert(s[k] == frac[k - a - whole.len() - 1]);
        }
    }
    assert forall|k: int| 0 < k < s.len() implies s[k] != '-' by {
        if k < a + whole.len() {
            assert(s[k] == whole[k - a]);
        } else if k > a + whole.len() {
            assert(s[k] == frac[k - a - whole.len() - 1]);
        }
    }
}

/// A run of digits from `i` ends at `k` where the digits stop there.
proof fn lemma_run_end_at(s: Seq<char>, i: int, k: int)
    requires
        0 <= i <= k <= s.len(),
        forall|m: int| i <= m < k ==> is_digit(#[trigger] s[m]),
        k == s.len() || !is_digit(s[k]),
    ensures
        run_end(s, i) == k,
    decreases k - i,
{
    if i < k {
        lemma_run_end_at(s, i + 1, k);
    }
}

/// A text that has no `-` past its first character, does not open with
/// `{` or `u`, and is not 32 hexadecimal digits is no UUID.
proof fn lemma_not_uuid(s: Seq<char>)
    requires
        s.len() > 0,
        s[0] != '{',
        ascii_lower(s[0]) != 'u',
        forall|k: int| 0 < k < s.len() ==> s[k] != '-',
        s.len() == 32 ==> !all_hex(s),
    ensures
        uuid_digits(s) is None,
{
    if s.len() == 36 {
        assert(s[8] != '-');
    } else if s.len() == 45 {
        let p = s.subrange(0, 9).map_values(|c: char| ascii_lower(c));
        assert(p[0] != seq!['u', 'r', 'n', ':', 'u', 'u', 'i', 'd', ':'][0]);
    }
}

/// Reading a decimal literal with an `m` suffix (a sign, integer digits
/// without a leading zero, and optionally a fraction) and writing the value
/// back gives the literal itself, digit for digit.
pub proof fn law_decimal_literal_round_trip(
    negative: bool,
    whole: Seq<char>,
    frac: Seq<char>,
    r: Result<Value, Error>,
)
    requires
        is_int_digits(whole),
        all_digits(frac),
        plain_literal(negative, whole, frac).len() < 0x4000_0000_0000_0000,
        parse_result(plain_literal(negative, whole, frac).push('m'), r),
    ensures
        r is Ok,
        value_text(r->Ok_0, 0, false) == plain_literal(negative, whole, frac).push('m'),
{
    let t = plain_literal(negative, whole, frac);
    let s = t.push('m');
    let a = if negative { 1int } else { 0int };
    let w = whole.len() as int;
    lemma_plain_literal_chars(negative, whole, frac);
    assert forall|k: int| 0 <= k < t.len() implies s[k] == t[k] by {}
    assert(s[t.len() as int] == 'm');
    assert(!is_space(s[0]) && s[0] != '/');
    assert(ws_end(s, 0) == 0);
    assert forall|k: int| 0 <= k < s.len() implies !is_delimiter(#[trigger] s[k]) by {
        if k < t.len() {
            assert(is_digit(t[k]) || t[k] == '-' || t[k] == '.');
        }
    }
    lemma_literal_end_whole(s, 0);
    assert(s.subrange(0, s.len() as int) == s);
    assert(!s.contains(':')) by {
        if s.contains(':') {
            let k = choose|k: int| 0 <= k < s.len() && s[k] == ':';
            if k < t.len() {
                assert(is_digit(t[k]) || t[k] == '-' || t[k] == '.');
            }
        }
    }
    assert(date_of(s) is None);
    assert(!is_hex(s[s.len() - 1]));
    lemma_not_uuid(s);
    assert(literal_value(s, 0) is None);
    // the lexeme
    assert forall|m: int| a <= m < a + w implies is_digit(#[trigger] s[m]) by {
        assert(t.subrange(a, a + w)[m - a] == t[m]);
    }
    lemma_run_end_at(s, a, a + w);
    let p = a + w;
    if frac.len() > 0 {
        assert(s[p] == '.');
        assert forall|m: int| p + 1 <= m < p + 1 + frac.len() implies is_digit(#[trigger] s[m]) by {
            assert(t.subrange(p + 1, t.len() as int)[m - p - 1] == t[m]);
        }
        lemma_run_end_at(s, p + 1, p + 1 + frac.len());
        assert(mantissa_end(s, 0) == Some(t.len() as int));
    } else {
        assert(mantissa_end(s, 0) == Some(t.len() as int));
    }
    assert(lexeme_end(s, 0) == Some(t.len() as int));
    assert(s.subrange(0, t.len() as int) == t);
    assert(decimal_body(t) == t);
    let u = strip_first(t, '-');
    if frac.len() > 0 {
        assert(u == whole + (seq!['.'] + frac));
        assert(dot_split(u, w)) by {
            assert(u.subrange(0, w) =~= whole);
            assert(u.subrange(w + 1, u.len() as int) =~= frac);
        }
    } else {
        assert(u =~= whole);
    }
    assert(is_decimal_literal(t));
    assert(number_ok(s, 0));
    assert(number_end(s, 0) == s.len());
    assert(ws_end(s, s.len() as int) == s.len());
    let v = r->Ok_0;
    assert(number_value(s, 0, v));
}

/// The characters that make up a plain literal hold no delimiter, no `:`,
/// and no `/` or white space at the start: it is read as one literal from
/// its first character, and it is no timestamp.
proof fn lemma_plain_literal_reads(s: Seq<char>)
    requires
        s.len() > 0,
        forall|k: int| 0 <= k < s.len() ==> is_digit(#[trigger] s[k]) || s[k] == '-' || s[k] == '.'
            || s[k] == 'm' || s[k] == 'n',
    ensures
        ws_end(s, 0) == 0,
        literal_end(s, 0) == s.len(),
        s.subrange(0, literal_end(s, 0)) == s,
        date_of(s) is None,
{
    assert(is_digit(s[0]) || s[0] == '-' || s[0] == '.' || s[0] == 'm' || s[0] == 'n');
    assert forall|k: int| 0 <= k < s.len() implies !is_delimiter(#[trigger] s[k]) by {
        assert(is_digit(s[k]) || s[k] == '-' || s[k] == '.' || s[k] == 'm' || s[k] == 'n');
    }
    lemma_literal_end_whole(s, 0);
    assert(s.subrange(0, s.len() as int) == s);
    assert(!s.contains(':')) by {
        if s.contains(':') {
            let k = choose|k: int| 0 <= k < s.len() && s[k] == ':';
            assert(is_digit(s[k]) || s[k] == '-' || s[k] == '.' || s[k] == 'm' || s[k] == 'n');
        }
    }
}

/// Digits without a leading zero are written back unchanged by `nat_text`.
proof fn lemma_nat_text_of_digits(d: Seq<char>)
    requires
        is_int_digits(d),
    ensures
        nat_text(digits_value(d)) == d,
        d[0] != '0' ==> digits_value(d) >= 1,
        d.len() > 1 ==> digits_value(d) >= 10,
    decreases d.len(),
{
    assert(is_digit(d[d.len() - 1]));
    if d.len() == 1 {
        assert(d.drop_last().len() == 0);
        assert(digits_value(d.drop_last()) == 0);
        assert(d.last() == d[0]);
        assert(digits_value(d) == digit_value(d[0]));
        assert(nat_text(digits_value(d)) =~= d) by {
            assert(crate::text::digit_char(digit_value(d[0])) == d[0]);
        }
    } else {
        let e = d.drop_last();
        assert(e[0] == d[0]);
        assert(all_digits(e)) by {
            assert forall|i: int| 0 <= i < e.len() implies is_digit(#[trigger] e[i]) by {
                assert(e[i] == d[i]);
            }
        }
        lemma_nat_text_of_digits(e);
        let n = digits_value(d);
        let m = digits_value(e);
        let l = digit_value(d.last());
        assert(n == m * 10 + l);
        assert(l < 10);
        assert(n / 10 == m && n % 10 == l) by (nonlinear_arith)
            requires
                n == m * 10 + l,
                l < 10,
        ;
        assert(crate::text::digit_char(l) == d.last());
        assert(nat_text(n) == nat_text(m).push(crate::text::digit_char(l)));
        assert(d == e.push(d.last()));
    }
}

/// Reading a big integer literal with an `n` suffix (a sign and digits
/// without a leading zero) and writing the value back gives its canonical
/// text: the literal itself, but `-0n` becomes `0n`.
#[verifier::rlimit(60)]
pub proof fn law_bigint_literal_round_trip(negative: bool, whole: Seq<char>, r: Result<Value, Error>)
    requires
        is_int_digits(whole),
        parse_result(plain_literal(negative, whole, Seq::empty()).push('n'), r),
    ensures
        r is Ok,
        value_text(r->Ok_0, 0, false) == int_text(
            if negative {
                -digits_value(whole)
            } else {
                digits_value(whole) as int
            },
        ).push('n'),
        whole != seq!['0'] ==> value_text(r->Ok_0, 0, false) == plain_literal(
            negative,
            whole,
            Seq::empty(),
        ).push('n'),
{
    let t = plain_literal(negative, whole, Seq::empty());
    let s = t.push('n');
    let a = if negative { 1int } else { 0int };
    let w = whole.len() as int;
    lemma_plain_literal_chars(negative, whole, Seq::empty());
    assert forall|k: int| 0 <= k < t.len() implies s[k] == t[k] by {}
    assert(s[t.len() as int] == 'n');
    assert forall|k: int| 0 <= k < s.len() implies is_digit(#[trigger] s[k]) || s[k] == '-' || s[k]
        == '.' || s[k] == 'm' || s[k] == 'n' by {
        if k < t.len() {
            assert(is_digit(t[k]) || t[k] == '-' || t[k] == '.');
        }
    }
    lemma_plain_literal_reads(s);
    assert(!is_hex(s[s.len() - 1]));
    lemma_not_uuid(s);
    assert(literal_value(s, 0) is None);
    assert forall|m: int| a <= m < a + w implies is_digit(#[trigger] s[m]) by {
        assert(t.subrange(a, a + w)[m - a] == t[m]);
    }
    lemma_run_end_at(s, a, a + w);
    assert(mantissa_end(s, 0) == Some(t.len() as int));
    assert(lexeme_end(s, 0) == Some(t.len() as int));
    assert(s.subrange(0, t.len() as int) == t);
    assert(strip_last(t, 'n') == t);
    assert(strip_first(t, '-') =~= whole);
    assert(number_ok(s, 0));
    assert(number_end(s, 0) == s.len());
    assert(ws_end(s, s.len() as int) == s.len());
    assert(number_value(s, 0, r->Ok_0));
    lemma_int_text_literal(negative, whole);
}

/// The canonical text of the integer a sign and digits without a leading
/// zero write is those characters, but for minus zero.
proof fn lemma_int_text_literal(negative: bool, whole: Seq<char>)
    requires
        is_int_digits(whole),
    ensures
        whole != seq!['0'] ==> int_text(
            if negative {
                -digits_value(whole)
            } else {
                digits_value(whole) as int
            },
        ) == plain_literal(negative, whole, Seq::empty()),
{
    if whole != seq!['0'] {
        lemma_nat_text_of_digits(whole);
        if whole.len() == 1 {
            assert(whole[0] != '0') by {
                if whole[0] == '0' {
                    assert(whole =~= seq!['0']);
                }
            }
        }
        if negative {
            assert(int_text(-digits_value(whole)) =~= seq!['-'] + whole);
            assert(plain_literal(negative, whole, Seq::empty()) =~= seq!['-'] + whole);
        } else {
            assert(plain_literal(negative, whole, Seq::empty()) =~= whole);
        }
    }
}

/// Reading a plain number literal (a sign, integer digits without a leading
/// zero, and optionally a fraction that does not end in zero) and writing
/// the value back gives the literal itself; a run of exactly 32 digits is
/// left out, since it reads as a UUID.
pub proof fn law_number_literal_round_trip(
    negative: bool,
    whole: Seq<char>,
    frac: Seq<char>,
    r: Result<Value, Error>,
)
    requires
        is_int_digits(whole),
        all_digits(frac),
        frac.len() > 0 ==> frac.last() != '0',
        negative || frac.len() > 0 || whole.len() != 32,
        plain_literal(negative, whole, frac).len() < 0x4000_0000_0000_0000,
        parse_result(plain_literal(negative, whole, frac), r),
    ensures
        r is Ok,
        value_text(r->Ok_0, 0, false) == plain_literal(negative, whole, frac),
{
    let s = plain_literal(negative, whole, frac);
    let a = if negative { 1int } else { 0int };
    let w = whole.len() as int;
    lemma_plain_literal_chars(negative, whole, frac);
    lemma_plain_literal_reads(s);
    if s.len() == 32 {
        if negative {
            assert(!is_hex(s[0]));
        } else {
            assert(s[w] == '.');
            assert(!is_hex(s[w]));
        }
    }
    assert(ascii_lower(s[0]) != 'u') by {
        assert(is_digit(s[0]) || s[0] == '-' || s[0] == '.');
    }
    lemma_not_uuid(s);
    assert(literal_value(s, 0) is None);
    assert forall|m: int| a <= m < a + w implies is_digit(#[trigger] s[m]) by {
        assert(s.subrange(a, a + w)[m - a] == s[m]);
    }
    let p = a + w;
    if frac.len() > 0 {
        lemma_run_end_at(s, a, a + w);
        assert forall|m: int| p + 1 <= m < p + 1 + frac.len() implies is_digit(#[trigger] s[m]) by {
            assert(s.subrange(p + 1, s.len() as int)[m - p - 1] == s[m]);
        }
        lemma_run_end_at(s, p + 1, p + 1 + frac.len());
        assert(crate::parser::frac_digits(s, 0) == frac);
    } else {
        lemma_run_end_at(s, a, a + w);
        assert(crate::parser::frac_digits(s, 0) == Seq::<char>::empty());
    }
    assert(mantissa_end(s, 0) == Some(s.len() as int));
    assert(lexeme_end(s, 0) == Some(s.len() as int));
    assert(crate::parser::exp_value(s, 0, s.len() as int) == 0);
    assert(number_ok(s, 0));
    assert(number_end(s, 0) == s.len());
    assert(ws_end(s, s.len() as int) == s.len());
    assert(number_value(s, 0, r->Ok_0));
    let n = r->Ok_0->Number_0;
    let digits = whole + frac;
    assert(n.digits@ == digits);
    assert(strip_leading_zeros(whole) == whole);
    if frac.len() > 0 {
        assert(crate::number::int_part(digits, n.exponent as int) =~= whole);
        assert(crate::number::frac_part(digits, n.exponent as int) =~= frac);
        assert(trim_zeros(frac) == frac);
    } else {
        assert(crate::number::int_part(digits, n.exponent as int) =~= whole);
        assert(crate::number::frac_part(digits, n.exponent as int) =~= Seq::<char>::empty());
        assert(trim_zeros(Seq::<char>::empty()) == Seq::<char>::empty());
    }
    assert(number_text(n.negative, n.digits@, n.exponent as int) =~= s);
}

/// Reading `true` or `false` and writing the value back gives the keyword.
pub proof fn law_bool_literal_round_trip(b: bool, r: Result<Value, Error>)
    requires
        parse_result(if b { "true"@ } else { "false"@ }, r),
    ensures
        r == Ok::<Value, Error>(Value::Bool(b)),
        value_text(r->Ok_0, 0, false) == if b {
            "true"@
        } else {
            "false"@
        },
{
    reveal_strlit("true");
    reveal_strlit("false");
    let s = if b { "true"@ } else { "false"@ };
    assert forall|k: int| 0 <= k < s.len() implies !is_delimiter(#[trigger] s[k]) by {}
    lemma_literal_end_whole(s, 0);
    assert(s.subrange(0, s.len() as int) == s);
    assert(!s.contains(':'));
    assert(ws_end(s, 0) == 0);
    assert(literal_value(s, 0) is None);
    if b {
        assert(s.subrange(0, 4) == "true"@);
    } else {
        assert(s.subrange(0, 4) != "true"@) by {
            assert(s.subrange(0, 4)[0] != "true"@[0]);
        }
        assert(s.subrange(0, 5) == "false"@);
    }
}

/// Reading a hyphenated UUID `8-4-4-4-12`, in either case, and writing the
/// value back gives the canonical lowercase text of the UUID it names.
pub proof fn law_uuid_literal_round_trip(s: Seq<char>, r: Result<Value, Error>)
    requires
        s.len() == 36,
        hyphenated_digits(s) is Some,
        parse_result(s, r),
    ensures
        r is Ok,
        r->Ok_0 is Uuid,
        value_text(r->Ok_0, 0, false) == uuid_text(
            hex_digits_value(hyphenated_digits(s)->0) as u128,
        ),
{
    let d = hyphenated_digits(s)->0;
    assert forall|k: int| 0 <= k < s.len() implies is_hex(#[trigger] s[k]) || s[k] == '-' by {
        if k < 8 {
            assert(d[k] == s[k]);
        } else if 8 < k < 13 {
            assert(d[k - 1] == s[k]);
        } else if 13 < k < 18 {
            assert(d[k - 2] == s[k]);
        } else if 18 < k < 23 {
            assert(d[k - 3] == s[k]);
        } else if 23 < k {
            assert(d[k - 4] == s[k]);
        }
    }
    assert(is_hex(s[0])) by {
        assert(d[0] == s[0]);
    }
    assert(ws_end(s, 0) == 0);
    assert forall|k: int| 0 <= k < s.len() implies !is_delimiter(#[trigger] s[k]) by {
        assert(is_hex(s[k]) || s[k] == '-');
    }
    lemma_literal_end_whole(s, 0);
    assert(s.subrange(0, s.len() as int) == s);
    assert(literal_value(s, 0) is Some);
    assert(ws_end(s, 36) == 36);
}

/// Two sequences of entries with strictly ascending keys that hold the same
/// entries are the same sequence.
proof fn lemma_sorted_entries_unique(s: Seq<Entry>, t: Seq<Entry>)
    requires
        keys_ascending(s),
        keys_ascending(t),
        forall|i: int| 0 <= i < s.len() ==> t.contains(#[trigger] s[i]),
        forall|i: int| 0 <= i < t.len() ==> s.contains(#[trigger] t[i]),
    ensures
        s == t,
    decreases s.len() + t.len(),
{
    if s.len() == 0 {
        if t.len() > 0 {
            assert(s.contains(t[0]));
        }
        assert(s =~= t);
    } else if t.len() == 0 {
        assert(t.contains(s[0]));
    } else {
        assert(t.contains(s[0]));
        let j = choose|j: int| 0 <= j < t.len() && t[j] == s[0];
        assert(s.contains(t[0]));
        let i = choose|i: int| 0 <= i < s.len() && s[i] == t[0];
        if j > 0 {
            assert(key_lt(t[0].key@, t[j].key@));
            if i > 0 {
                assert(key_lt(s[0].key@, s[i].key@));
                lemma_key_lt_transitive(t[0].key@, s[0].key@, t[0].key@);
            }
            lemma_key_lt_irreflexive(t[0].key@);
        }
        assert(s[0] == t[0]);
        let s1 = s.drop_first();
        let t1 = t.drop_first();
        assert(keys_ascending(s1)) by {
            assert forall|a: int, b: int| 0 <= a < b < s1.len() implies key_lt(
                #[trigger] s1[a].key@,
                #[trigger] s1[b].key@,
            ) by {
                assert(key_lt(s[a + 1].key@, s[b + 1].key@));
            }
        }
        assert(keys_ascending(t1)) by {
            assert forall|a: int, b: int| 0 <= a < b < t1.len() implies key_lt(
                #[trigger] t1[a].key@,
                #[trigger] t1[b].key@,
            ) by {
                assert(key_lt(t[a + 1].key@, t[b + 1].key@));
            }
        }
        assert forall|a: int| 0 <= a < s1.len() implies t1.contains(#[trigger] s1[a]) by {
            assert(s1[a] == s[a + 1]);
            assert(t.contains(s[a + 1]));
            let k = choose|k: int| 0 <= k < t.len() && t[k] == s[a + 1];
            if k == 0 {
                assert(key_lt(s[0].key@, s[a + 1].key@));
                lemma_key_lt_irreflexive(s[0].key@);
            }
            assert(t1[k - 1] == t[k]);
        }
        assert forall|a: int| 0 <= a < t1.len() implies s1.contains(#[trigger] t1[a]) by {
            assert(t1[a] == t[a + 1]);
            assert(s.contains(t[a + 1]));
            let k = choose|k: int| 0 <= k < s.len() && s[k] == t[a + 1];
            if k == 0 {
                assert(key_lt(t[0].key@, t[a + 1].key@));
                lemma_key_lt_irreflexive(t[0].key@);
            }
            assert(s1[k - 1] == s[k]);
        }
        lemma_sorted_entries_unique(s1, t1);
        assert(s =~= seq![s[0]] + s1);
        assert(t =~= seq![t[0]] + t1);
    }
}

/// Objects are written with their keys in ascending order, so two
/// well-formed objects that hold the same entries, whatever order they were
/// inserted in, are written alike.
pub proof fn law_object_text_ignores_insertion_order(a: Object, b: Object, indent: nat, pretty: bool)
    requires
        a.wf(),
        b.wf(),
        forall|i: int| 0 <= i < a.entries@.len() ==> b.entries@.contains(#[trigger] a.entries@[i]),
        forall|i: int| 0 <= i < b.entries@.len() ==> a.entries@.contains(#[trigger] b.entries@[i]),
    ensures
        a.entries@ == b.entries@,
        value_text(Value::Object(a), indent, pretty) == value_text(Value::Object(b), indent, pretty),
{
    lemma_sorted_entries_unique(a.entries@, b.entries@);
}

/// Whether every control character of `s` is one of `\b`, `\f`, `\n`,
/// `\r` and `\t`, which have escapes of their own.
pub open spec fn named_controls_only(s: Seq<char>) -> bool {
    forall|k: int|
        0 <= k < s.len() && is_control(#[trigger] s[k]) ==> s[k] == '\x08' || s[k] == '\x0c' || s[k]
            == '\n' || s[k] == '\r' || s[k] == '\t'
}

/// Escaping a concatenation escapes each part.
proof fn lemma_escaped_concat(a: Seq<char>, b: Seq<char>, q: char)
    ensures
        escaped(a + b, q) == escaped(a, q) + escaped(b, q),
    decreases b.len(),
{
    if b.len() == 0 {
        assert(a + b =~= a);
        assert(escaped(b, q) =~= Seq::<char>::empty());
        assert(escaped(a, q) + escaped(b, q) =~= escaped(a, q));
    } else {
        lemma_escaped_concat(a, b.drop_last(), q);
        assert((a + b).drop_last() =~= a + b.drop_last());
        assert((a + b).last() == b.last());
        assert(escaped(a + b, q) =~= escaped(a, q) + escaped(b, q));
    }
}

/// Reading the escaped text of `s` from the character that `s[k]` starts
/// gives back the rest of `s`, up to the closing quote.
proof fn lemma_string_body_escaped(s: Seq<char>, q: char, k: int)
    requires
        is_quote(q),
        named_controls_only(s),
        0 <= k <= s.len(),
    ensures
        string_body(
            seq![q] + escaped(s, q) + seq![q],
            1 + escaped(s.subrange(0, k), q).len() as int,
            q,
        ) == Some((s.subrange(k, s.len() as int), (escaped(s, q).len() + 2) as int)),
    decreases s.len() - k,
{
    let x = seq![q] + escaped(s, q) + seq![q];
    let pre = escaped(s.subrange(0, k), q);
    let p = 1 + pre.len() as int;
    if k == s.len() {
        assert(s.subrange(0, k) == s);
        assert(x[p] == q);
        assert(s.subrange(k, s.len() as int) =~= Seq::<char>::empty());
    } else {
        let c = s[k];
        let ec = escape_char(c, q);
        let rest = escaped(s.subrange(k + 1, s.len() as int), q);
        assert(s.subrange(0, k + 1).drop_last() == s.subrange(0, k));
        assert(s.subrange(0, k + 1).last() == c);
        assert(escaped(s.subrange(0, k + 1), q) == pre + ec);
        lemma_escaped_concat(s.subrange(0, k + 1), s.subrange(k + 1, s.len() as int), q);
        assert(s.subrange(0, k + 1) + s.subrange(k + 1, s.len() as int) =~= s);
        assert(x =~= seq![q] + pre + ec + rest + seq![q]);
        lemma_string_body_escaped(s, q, k + 1);
        let tail = s.subrange(k + 1, s.len() as int);
        assert(s.subrange(k, s.len() as int) =~= seq![c] + tail);
        assert(forall|i: int| 0 <= i < ec.len() ==> x[p + i] == ec[i]);
        if c == '\\' {
            assert(x[p] == '\\' && x[p + 1] == '\\');
            assert(simple_escape('\\') == Some('\\'));
        } else if c == '\x08' || c == '\x0c' || c == '\n' || c == '\r' || c == '\t' {
            assert(x[p] == '\\');
            assert(x[p + 1] != 'u');
            assert(simple_escape(x[p + 1]) == Some(c));
        } else {
            assert(!is_control(c));
            if c == q {
                assert(x[p] == '\\' && x[p + 1] == q);
                assert(simple_escape(q) == Some(q));
            } else {
                assert(ec == seq![c]);
                assert(x[p] == c);
            }
        }
    }
}

/// A string whose only control characters have escapes of their own is
/// read back from its quoted text unchanged, whichever quote was chosen,
/// so writing, reading and writing it again gives the first text.
pub proof fn law_string_round_trip(s: Seq<char>, r: Result<Value, Error>)
    requires
        named_controls_only(s),
        parse_result(quoted(s), r),
    ensures
        r is Ok,
        r->Ok_0 is String,
        r->Ok_0->String_0@ == s,
        value_text(r->Ok_0, 0, false) == quoted(s),
{
    let q = quote_for(s);
    let x = quoted(s);
    assert(is_quote(q));
    assert(x[0] == q);
    assert(ws_end(x, 0) == 0);
    lemma_string_body_escaped(s, q, 0);
    assert(s.subrange(0, 0) =~= Seq::<char>::empty());
    assert(escaped(Seq::<char>::empty(), q) =~= Seq::<char>::empty());
    assert(s.subrange(0, s.len() as int) == s);
    assert(x.len() == escaped(s, q).len() + 2);
    assert(ws_end(x, x.len() as int) == x.len());
}

/// A run of digits keeps its shape when its leading zeros are stripped:
/// digits, at least one, with no leading zero unless it is the only one.
proof fn lemma_strip_leading_zeros_digits(x: Seq<char>)
    requires
        x.len() > 0,
        all_digits(x),
    ensures
        is_int_digits(strip_leading_zeros(x)),
    decreases x.len(),
{
    if x.len() > 1 && x[0] == '0' {
        assert(all_digits(x.drop_first())) by {
            assert forall|i: int| 0 <= i < x.drop_first().len() implies is_digit(#[trigger] x.drop_first()[i]) by {
                assert(x.drop_first()[i] == x[i + 1]);
            }
        }
        lemma_strip_leading_zeros_digits(x.drop_first());
    }
}

/// A run of digits without its trailing zeros is digits that do not end in
/// zero.
proof fn lemma_trim_zeros_digits(x: Seq<char>)
    requires
        all_digits(x),
    ensures
        all_digits(trim_zeros(x)),
        trim_zeros(x).len() > 0 ==> trim_zeros(x).last() != '0',
    decreases x.len(),
{
    if x.len() > 0 && x.last() == '0' {
        assert(all_digits(x.drop_last())) by {
            assert forall|i: int| 0 <= i < x.drop_last().len() implies is_digit(#[trigger] x.drop_last()[i]) by {
                assert(x.drop_last()[i] == x[i]);
            }
        }
        lemma_trim_zeros_digits(x.drop_last());
    }
}

/// Writing a number and reading the text back gives a number that is
/// written the same way, where its digits are digits and its text is not a
/// run of exactly 32 digits (which reads as a UUID).
pub proof fn law_number_value_round_trip(n: Number, r: Result<Value, Error>)
    requires
        n.digits@.len() > 0,
        all_digits(n.digits@),
        n.negative || trim_zeros(frac_part(n.digits@, n.exponent as int)).len() > 0 || strip_leading_zeros(
            int_part(n.digits@, n.exponent as int),
        ).len() != 32,
        value_text(Value::Number(n), 0, false).len() < 0x4000_0000_0000_0000,
        parse_result(value_text(Value::Number(n), 0, false), r),
    ensures
        r is Ok,
        value_text(r->Ok_0, 0, false) == value_text(Value::Number(n), 0, false),
{
    let d = n.digits@;
    let e = n.exponent as int;
    let ip = int_part(d, e);
    let fp = frac_part(d, e);
    assert(ip.len() > 0 && all_digits(ip)) by {
        if e >= 0 {
            assert forall|i: int| 0 <= i < ip.len() implies is_digit(#[trigger] ip[i]) by {
                if i < d.len() {
                    assert(ip[i] == d[i]);
                }
            }
        } else if -e >= d.len() {
        } else {
            assert forall|i: int| 0 <= i < ip.len() implies is_digit(#[trigger] ip[i]) by {
                assert(ip[i] == d[i]);
            }
        }
    }
    assert(all_digits(fp)) by {
        if e < 0 {
            if -e >= d.len() {
                assert forall|i: int| 0 <= i < fp.len() implies is_digit(#[trigger] fp[i]) by {
                    if i >= (-e - d.len()) {
                        assert(fp[i] == d[i - (-e - d.len())]);
                    }
                }
            } else {
                assert forall|i: int| 0 <= i < fp.len() implies is_digit(#[trigger] fp[i]) by {
                    assert(fp[i] == d[d.len() + e + i]);
                }
            }
        }
    }
    let whole = strip_leading_zeros(ip);
    let frac = trim_zeros(fp);
    lemma_strip_leading_zeros_digits(ip);
    lemma_trim_zeros_digits(fp);
    assert(value_text(Value::Number(n), 0, false) =~= plain_literal(n.negative, whole, frac));
    law_number_literal_round_trip(n.negative, whole, frac, r);
}

/// Reading a big integer written with a sign and digits without a leading
/// zero (`BigInt::from_str`) and writing it with its `n` suffix gives the
/// text back, but for minus zero, which is written `0n`.
pub proof fn law_bigint_text_round_trip(negative: bool, whole: Seq<char>, view: Seq<char>)
    requires
        is_int_digits(whole),
        !(negative && whole == seq!['0']),
        view == int_text(plain_integer_value(plain_literal(negative, whole, Seq::empty()))),
    ensures
        is_plain_integer(plain_literal(negative, whole, Seq::empty())),
        view.push('n') == plain_literal(negative, whole, Seq::empty()).push('n'),
{
    let t = plain_literal(negative, whole, Seq::empty());
    lemma_plain_literal_chars(negative, whole, Seq::empty());
    assert(strip_first(t, '-') =~= whole);
    lemma_int_text_literal(negative, whole);
    if whole == seq!['0'] {
        assert(!negative);
        assert(t =~= whole);
        assert(digits_value(whole) == 0) by {
            assert(whole.drop_last().len() == 0);
            assert(digits_value(whole.drop_last()) == 0);
        }
        assert(int_text(0) =~= whole);
    }
}

/// The quote chosen for a string costs no more escapes than either other
/// quote (its own occurrences plus the backslashes), and ties go to `'`,
/// then `"`, then `` ` ``.
pub proof fn law_quote_is_cheapest(s: Seq<char>)
    ensures
        ({
            let b = count_char(s, '\\');
            let single = count_char(s, '\'') + b;
            let double = count_char(s, '"') + b;
            let back = count_char(s, '`') + b;
            let q = quote_for(s);
            let cost = if q == '\'' { single } else if q == '"' { double } else { back };
            &&& q == '\'' || q == '"' || q == '`'
            &&& cost <= single && cost <= double && cost <= back
            &&& q == '\'' <==> single <= double && single <= back
            &&& q == '"' <==> double < single && double <= back
        }),
{
}

} // verus!
