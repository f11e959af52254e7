//! Reading kJSON text into values.
use vstd::prelude::*;
use crate::bigint::{BigInt, int_text, is_plain_integer, plain_integer_value};
use crate::text::strip_last;
use crate::decimal::{Decimal128, is_decimal_literal};
use crate::error::Error;
use crate::guid::{all_hex, hex_digits_value, uuid_digits, Uuid};
use crate::number::Number;
use crate::text::{
    char_is_alphabetic, char_is_alphanumeric, char_is_digit,
    chars_of, digits_to_u64, digits_value, extend_chars, is_digit, key_rest, key_start, run_end,
    scan_digits, slice_chars, string_of,
};
use crate::time::{date_of, Date};
use crate::value::{entries_wf, has_key, items_wf, value_wf, Entry, Object, Value};

verus! {

/// Whether `c` is skipped as white space.
pub open spec fn is_space(c: char) -> bool {
    c == ' ' || c == '\t' || c == '\n' || c == '\r'
}

/// The position after the line comment whose text starts at `i`: past the
/// next line break, or the end of `s`.
pub open spec fn line_end(s: Seq<char>, i: int) -> int
    decreases s.len() - i,
{
    if i >= s.len() {
        s.len() as int
    } else if s[i] == '\n' {
        i + 1
    } else {
        line_end(s, i + 1)
    }
}

/// The position after the block comment whose text starts at `i`: past the
/// next `*/` (the `*` read after `star`), or the end of `s`.
pub open spec fn block_end(s: Seq<char>, i: int, star: bool) -> int
    decreases s.len() - i,
{
    if i >= s.len() {
        s.len() as int
    } else if star && s[i] == '/' {
        i + 1
    } else {
        block_end(s, i + 1, s[i] == '*')
    }
}

/// The position of the first character at or after `i` that is neither
/// white space nor inside a `//` or `/* */` comment.
pub open spec fn ws_end(s: Seq<char>, i: int) -> int
    decreases s.len() - i,
    via ws_end_decreases
{
    if i < 0 || i >= s.len() {
        i
    } else if is_space(s[i]) {
        ws_end(s, i + 1)
    } else if s[i] == '/' && i + 1 < s.len() && s[i + 1] == '/' {
        ws_end(s, line_end(s, i + 2))
    } else if s[i] == '/' && i + 1 < s.len() && s[i + 1] == '*' {
        ws_end(s, block_end(s, i + 2, false))
    } else {
        i
    }
}

#[via_fn]
proof fn ws_end_decreases(s: Seq<char>, i: int) {
    if 0 <= i < s.len() && !is_space(s[i]) && s[i] == '/' && i + 1 < s.len() {
        lemma_line_end_bounds(s, i + 2);
        lemma_block_end_bounds(s, i + 2, false);
    }
}

/// A line comment ends after where it starts and within the text.
pub proof fn lemma_line_end_bounds(s: Seq<char>, i: int)
    requires
        0 <= i <= s.len(),
    ensures
        i <= line_end(s, i) <= s.len(),
    decreases s.len() - i,
{
    if i < s.len() && s[i] != '\n' {
        lemma_line_end_bounds(s, i + 1);
    }
}

/// A block comment ends after where it starts and within the text.
pub proof fn lemma_block_end_bounds(s: Seq<char>, i: int, star: bool)
    requires
        0 <= i <= s.len(),
    ensures
        i <= block_end(s, i, star) <= s.len(),
    decreases s.len() - i,
{
    if i < s.len() && !(star && s[i] == '/') {
        lemma_block_end_bounds(s, i + 1, s[i] == '*');
    }
}

/// Skipping white space and comments moves forwards and stays within the
/// text.
pub proof fn lemma_ws_end_bounds(s: Seq<char>, i: int)
    requires
        0 <= i <= s.len(),
    ensures
        i <= ws_end(s, i) <= s.len(),
    decreases s.len() - i,
{
    if i < s.len() {
        if is_space(s[i]) {
            lemma_ws_end_bounds(s, i + 1);
        } else if s[i] == '/' && i + 1 < s.len() && s[i + 1] == '/' {
            lemma_line_end_bounds(s, i + 2);
            lemma_ws_end_bounds(s, line_end(s, i + 2));
        } else if s[i] == '/' && i + 1 < s.len() && s[i + 1] == '*' {
            lemma_block_end_bounds(s, i + 2, false);
            lemma_ws_end_bounds(s, block_end(s, i + 2, false));
        }
    }
}

/// The character that a one-letter escape `\e` stands for.
pub open spec fn simple_escape(e: char) -> Option<char> {
    if e == '"' || e == '\'' || e == '`' || e == '\\' || e == '/' {
        Some(e)
    } else if e == 'b' {
        Some('\x08')
    } else if e == 'f' {
        Some('\x0c')
    } else if e == 'n' {
        Some('\n')
    } else if e == 'r' {
        Some('\r')
    } else if e == 't' {
        Some('\t')
    } else {
        None
    }
}

/// Whether `code` is the code of a character (a Unicode scalar value).
pub open spec fn is_scalar(code: nat) -> bool {
    code <= 0x10ffff && !(0xd800 <= code <= 0xdfff)
}

/// Whether `c` has the code `code`.
pub open spec fn has_code(c: char, code: nat) -> bool {
    c as nat == code
}

/// The character whose code is `code`.
pub open spec fn char_with_code(code: nat) -> char {
    choose|c: char| #[trigger] has_code(c, code)
}

/// The contents and end of a string literal closed by `q`, whose contents
/// start at `i`: escapes are decoded, and the end is the position after
/// the closing quote; `None` where the literal is not closed or has a bad
/// escape.
pub open spec fn string_body(s: Seq<char>, i: int, q: char) -> Option<(Seq<char>, int)>
    decreases s.len() - i,
{
    if i < 0 || i >= s.len() {
        None
    } else if s[i] == q && s[i] != '\\' {
        Some((Seq::empty(), i + 1))
    } else if s[i] == '\\' {
        if i + 1 >= s.len() {
            None
        } else if s[i + 1] == 'u' {
            if i + 6 <= s.len() && all_hex(s.subrange(i + 2, i + 6)) && is_scalar(
                hex_digits_value(s.subrange(i + 2, i + 6)),
            ) {
                match string_body(s, i + 6, q) {
                    Some((rest, e)) => Some(
                        (
                            seq![char_with_code(hex_digits_value(s.subrange(i + 2, i + 6)))]
                                + rest,
                            e,
                        ),
                    ),
                    None => None,
                }
            } else {
                None
            }
        } else {
            match simple_escape(s[i + 1]) {
                Some(c) => match string_body(s, i + 2, q) {
                    Some((rest, e)) => Some((seq![c] + rest, e)),
                    None => None,
                },
                None => None,
            }
        }
    } else {
        match string_body(s, i + 1, q) {
            Some((rest, e)) => Some((seq![s[i]] + rest, e)),
            None => None,
        }
    }
}

/// Whether `c` opens a string literal.
pub open spec fn is_quote(c: char) -> bool {
    c == '"' || c == '\'' || c == '`'
}

/// The end of the bare key that starts at `i`: the first character that is
/// not a letter, digit, `_` or `$`.
pub open spec fn key_end(s: Seq<char>, i: int) -> int
    decreases s.len() - i,
{
    if 0 <= i < s.len() && key_rest(s[i]) {
        key_end(s, i + 1)
    } else {
        i
    }
}

/// Whether `c` ends an unquoted literal.
pub open spec fn is_delimiter(c: char) -> bool {
    is_space(c) || c == ',' || c == ']' || c == '}'
}

/// The end of the unquoted literal that starts at `i`.
pub open spec fn literal_end(s: Seq<char>, i: int) -> int
    decreases s.len() - i,
{
    if 0 <= i < s.len() && !is_delimiter(s[i]) {
        literal_end(s, i + 1)
    } else {
        i
    }
}

/// The end of the integer part of a number that starts at `i`: one `0`, or
/// a run of digits.
pub open spec fn int_part_end(s: Seq<char>, i: int) -> int {
    if 0 <= i < s.len() && s[i] == '0' {
        i + 1
    } else {
        run_end(s, i)
    }
}

/// The position after an optional `-` at `i`.
pub open spec fn sign_end(s: Seq<char>, i: int) -> int {
    if 0 <= i < s.len() && s[i] == '-' {
        i + 1
    } else {
        i
    }
}

/// The end of the integer and fraction of a number that starts at `i`, or
/// `None` where a `.` has no digits after it.
pub open spec fn mantissa_end(s: Seq<char>, i: int) -> Option<int> {
    let p = int_part_end(s, sign_end(s, i));
    if 0 <= p < s.len() && s[p] == '.' {
        if run_end(s, p + 1) == p + 1 {
            None
        } else {
            Some(run_end(s, p + 1))
        }
    } else {
        Some(p)
    }
}

/// The position of the exponent digits after the marker at `p`.
pub open spec fn exp_digits_start(s: Seq<char>, p: int) -> int {
    if p + 1 < s.len() && (s[p + 1] == '+' || s[p + 1] == '-') {
        p + 2
    } else {
        p + 1
    }
}

/// The end of the number lexeme that starts at `i` (sign, integer part,
/// fraction, exponent), or `None` where a fraction or an exponent has no
/// digits.
pub open spec fn lexeme_end(s: Seq<char>, i: int) -> Option<int> {
    match mantissa_end(s, i) {
        None => None,
        Some(p) => if 0 <= p < s.len() && (s[p] == 'e' || s[p] == 'E') {
            let q = exp_digits_start(s, p);
            if run_end(s, q) == q {
                None
            } else {
                Some(run_end(s, q))
            }
        } else {
            Some(p)
        },
    }
}

/// The fraction digits of the number lexeme at `i`.
pub open spec fn frac_digits(s: Seq<char>, i: int) -> Seq<char> {
    let p = int_part_end(s, sign_end(s, i));
    if 0 <= p < s.len() && s[p] == '.' {
        s.subrange(p + 1, run_end(s, p + 1))
    } else {
        Seq::empty()
    }
}

/// The value of the exponent of the number lexeme at `i` that ends at `e`,
/// with its sign; zero where it has none.
pub open spec fn exp_value(s: Seq<char>, i: int, e: int) -> int {
    let m = mantissa_end(s, i)->0;
    if 0 <= m < s.len() && (s[m] == 'e' || s[m] == 'E') {
        let q = exp_digits_start(s, m);
        let v = digits_value(s.subrange(q, e)) as int;
        if s[m + 1] == '-' {
            -v
        } else {
            v
        }
    } else {
        0
    }
}

/// Whether the exponent and the fraction of the number lexeme at `i` that
/// ends at `e` are small enough to hold (each below 2^62).
pub open spec fn number_fits(s: Seq<char>, i: int, e: int) -> bool {
    let ev = exp_value(s, i, e);
    -0x4000_0000_0000_0000 < ev < 0x4000_0000_0000_0000 && frac_digits(s, i).len()
        < 0x4000_0000_0000_0000
}

/// Whether `n` is the exact value of the number lexeme at `i` that ends at
/// `e`: its sign, its integer and fraction digits, and its exponent less the
/// number of fraction digits.
pub open spec fn number_parts(s: Seq<char>, i: int, e: int, n: Number) -> bool {
    let a = sign_end(s, i);
    &&& n.negative == (a > i)
    &&& n.digits@ == s.subrange(a, int_part_end(s, a)) + frac_digits(s, i)
    &&& n.exponent == exp_value(s, i, e) - frac_digits(s, i).len()
}

/// The UUID or timestamp that the unquoted literal at `i` writes, UUID
/// first, or `None` where it is neither.
pub open spec fn literal_value(s: Seq<char>, i: int) -> Option<Value> {
    let run = s.subrange(i, literal_end(s, i));
    if run.len() == 0 {
        None
    } else {
        match uuid_digits(run) {
        Some(d) => Some(Value::Uuid(Uuid { value: hex_digits_value(d) as u128 })),
            None => match date_of(run) {
                Some(d) => Some(Value::Date(d)),
                None => None,
            },
        }
    }
}

/// An unquoted literal ends after where it starts and within the text.
pub proof fn lemma_literal_end_bounds(s: Seq<char>, i: int)
    requires
        0 <= i <= s.len(),
    ensures
        i <= literal_end(s, i) <= s.len(),
    decreases s.len() - i,
{
    if i < s.len() && !is_delimiter(s[i]) {
        lemma_literal_end_bounds(s, i + 1);
    }
}

/// Whether a value that starts with `c` is first tried as an unquoted
/// literal and then read as a number or a keyword.
pub open spec fn literal_first(c: char) -> bool {
    c == '-' || is_digit(c) || c == 't' || c == 'f'
}

/// Whether the number at `p` can be read: its lexeme is complete; a big
/// integer or a decimal is well formed; a plain number has digits and an
/// exponent and a fraction small enough to hold.
pub open spec fn number_ok(s: Seq<char>, p: int) -> bool {
    match lexeme_end(s, p) {
        None => false,
        Some(e) => {
            let lex = s.subrange(p, e);
            if e < s.len() && s[e] == 'n' {
                is_plain_integer(strip_last(lex, 'n'))
            } else if e < s.len() && s[e] == 'm' {
                is_decimal_literal(lex) && lex.len() <= i64::MAX
            } else {
                (int_part_end(s, sign_end(s, p)) > sign_end(s, p) || frac_digits(s, p).len() > 0)
                    && number_fits(s, p, e)
            }
        },
    }
}

/// The position after the number at `p`, suffix included.
pub open spec fn number_end(s: Seq<char>, p: int) -> int {
    match lexeme_end(s, p) {
        None => p,
        Some(e) => if e < s.len() && (s[e] == 'n' || s[e] == 'm') {
            e + 1
        } else {
            e
        },
    }
}

/// Whether `v` is the value of the number at `p`: a big integer with the
/// canonical text of the lexeme, a decimal whose text is the lexeme, or a
/// plain number with the lexeme's sign, digits and exponent.
pub open spec fn number_value(s: Seq<char>, p: int, v: Value) -> bool {
    let e = lexeme_end(s, p)->0;
    let lex = s.subrange(p, e);
    if e < s.len() && s[e] == 'n' {
        v is BigInt && v->BigInt_0.view_text() == int_text(plain_integer_value(strip_last(lex, 'n')))
    } else if e < s.len() && s[e] == 'm' {
        v is Decimal128 && crate::decimal::decimal_text(
            v->Decimal128_0.negative,
            v->Decimal128_0.digits@,
            v->Decimal128_0.exponent as int,
        ) == crate::decimal::decimal_body(lex)
    } else {
        v is Number && number_parts(s, p, e, v->Number_0)
    }
}

/// What reading the number at `p` gives, ending at `end`.
pub open spec fn number_result(s: Seq<char>, p: int, r: Result<Value, Error>, end: int) -> bool {
    &&& r is Ok <==> number_ok(s, p)
    &&& r is Ok ==> number_value(s, p, r->Ok_0) && end == number_end(s, p)
    &&& r is Err ==> match lexeme_end(s, p) {
        None => r->Err_0 is ParseError,
        Some(e) => if e < s.len() && s[e] == 'n' {
            r->Err_0 is InvalidBigInt
        } else if e < s.len() && s[e] == 'm' {
            r->Err_0 is InvalidDecimal128
        } else {
            r->Err_0 is InvalidNumber
        },
    }
}

/// What reading the keyword `true` or `false` at `p` gives, ending at `end`.
pub open spec fn bool_result(s: Seq<char>, p: int, r: Result<Value, Error>, end: int) -> bool {
    let t = p + 4 <= s.len() && s.subrange(p, p + 4) == "true"@;
    let f = p + 5 <= s.len() && s.subrange(p, p + 5) == "false"@;
    &&& t ==> r == Ok::<Value, Error>(Value::Bool(true)) && end == p + 4
    &&& !t && f ==> r == Ok::<Value, Error>(Value::Bool(false)) && end == p + 5
    &&& !t && !f ==> r is Err && r->Err_0 is ParseError
}

/// Skipping white space and comments a second time moves no further.
pub proof fn lemma_ws_end_idempotent(s: Seq<char>, i: int)
    requires
        0 <= i <= s.len(),
    ensures
        ws_end(s, ws_end(s, i)) == ws_end(s, i),
    decreases s.len() - i,
{
    if i < s.len() {
        if is_space(s[i]) {
            lemma_ws_end_idempotent(s, i + 1);
        } else if s[i] == '/' && i + 1 < s.len() && s[i + 1] == '/' {
            lemma_line_end_bounds(s, i + 2);
            lemma_ws_end_idempotent(s, line_end(s, i + 2));
        } else if s[i] == '/' && i + 1 < s.len() && s[i + 1] == '*' {
            lemma_block_end_bounds(s, i + 2, false);
            lemma_ws_end_idempotent(s, block_end(s, i + 2, false));
        }
    }
}

/// What reading the whole text `s` as one value gives: the first value
/// after white space and comments, where only white space and comments
/// follow it; otherwise the failure of that value, or a parse error at the
/// first character that follows it.
pub open spec fn parse_result(s: Seq<char>, r: Result<Value, Error>) -> bool {
    let j = ws_end(s, 0);
    let len = s.len() as int;
    &&& r is Ok <==> value_end(s, 0) is Some && ws_end(s, value_end(s, 0)->0) == len
    &&& r is Ok ==> value_wf(r->Ok_0) && reads(s, 0, r->Ok_0)
    &&& r is Err && value_end(s, 0) is None ==> fails_as(s, value_fail(s, 0), r->Err_0)
    &&& r is Err && value_end(s, 0) is Some ==> r->Err_0 is ParseError && r->Err_0->position
        == ws_end(s, value_end(s, 0)->0)
    &&& j >= len ==> r is Err && r->Err_0 is UnexpectedEof
    &&& j < len && s[j] == 'n' ==> (r is Ok <==> j + 4 <= len && s.subrange(j, j + 4) == "null"@
        && ws_end(s, j + 4) == len) && (r is Ok ==> r->Ok_0 is Null)
    &&& j < len && is_quote(s[j]) ==> match string_body(s, j + 1, s[j]) {
        Some((t, e)) => (r is Ok <==> ws_end(s, e) == len) && (r is Ok ==> r->Ok_0 is String
            && r->Ok_0->String_0@ == t),
        None => r is Err,
    }
    &&& j < len && literal_first(s[j]) && literal_value(s, j) is Some ==> (r is Ok <==> ws_end(
        s,
        literal_end(s, j),
    ) == len) && (r is Ok ==> r->Ok_0 == literal_value(s, j)->0)
    &&& j < len && (s[j] == '-' || is_digit(s[j])) && literal_value(s, j) is None ==> (r is Ok
        <==> number_ok(s, j) && ws_end(s, number_end(s, j)) == len) && (r is Ok ==> number_value(
        s,
        j,
        r->Ok_0,
    ))
    &&& j < len && (s[j] == 't' || s[j] == 'f') && literal_value(s, j) is None ==> ({
        let t = j + 4 <= len && s.subrange(j, j + 4) == "true"@;
        let f = j + 5 <= len && s.subrange(j, j + 5) == "false"@;
        &&& r is Ok <==> (t && ws_end(s, j + 4) == len) || (!t && f && ws_end(s, j + 5) == len)
        &&& r is Ok ==> r->Ok_0 == Value::Bool(t)
    })
    &&& j < len && s[j] == '[' ==> (r is Ok ==> r->Ok_0 is Array)
    &&& j < len && s[j] == '{' ==> (r is Ok ==> r->Ok_0 is Object)
    &&& j < len && !literal_first(s[j]) && !is_quote(s[j]) && s[j] != 'n' && s[j] != '[' && s[j]
        != '{' ==> (r is Ok <==> literal_value(s, j) is Some && ws_end(s, literal_end(s, j)) == len)
        && (r is Ok ==> r->Ok_0 == literal_value(s, j)->0)
}

/// Where the value that is not an array or an object, starting at `j`,
/// ends, or `None` where it cannot be read.
pub open spec fn leaf_end(s: Seq<char>, j: int) -> Option<int> {
    let c = s[j];
    if c == 'n' {
        if j + 4 <= s.len() && s.subrange(j, j + 4) == "null"@ {
            Some(j + 4)
        } else {
            None
        }
    } else if is_quote(c) {
        match string_body(s, j + 1, c) {
            Some((_, e)) => Some(e),
            None => None,
        }
    } else if literal_value(s, j) is Some {
        Some(literal_end(s, j))
    } else if c == 't' || c == 'f' {
        if j + 4 <= s.len() && s.subrange(j, j + 4) == "true"@ {
            Some(j + 4)
        } else if j + 5 <= s.len() && s.subrange(j, j + 5) == "false"@ {
            Some(j + 5)
        } else {
            None
        }
    } else if c == '-' || is_digit(c) {
        if number_ok(s, j) {
            Some(number_end(s, j))
        } else {
            None
        }
    } else {
        None
    }
}

/// Where the value that starts after white space at `i` ends, or `None`
/// where it cannot be read.
pub open spec fn value_end(s: Seq<char>, i: int) -> Option<int>
    decreases s.len() - i, 0nat,
{
    let j = ws_end(s, i);
    if i < 0 || j < i || j >= s.len() {
        None
    } else if s[j] == '[' {
        array_end(s, j + 1)
    } else if s[j] == '{' {
        object_end(s, j + 1)
    } else {
        leaf_end(s, j)
    }
}

/// Where the array whose `[` ends at `p` ends.
pub open spec fn array_end(s: Seq<char>, p: int) -> Option<int>
    decreases s.len() - p, 2nat,
{
    let q = ws_end(s, p);
    if p < 0 || q < p || q > s.len() {
        None
    } else if q < s.len() && s[q] == ']' {
        Some(q + 1)
    } else {
        elements_end(s, q)
    }
}

/// Where the elements of an array from `p` on, and the array, end.
pub open spec fn elements_end(s: Seq<char>, p: int) -> Option<int>
    decreases s.len() - p, 1nat,
{
    if p < 0 || p > s.len() {
        None
    } else {
        match value_end(s, p) {
            Some(e) => {
                let q = ws_end(s, e);
                if e <= p || q < e || q > s.len() {
                    None
                } else if q < s.len() && s[q] == ',' {
                    let q2 = ws_end(s, q + 1);
                    if q2 < q + 1 || q2 > s.len() {
                        None
                    } else if q2 < s.len() && s[q2] == ']' {
                        Some(q2 + 1)
                    } else {
                        elements_end(s, q2)
                    }
                } else if q < s.len() && s[q] == ']' {
                    Some(q + 1)
                } else {
                    None
                }
            },
            None => None,
        }
    }
}

/// Where the object whose `{` ends at `p` ends.
pub open spec fn object_end(s: Seq<char>, p: int) -> Option<int>
    decreases s.len() - p, 2nat,
{
    let q = ws_end(s, p);
    if p < 0 || q < p || q > s.len() {
        None
    } else if q < s.len() && s[q] == '}' {
        Some(q + 1)
    } else {
        members_end(s, q)
    }
}

/// Where the key that starts after white space at `p` ends.
pub open spec fn key_text_end(s: Seq<char>, p: int) -> Option<int> {
    let q = ws_end(s, p);
    if q < 0 || q >= s.len() {
        None
    } else if is_quote(s[q]) {
        match string_body(s, q + 1, s[q]) {
            Some((_, e)) => Some(e),
            None => None,
        }
    } else if key_start(s[q]) {
        Some(key_end(s, q + 1))
    } else {
        None
    }
}

/// Where the members of an object from `p` on, and the object, end.
pub open spec fn members_end(s: Seq<char>, p: int) -> Option<int>
    decreases s.len() - p, 1nat,
{
    if p < 0 || p > s.len() {
        None
    } else {
        match key_text_end(s, p) {
            Some(k) => {
                let c = ws_end(s, k);
                if k <= p || c < k || c >= s.len() || s[c] != ':' {
                    None
                } else {
                    match value_end(s, c + 1) {
                        Some(e) => {
                            let q = ws_end(s, e);
                            if e <= c + 1 || q < e || q > s.len() {
                                None
                            } else if q < s.len() && s[q] == ',' {
                                let q2 = ws_end(s, q + 1);
                                if q2 < q + 1 || q2 > s.len() {
                                    None
                                } else if q2 < s.len() && s[q2] == '}' {
                                    Some(q2 + 1)
                                } else {
                                    members_end(s, q2)
                                }
                            } else if q < s.len() && s[q] == '}' {
                                Some(q + 1)
                            } else {
                                None
                            }
                        },
                        None => None,
                    }
                }
            },
            None => None,
        }
    }
}

/// The number of elements of the array whose elements start at `p`, as
/// `elements_end` reads them.
pub open spec fn element_count(s: Seq<char>, p: int) -> nat
    decreases s.len() - p,
{
    if p < 0 || p > s.len() {
        0
    } else {
        match value_end(s, p) {
            Some(e) => {
                let q = ws_end(s, e);
                if e <= p || q < e || q > s.len() {
                    0
                } else if q < s.len() && s[q] == ',' {
                    let q2 = ws_end(s, q + 1);
                    if q2 < q + 1 || q2 > s.len() {
                        0
                    } else if q2 < s.len() && s[q2] == ']' {
                        1
                    } else {
                        1 + element_count(s, q2)
                    }
                } else {
                    1
                }
            },
            None => 0,
        }
    }
}

/// Where the element after the one that starts at `p` starts: past the
/// value, the `,` and the white space after it.
pub open spec fn next_element(s: Seq<char>, p: int) -> int {
    ws_end(s, ws_end(s, value_end(s, p)->0) + 1)
}

/// Where the `k`-th element of the array whose elements start at `p` starts.
pub open spec fn element_start(s: Seq<char>, p: int, k: nat) -> int
    decreases k,
{
    if k == 0 {
        p
    } else {
        next_element(s, element_start(s, p, (k - 1) as nat))
    }
}

/// Where the value of the member that starts at `p` starts: after its key,
/// white space and the `:`.
pub open spec fn member_value_start(s: Seq<char>, p: int) -> int {
    ws_end(s, key_text_end(s, p)->0) + 1
}

/// The key of the member that starts at `p`: the contents of a quoted key,
/// or the characters of a bare one.
pub open spec fn member_key(s: Seq<char>, p: int) -> Seq<char> {
    let q = ws_end(s, p);
    if is_quote(s[q]) {
        match string_body(s, q + 1, s[q]) {
            Some((t, _)) => t,
            None => Seq::empty(),
        }
    } else {
        s.subrange(q, key_end(s, q + 1))
    }
}

/// Where the member after the one that starts at `p` starts.
pub open spec fn next_member(s: Seq<char>, p: int) -> int {
    ws_end(s, ws_end(s, value_end(s, member_value_start(s, p))->0) + 1)
}

/// Where the `k`-th member of the object whose members start at `p` starts.
pub open spec fn member_start(s: Seq<char>, p: int, k: nat) -> int
    decreases k,
{
    if k == 0 {
        p
    } else {
        next_member(s, member_start(s, p, (k - 1) as nat))
    }
}

/// The number of members of the object whose members start at `p`, as
/// `members_end` reads them.
pub open spec fn member_count(s: Seq<char>, p: int) -> nat
    decreases s.len() - p,
{
    if p < 0 || p > s.len() {
        0
    } else {
        match key_text_end(s, p) {
            Some(k) => {
                let c = ws_end(s, k);
                if k <= p || c < k || c >= s.len() || s[c] != ':' {
                    0
                } else {
                    match value_end(s, c + 1) {
                        Some(e) => {
                            let q = ws_end(s, e);
                            if e <= c + 1 || q < e || q > s.len() {
                                0
                            } else if q < s.len() && s[q] == ',' {
                                let q2 = ws_end(s, q + 1);
                                if q2 < q + 1 || q2 > s.len() {
                                    0
                                } else if q2 < s.len() && s[q2] == '}' {
                                    1
                                } else {
                                    1 + member_count(s, q2)
                                }
                            } else {
                                1
                            }
                        },
                        None => 0,
                    }
                }
            },
            None => 0,
        }
    }
}

/// Whether the `k`-th of the first `n` members from `p` is the last of them
/// with its key.
pub open spec fn last_with_key(s: Seq<char>, p: int, n: nat, k: nat) -> bool {
    forall|m: nat| k < m < n ==> member_key(s, #[trigger] member_start(s, p, m)) != member_key(
        s,
        member_start(s, p, k),
    )
}

/// Whether `v` is the value that is not an array or an object and whose
/// text starts at `j`.
pub open spec fn leaf_reads(s: Seq<char>, j: int, v: Value) -> bool {
    let c = s[j];
    if c == 'n' {
        v is Null
    } else if is_quote(c) {
        match string_body(s, j + 1, c) {
            Some((t, _)) => v is String && v->String_0@ == t,
            None => false,
        }
    } else if literal_value(s, j) is Some {
        v == literal_value(s, j)->0
    } else if c == 't' || c == 'f' {
        v == Value::Bool(j + 4 <= s.len() && s.subrange(j, j + 4) == "true"@)
    } else if c == '-' || is_digit(c) {
        number_value(s, j, v)
    } else {
        false
    }
}

/// Whether `o` holds what the members of the object whose `{` ends at `p`
/// say: every key of a member, each with the value of the last member
/// that has it, and no other key.
pub open spec fn object_members_read(s: Seq<char>, p: int, o: Object) -> bool
    decreases o,
{
    let q = ws_end(s, p);
    let n = if q < s.len() && s[q] == '}' {
        0
    } else {
        member_count(s, q)
    };
    &&& forall|k: nat|
        k < n ==> crate::value::has_key(o.entries@, #[trigger] member_key(s, member_start(s, q, k)))
    &&& forall|i: int|
        0 <= i < o.entries@.len() ==> exists|k: nat|
            k < n && member_key(s, #[trigger] member_start(s, q, k)) == o.entries@[i].key@
                && last_with_key(s, q, n, k) && reads(
                s,
                member_value_start(s, member_start(s, q, k)),
                #[trigger] o.entries@[i].value,
            )
}

/// Whether `v` is the value whose text starts after white space at `i`: a
/// leaf as its text says, an array with one element for each value in its
/// text, each read from where it starts, and an object where the text holds
/// one.
pub open spec fn reads(s: Seq<char>, i: int, v: Value) -> bool
    decreases v,
{
    let j = ws_end(s, i);
    if j < 0 || j >= s.len() {
        false
    } else {
        match v {
            Value::Array(items) => {
                let q = ws_end(s, j + 1);
                &&& s[j] == '['
                &&& items@.len() == (if q < s.len() && s[q] == ']' {
                    0
                } else {
                    element_count(s, q)
                })
                &&& forall|k: int|
                    0 <= k < items@.len() ==> reads(s, element_start(s, q, k as nat), #[trigger] items@[k])
            },
            Value::Object(o) => s[j] == '{' && object_members_read(s, j + 1, o),
            _ => s[j] != '[' && s[j] != '{' && leaf_reads(s, j, v),
        }
    }
}

/// Whether `items` are the elements of the array whose `[` ends at `p`.
pub open spec fn array_items_read(s: Seq<char>, p: int, items: Seq<Value>) -> bool {
    let q = ws_end(s, p);
    &&& items.len() == (if q < s.len() && s[q] == ']' {
        0
    } else {
        element_count(s, q)
    })
    &&& forall|k: int| 0 <= k < items.len() ==> reads(s, element_start(s, q, k as nat), #[trigger] items[k])
}

/// How reading a value fails.
pub enum Failure {
    /// A structural defect, reported as a parse error at this position.
    At(int),
    /// The text ends where a value is wanted.
    End,
    /// The value that is neither an array nor an object and starts at this
    /// position is malformed.
    Leaf(int),
    /// A quoted object key is malformed.
    Key,
}

/// Whether `e` is the error that the failure `f` is reported as.
pub open spec fn fails_as(s: Seq<char>, f: Failure, e: Error) -> bool {
    match f {
        Failure::At(p) => e is ParseError && e->position == p,
        Failure::End => e is UnexpectedEof,
        Failure::Key => e is ParseError,
        Failure::Leaf(j) => leaf_fails_as(s, j, e),
    }
}

/// Whether `e` is the error that reading the malformed value starting at
/// `j`, neither an array nor an object, gives: a parse error, but for a
/// number lexeme, which gives the error of its kind.
pub open spec fn leaf_fails_as(s: Seq<char>, j: int, e: Error) -> bool {
    let c = s[j];
    if c == '-' || is_digit(c) {
        match lexeme_end(s, j) {
            None => e is ParseError,
            Some(x) => if x < s.len() && s[x] == 'n' {
                e is InvalidBigInt
            } else if x < s.len() && s[x] == 'm' {
                e is InvalidDecimal128
            } else {
                e is InvalidNumber
            },
        }
    } else {
        e is ParseError
    }
}

/// How reading the value that starts after white space at `i` fails, where
/// it does.
pub open spec fn value_fail(s: Seq<char>, i: int) -> Failure
    decreases s.len() - i, 0nat,
{
    let j = ws_end(s, i);
    if i < 0 || j < i || j >= s.len() {
        Failure::End
    } else if s[j] == '[' {
        array_fail(s, j + 1)
    } else if s[j] == '{' {
        object_fail(s, j + 1)
    } else {
        Failure::Leaf(j)
    }
}

/// How reading the array whose `[` ends at `p` fails, where it does.
pub open spec fn array_fail(s: Seq<char>, p: int) -> Failure
    decreases s.len() - p, 2nat,
{
    let q = ws_end(s, p);
    if p < 0 || q < p || q > s.len() || (q < s.len() && s[q] == ']') {
        Failure::End
    } else {
        elements_fail(s, q)
    }
}

/// How reading the elements of an array from `p` on fails, where it does:
/// an element that fails, or a character other than `,` or `]` after one.
pub open spec fn elements_fail(s: Seq<char>, p: int) -> Failure
    decreases s.len() - p, 1nat,
{
    if p < 0 || p > s.len() {
        Failure::End
    } else {
        match value_end(s, p) {
            None => value_fail(s, p),
            Some(e) => {
                let q = ws_end(s, e);
                if e <= p || q < e || q > s.len() {
                    Failure::End
                } else if q < s.len() && s[q] == ',' {
                    let q2 = ws_end(s, q + 1);
                    if q2 < q + 1 || q2 > s.len() || (q2 < s.len() && s[q2] == ']') {
                        Failure::End
                    } else {
                        elements_fail(s, q2)
                    }
                } else if q < s.len() && s[q] == ']' {
                    Failure::End
                } else {
                    Failure::At(q)
                }
            },
        }
    }
}

/// How reading the object whose `{` ends at `p` fails, where it does.
pub open spec fn object_fail(s: Seq<char>, p: int) -> Failure
    decreases s.len() - p, 2nat,
{
    let q = ws_end(s, p);
    if p < 0 || q < p || q > s.len() || (q < s.len() && s[q] == '}') {
        Failure::End
    } else {
        members_fail(s, q)
    }
}

/// How reading the members of an object from `p` on fails, where it does:
/// a malformed key, a missing `:`, a value that fails, or a character other
/// than `,` or `}` after a value.
pub open spec fn members_fail(s: Seq<char>, p: int) -> Failure
    decreases s.len() - p, 1nat,
{
    let q = ws_end(s, p);
    if p < 0 || p > s.len() || q < p || q > s.len() {
        Failure::End
    } else if q < s.len() && is_quote(s[q]) && string_body(s, q + 1, s[q]) is None {
        Failure::Key
    } else if !(q < s.len() && (is_quote(s[q]) || key_start(s[q]))) {
        Failure::At(q)
    } else {
        let k = key_text_end(s, p)->0;
        let c = ws_end(s, k);
        if k <= p || c < k || c > s.len() {
            Failure::End
        } else if c >= s.len() || s[c] != ':' {
            Failure::At(c)
        } else {
            match value_end(s, c + 1) {
                None => value_fail(s, c + 1),
                Some(e) => {
                    let q3 = ws_end(s, e);
                    if e <= c + 1 || q3 < e || q3 > s.len() {
                        Failure::End
                    } else if q3 < s.len() && s[q3] == ',' {
                        let q4 = ws_end(s, q3 + 1);
                        if q4 < q3 + 1 || q4 > s.len() || (q4 < s.len() && s[q4] == '}') {
                            Failure::End
                        } else {
                            members_fail(s, q4)
                        }
                    } else if q3 < s.len() && s[q3] == '}' {
                        Failure::End
                    } else {
                        Failure::At(q3)
                    }
                },
            }
        }
    }
}

/// Relies on `char::from_u32`: the character with code `code`, where `code`
/// is a Unicode scalar value.
#[verifier::external_body]
fn char_from_code(code: u32) -> (r: Option<char>)
    ensures
        r is Some <==> is_scalar(code as nat),
        r is Some ==> has_code(r->0, code as nat) && r->0 == char_with_code(code as nat),
{
    char::from_u32(code)
}

/// Reads a big integer lexeme as a value.
fn big_value(lex: &str) -> (r: Result<Value, Error>)
    ensures
        r is Ok <==> is_plain_integer(strip_last(lex@, 'n')),
        r is Ok ==> r->Ok_0 is BigInt && r->Ok_0->BigInt_0.view_text() == int_text(
            plain_integer_value(strip_last(lex@, 'n')),
        ),
        r is Err ==> r->Err_0 is InvalidBigInt,
{
    match BigInt::from_str(lex) {
        Ok(b) => Ok(Value::BigInt(b)),
        Err(e) => Err(e),
    }
}

/// Reads a decimal lexeme as a value, whose text is the lexeme.
fn decimal_value(lex: &str) -> (r: Result<Value, Error>)
    ensures
        r is Ok <==> is_decimal_literal(lex@) && lex@.len() <= i64::MAX,
        r is Ok ==> r->Ok_0 is Decimal128 && crate::decimal::decimal_text(
            r->Ok_0->Decimal128_0.negative,
            r->Ok_0->Decimal128_0.digits@,
            r->Ok_0->Decimal128_0.exponent as int,
        ) == crate::decimal::decimal_body(lex@),
        r is Err ==> r->Err_0 is InvalidDecimal128,
{
    match Decimal128::from_str(lex) {
        Ok(d) => {
            proof {
                crate::decimal::lemma_decimal_round_trip(lex@, d);
            }
            Ok(Value::Decimal128(d))
        },
        Err(e) => Err(e),
    }
}

/// A reader of kJSON text, with its position counted in characters.
pub struct Parser {
    input: Vec<char>,
    position: usize,
}

/// Reads `input` as one kJSON value, with only white space and comments
/// around it.
pub fn parse(input: &str) -> (r: Result<Value, Error>)
    ensures
        parse_result(input@, r),
{
    let mut parser = Parser { input: chars_of(input), position: 0 };
    parser.skip_whitespace();
    proof {
        lemma_ws_end_idempotent(input@, 0);
        reveal_strlit("null");
        reveal_strlit("true");
        reveal_strlit("false");
    }
    let value = match parser.parse_value() {
        Ok(v) => v,
        Err(e) => {
            return Err(e);
        },
    };
    let ghost end = parser.position;
    parser.skip_whitespace();
    if parser.position < parser.input.len() {
        return Err(Error::ParseError { position: parser.position, message: "Unexpected characters after value".to_string() });
    }
    Ok(value)
}

impl Parser {
    /// The text being read.
    pub closed spec fn text(&self) -> Seq<char> {
        self.input@
    }

    /// The position reached, in characters.
    pub closed spec fn pos(&self) -> int {
        self.position as int
    }

    /// Whether the position lies within the text.
    pub closed spec fn wf(&self) -> bool {
        self.position <= self.input@.len()
    }

    /// The character at the position, if any is left.
    fn current(&self) -> (r: Option<char>)
        ensures
            r == (if self.position < self.input@.len() {
                Some(self.input@[self.position as int])
            } else {
                None
            }),
    {
        if self.position < self.input.len() {
            Some(self.input[self.position])
        } else {
            None
        }
    }

    /// The character at the position, without moving.
    fn peek(&self) -> (r: Option<char>)
        ensures
            r == (if self.position < self.input@.len() {
                Some(self.input@[self.position as int])
            } else {
                None
            }),
    {
        self.current()
    }

    /// Moves past one character, unless the text is used up.
    fn advance(&mut self)
        requires
            old(self).position <= old(self).input@.len(),
        ensures
            final(self).input == old(self).input,
            final(self).position == (if old(self).position < old(self).input@.len() {
                old(self).position + 1
            } else {
                old(self).position as int
            }),
    {
        if self.position < self.input.len() {
            self.position += 1;
        }
    }

    /// Moves past the rest of a line comment whose text starts at the position.
    fn skip_line_comment(&mut self)
        requires
            old(self).position <= old(self).input@.len(),
        ensures
            final(self).input == old(self).input,
            final(self).position == line_end(old(self).input@, old(self).position as int),
    {
        while self.position < self.input.len()
            invariant
                self.input == old(self).input,
                self.position <= self.input@.len(),
                line_end(self.input@, self.position as int) == line_end(
                    old(self).input@,
                    old(self).position as int,
                ),
            decreases self.input@.len() - self.position,
        {
            let c = self.input[self.position];
            self.position += 1;
            if c == '\n' {
                return;
            }
        }
    }

    /// Moves past the rest of a block comment whose text starts at the position.
    fn skip_block_comment(&mut self)
        requires
            old(self).position <= old(self).input@.len(),
        ensures
            final(self).input == old(self).input,
            final(self).position == block_end(old(self).input@, old(self).position as int, false),
    {
        let mut star = false;
        while self.position < self.input.len()
            invariant
                self.input == old(self).input,
                self.position <= self.input@.len(),
                block_end(self.input@, self.position as int, star) == block_end(
                    old(self).input@,
                    old(self).position as int,
                    false,
                ),
            decreases self.input@.len() - self.position,
        {
            let c = self.input[self.position];
            self.position += 1;
            if star && c == '/' {
                return;
            }
            star = c == '*';
        }
    }

    /// Moves past white space and comments.
    fn skip_whitespace(&mut self)
        requires
            old(self).position <= old(self).input@.len(),
        ensures
            final(self).input == old(self).input,
            final(self).position == ws_end(old(self).input@, old(self).position as int),
            old(self).position <= final(self).position <= final(self).input@.len(),
    {
        proof {
            lemma_ws_end_bounds(self.input@, self.position as int);
        }
        while self.position < self.input.len()
            invariant
                self.input == old(self).input,
                old(self).position <= self.position <= self.input@.len(),
                ws_end(self.input@, self.position as int) == ws_end(
                    old(self).input@,
                    old(self).position as int,
                ),
            decreases self.input@.len() - self.position,
        {
            let ch = self.input[self.position];
            if ch == ' ' || ch == '\t' || ch == '\n' || ch == '\r' {
                self.position += 1;
            } else if ch == '/' && self.position + 1 < self.input.len() {
                let next = self.input[self.position + 1];
                if next == '/' {
                    self.position += 2;
                    proof {
                        lemma_line_end_bounds(self.input@, self.position as int);
                    }
                    self.skip_line_comment();
                } else if next == '*' {
                    self.position += 2;
                    proof {
                        lemma_block_end_bounds(self.input@, self.position as int, false);
                    }
                    self.skip_block_comment();
                } else {
                    return;
                }
            } else {
                return;
            }
        }
    }

    /// Whether the text at the position starts with `word`.
    fn at_word(&self, word: &str) -> (r: bool)
        ensures
            r == (self.position + word@.len() <= self.input@.len() && self.input@.subrange(
                self.position as int,
                self.position + word@.len(),
            ) == word@),
    {
        let w = chars_of(word);
        let n = self.input.len();
        if w.len() > self.input.len() || self.position > self.input.len() - w.len() {
            return false;
        }
        let mut i: usize = 0;
        while i < w.len()
            invariant
                i <= w@.len(),
                w@ == word@,
                self.position + w@.len() <= self.input@.len(),
                n == self.input@.len(),
                self.input@.subrange(self.position as int, self.position + i) == w@.subrange(0, i as int),
            decreases w@.len() - i,
        {
            if self.input[self.position + i] != w[i] {
                assert(self.input@.subrange(self.position as int, self.position + w@.len())[i as int] != w@[i as int]);
                return false;
            }
            i += 1;
            assert(self.input@.subrange(self.position as int, self.position + i) == self.input@.subrange(self.position as int, self.position + i - 1).push(self.input@[self.position + i - 1]));
            assert(w@.subrange(0, i as int) == w@.subrange(0, i - 1).push(w@[i - 1]));
        }
        assert(w@.subrange(0, w@.len() as int) == w@);
        true
    }

    /// Reads the keyword `null`.
    fn parse_null(&mut self) -> (r: Result<Value, Error>)
        requires
            old(self).position <= old(self).input@.len(),
        ensures
            final(self).input == old(self).input,
            final(self).position <= final(self).input@.len(),
            r is Ok <==> old(self).position + 4 <= old(self).input@.len() && old(self).input@.subrange(
                old(self).position as int,
                old(self).position + 4,
            ) == "null"@,
            r is Ok ==> r->Ok_0 is Null && final(self).position == old(self).position + 4,
            r is Err ==> r->Err_0 is ParseError && final(self).position == old(self).position,
    {
        let n = self.input.len();
        if self.at_word("null") {
            proof {
                reveal_strlit("null");
            }
            self.position += 4;
            Ok(Value::Null)
        } else {
            proof {
                reveal_strlit("null");
            }
            Err(Error::ParseError { position: self.position, message: "Invalid null value".to_string() })
        }
    }

    /// Reads the keyword `true` or `false`.
    fn parse_bool(&mut self) -> (r: Result<Value, Error>)
        requires
            old(self).position <= old(self).input@.len(),
        ensures
            final(self).input == old(self).input,
            final(self).position <= final(self).input@.len(),
            bool_result(old(self).input@, old(self).position as int, r, final(self).position as int),
            r is Err ==> final(self).position == old(self).position,
            r is Ok ==> final(self).position > old(self).position,
    {
        proof {
            reveal_strlit("true");
            reveal_strlit("false");
        }
        let n = self.input.len();
        if self.at_word("true") {
            self.position += 4;
            Ok(Value::Bool(true))
        } else if self.at_word("false") {
            self.position += 5;
            Ok(Value::Bool(false))
        } else {
            Err(Error::ParseError { position: self.position, message: "Invalid boolean value".to_string() })
        }
    }

    /// The value of the four hexadecimal digits at `i`, if they are all
    /// hexadecimal digits.
    fn hex4(&self, i: usize) -> (r: Option<u32>)
        requires
            i + 4 <= self.input@.len(),
        ensures
            r is Some <==> all_hex(self.input@.subrange(i as int, i + 4)),
            r is Some ==> r->0 as nat == hex_digits_value(self.input@.subrange(i as int, i + 4)),
    {
        let ghost h = self.input@.subrange(i as int, i + 4);
        let n = self.input.len();
        let mut acc: u32 = 0;
        let mut k: usize = 0;
        while k < 4
            invariant
                k <= 4,
                i + 4 <= self.input@.len(),
                n == self.input@.len(),
                h == self.input@.subrange(i as int, i + 4),
                all_hex(h.subrange(0, k as int)),
                acc as nat == hex_digits_value(h.subrange(0, k as int)),
                acc < 0x1_0000,
                k < 4 ==> acc < 0x1000,
                k < 3 ==> acc < 0x100,
                k < 2 ==> acc < 0x10,
                k < 1 ==> acc == 0,
            decreases 4 - k,
        {
            let c = self.input[i + k];
            assert(h[k as int] == c);
            let d: u32 = if '0' <= c && c <= '9' {
                (c as u32) - ('0' as u32)
            } else if 'a' <= c && c <= 'f' {
                (c as u32) - ('a' as u32) + 10
            } else if 'A' <= c && c <= 'F' {
                (c as u32) - ('A' as u32) + 10
            } else {
                assert(!all_hex(h));
                return None;
            };
            assert(h.subrange(0, k + 1).drop_last() == h.subrange(0, k as int));
            acc = acc * 16 + d;
            k += 1;
        }
        assert(h.subrange(0, 4) == h);
        Some(acc)
    }

    /// Reads a string literal at the position, quoted with `"`, `'` or `` ` ``,
    /// decoding its escapes.
    fn read_string(&mut self) -> (r: Result<String, Error>)
        requires
            old(self).position < old(self).input@.len(),
            is_quote(old(self).input@[old(self).position as int]),
        ensures
            final(self).input == old(self).input,
            old(self).position < final(self).position <= final(self).input@.len(),
            match string_body(
                old(self).input@,
                old(self).position + 1,
                old(self).input@[old(self).position as int],
            ) {
                Some((t, e)) => r is Ok && r->Ok_0@ == t && final(self).position == e,
                None => r is Err && r->Err_0 is ParseError,
            },
    {
        let ghost s = self.input@;
        let n = self.input.len();
        let q = self.input[self.position];
        self.position += 1;
        let ghost start = self.position as int;
        let mut out: Vec<char> = Vec::new();
        while self.position < self.input.len()
            invariant
                self.input == old(self).input,
                s == self.input@,
                q == s[old(self).position as int],
                is_quote(q),
                start <= self.position <= s.len(),
                n == s.len(),
                start == old(self).position + 1,
                string_body(s, start, q) == match string_body(s, self.position as int, q) {
                    Some((rest, e)) => Some((out@ + rest, e)),
                    None => None,
                },
            decreases s.len() - self.position,
        {
            let p = self.position;
            let ch = self.input[p];
            if ch == '\\' {
                if p + 1 >= self.input.len() {
                    self.position = self.input.len();
                    return Err(Error::ParseError { position: self.position, message: "Unterminated string".to_string() });
                }
                let e = self.input[p + 1];
                if e == 'u' {
                    if self.input.len() - p < 6 {
                        self.position = self.input.len();
                        return Err(Error::ParseError { position: self.position, message: "Invalid unicode escape".to_string() });
                    }
                    let code = match self.hex4(p + 2) {
                        Some(c) => c,
                        None => {
                            self.position = p + 6;
                            return Err(Error::ParseError { position: self.position, message: "Invalid unicode escape".to_string() });
                        },
                    };
                    match char_from_code(code) {
                        Some(c) => {
                            proof {
                            }
                            let ghost before = out@;
                            out.push(c);
                            self.position = p + 6;
                            proof {
                                match string_body(s, self.position as int, q) {
                                    Some((rest, en)) => {
                                        assert(out@ + rest =~= before + (seq![c] + rest));
                                    },
                                    None => {},
                                }
                            }
                        },
                        None => {
                            self.position = p + 6;
                            return Err(Error::ParseError { position: self.position, message: "Invalid unicode code point".to_string() });
                        },
                    }
                } else {
                    let decoded = if e == '"' || e == '\'' || e == '`' || e == '\\' || e == '/' {
                        e
                    } else if e == 'b' {
                        '\x08'
                    } else if e == 'f' {
                        '\x0c'
                    } else if e == 'n' {
                        '\n'
                    } else if e == 'r' {
                        '\r'
                    } else if e == 't' {
                        '\t'
                    } else {
                        self.position = p + 1;
                        return Err(Error::ParseError { position: self.position, message: "Invalid escape sequence".to_string() });
                    };
                    let ghost before = out@;
                    out.push(decoded);
                    self.position = p + 2;
                    proof {
                        match string_body(s, self.position as int, q) {
                            Some((rest, en)) => {
                                assert(out@ + rest =~= before + (seq![decoded] + rest));
                            },
                            None => {},
                        }
                    }
                }
            } else if ch == q {
                self.position = p + 1;
                proof {
                    assert(out@ + Seq::<char>::empty() =~= out@);
                }
                return Ok(string_of(&out));
            } else {
                let ghost before = out@;
                out.push(ch);
                self.position = p + 1;
                proof {
                    match string_body(s, self.position as int, q) {
                        Some((rest, en)) => {
                            assert(out@ + rest =~= before + (seq![ch] + rest));
                        },
                        None => {},
                    }
                }
            }
        }
        Err(Error::ParseError { position: self.position, message: "Unterminated string".to_string() })
    }

    /// Reads a string literal as a value.
    fn parse_string(&mut self) -> (r: Result<Value, Error>)
        requires
            old(self).position <= old(self).input@.len(),
        ensures
            final(self).input == old(self).input,
            old(self).position <= final(self).position <= final(self).input@.len(),
            r is Ok ==> final(self).position > old(self).position,
            old(self).position < old(self).input@.len() && is_quote(old(self).input@[old(self).position as int]) ==>
            match string_body(
                old(self).input@,
                old(self).position + 1,
                old(self).input@[old(self).position as int],
            ) {
                Some((t, e)) => r is Ok && r->Ok_0 is String && r->Ok_0->String_0@ == t
                    && final(self).position == e,
                None => r is Err && r->Err_0 is ParseError,
            },
            !(old(self).position < old(self).input@.len() && is_quote(old(self).input@[old(self).position as int]))
                ==> r is Err && r->Err_0 is ParseError,
    {
        if self.position < self.input.len() {
            let c = self.input[self.position];
            if c == '"' || c == '\'' || c == '`' {
                return match self.read_string() {
                    Ok(t) => Ok(Value::String(t)),
                    Err(e) => Err(e),
                };
            }
        }
        Err(Error::ParseError { position: self.position, message: "Expected quote character".to_string() })
    }

    /// Reads a bare object key: a letter, `_` or `$`, then letters, digits,
    /// `_` and `$`.
    fn parse_unquoted_key(&mut self) -> (r: Result<String, Error>)
        requires
            old(self).position <= old(self).input@.len(),
        ensures
            final(self).input == old(self).input,
            old(self).position <= final(self).position <= final(self).input@.len(),
            r is Ok ==> final(self).position > old(self).position,
            ({
                let s = old(self).input@;
                let p = old(self).position as int;
                if p < s.len() && key_start(s[p]) {
                    r is Ok && r->Ok_0@ == s.subrange(p, key_end(s, p + 1)) && final(self).position
                        == key_end(s, p + 1)
                } else {
                    r is Err && r->Err_0 is ParseError && r->Err_0->position == p && final(self).position == p
                }
            }),
    {
        let start = self.position;
        if self.position < self.input.len() {
            let c = self.input[self.position];
            if char_is_alphabetic(c) || c == '_' || c == '$' {
                self.position += 1;
                while self.position < self.input.len()
                    invariant
                        self.input == old(self).input,
                        start < self.position <= self.input@.len(),
                        key_end(self.input@, self.position as int) == key_end(self.input@, start + 1),
                    ensures
                        self.input == old(self).input,
                        start < self.position <= self.input@.len(),
                        self.position == key_end(self.input@, start + 1),
                    decreases self.input@.len() - self.position,
                {
                    let ch = self.input[self.position];
                    if char_is_alphanumeric(ch) || ch == '_' || ch == '$' {
                        self.position += 1;
                    } else {
                        break;
                    }
                }
                let k = slice_chars(&self.input, start, self.position);
                return Ok(string_of(&k));
            }
        }
        Err(Error::ParseError { position: self.position, message: "Invalid unquoted key".to_string() })
    }

    /// Reads a number at the position: an optional `-`, an integer part, an
    /// optional fraction and exponent, then an `n` suffix for a big integer,
    /// an `m` suffix for a decimal, or none for a plain number.
    #[verifier::rlimit(100)]
    #[verifier::spinoff_prover]
    fn parse_number(&mut self) -> (r: Result<Value, Error>)
        requires
            old(self).position <= old(self).input@.len(),
        ensures
            final(self).input == old(self).input,
            old(self).position <= final(self).position <= final(self).input@.len(),
            r is Ok ==> final(self).position > old(self).position,
            number_result(old(self).input@, old(self).position as int, r, final(self).position as int),
    {
        let ghost s = self.input@;
        let n = self.input.len();
        let start = self.position;
        let mut p = start;
        let negative = p < n && self.input[p] == '-';
        if negative {
            p += 1;
        }
        let int_start = p;
        if p < n && self.input[p] == '0' {
            p += 1;
        } else {
            p = scan_digits(&self.input, p);
        }
        let int_stop = p;
        let mut frac_start = p;
        let mut frac_stop = p;
        if p < n && self.input[p] == '.' {
            let f = scan_digits(&self.input, p + 1);
            if f == p + 1 {
                self.position = f;
                return Err(Error::ParseError { position: self.position, message: "Expected digits after decimal point".to_string() });
            }
            frac_start = p + 1;
            frac_stop = f;
            p = f;
        }
        let mant_stop = p;
        let mut exp_negative = false;
        let mut exp_value: u64 = 0;
        let mut has_exp = false;
        if p < n && (self.input[p] == 'e' || self.input[p] == 'E') {
            let mut q = p + 1;
            if q < n && (self.input[q] == '+' || self.input[q] == '-') {
                exp_negative = self.input[q] == '-';
                q += 1;
            }
            let e = scan_digits(&self.input, q);
            if e == q {
                self.position = e;
                return Err(Error::ParseError { position: self.position, message: "Expected digits in exponent".to_string() });
            }
            has_exp = true;
            match digits_to_u64(&self.input, q, e) {
                Some(v) => {
                    exp_value = v;
                },
                None => {
                    exp_value = u64::MAX;
                },
            }
            p = e;
        }
        let lex = slice_chars(&self.input, start, p);
        let lex_text = string_of(&lex);
        if p < n && self.input[p] == 'n' {
            self.position = p + 1;
            return big_value(lex_text.as_str());
        }
        if p < n && self.input[p] == 'm' {
            self.position = p + 1;
            return decimal_value(lex_text.as_str());
        }
        self.position = p;
        if int_stop == int_start && frac_stop == frac_start {
            return Err(Error::InvalidNumber(lex_text));
        }
        let frac_len = frac_stop - frac_start;
        if exp_value > 0x3fff_ffff_ffff_ffff || frac_len as u64 > 0x3fff_ffff_ffff_ffff {
            return Err(Error::InvalidNumber(lex_text));
        }
        let scale: i64 = if exp_negative { -(exp_value as i64) } else { exp_value as i64 };
        let mut digits = slice_chars(&self.input, int_start, int_stop);
        let fd = slice_chars(&self.input, frac_start, frac_stop);
        extend_chars(&mut digits, &fd);
        Ok(Value::Number(Number { negative, digits: string_of(&digits), exponent: scale - frac_len as i64 }))
    }

    /// Reads an unquoted literal, up to white space, `,`, `]` or `}`, as a
    /// UUID or else as a timestamp.
    fn parse_unquoted_literal(&mut self) -> (r: Result<Value, Error>)
        requires
            old(self).position <= old(self).input@.len(),
        ensures
            final(self).input == old(self).input,
            old(self).position <= final(self).position,
            r is Ok ==> final(self).position > old(self).position,
            final(self).position == literal_end(old(self).input@, old(self).position as int),
            final(self).position <= final(self).input@.len(),
            r is Ok <==> literal_value(old(self).input@, old(self).position as int) is Some,
            r is Ok ==> r->Ok_0 == literal_value(old(self).input@, old(self).position as int)->0,
            r is Err ==> r->Err_0 is ParseError,
    {
        let start = self.position;
        while self.position < self.input.len()
            invariant
                self.input == old(self).input,
                start <= self.position <= self.input@.len(),
                literal_end(self.input@, self.position as int) == literal_end(self.input@, start as int),
            ensures
                self.input == old(self).input,
                start <= self.position <= self.input@.len(),
                self.position == literal_end(self.input@, start as int),
            decreases self.input@.len() - self.position,
        {
            let ch = self.input[self.position];
            if ch == ' ' || ch == '\t' || ch == '\n' || ch == '\r' || ch == ',' || ch == ']' || ch == '}' {
                break;
            }
            self.position += 1;
        }
        if self.position == start {
            return Err(Error::ParseError { position: start, message: "Invalid literal".to_string() });
        }
        let run = slice_chars(&self.input, start, self.position);
        let literal = string_of(&run);
        match Uuid::parse_str(literal.as_str()) {
            Some(u) => {
                return Ok(Value::Uuid(u));
            },
            None => {},
        }
        match Date::from_iso8601(literal.as_str()) {
            Ok(d) => Ok(Value::Date(d)),
            Err(_) => Err(Error::ParseError { position: start, message: "Invalid literal".to_string() }),
        }
    }

    /// Reads an unquoted literal where there is one; otherwise leaves the
    /// position where it was.
    fn try_parse_unquoted_literal(&mut self) -> (r: Result<Value, Error>)
        requires
            old(self).position <= old(self).input@.len(),
        ensures
            final(self).input == old(self).input,
            old(self).position <= final(self).position,
            r is Ok ==> final(self).position > old(self).position,
            final(self).position <= final(self).input@.len(),
            r is Ok <==> literal_value(old(self).input@, old(self).position as int) is Some,
            r is Ok ==> r->Ok_0 == literal_value(old(self).input@, old(self).position as int)->0
                && final(self).position == literal_end(old(self).input@, old(self).position as int),
            r is Err ==> r->Err_0 is ParseError && final(self).position == old(self).position,
    {
        let saved = self.position;
        match self.parse_unquoted_literal() {
            Ok(v) => Ok(v),
            Err(_) => {
                self.position = saved;
                Err(Error::ParseError { position: self.position, message: "Not a valid literal".to_string() })
            },
        }
    }

    /// Reads an array: `[`, values separated by `,` with one optional
    /// trailing `,`, and `]`.
    fn parse_array(&mut self) -> (r: Result<Value, Error>)
        requires
            old(self).position < old(self).input@.len(),
            old(self).input@[old(self).position as int] == '[',
        ensures
            final(self).input == old(self).input,
            old(self).position <= final(self).position <= final(self).input@.len(),
            r is Ok ==> r->Ok_0 is Array && value_wf(r->Ok_0) && final(self).position > old(self).position,
            r is Ok <==> array_end(old(self).input@, old(self).position + 1) is Some,
            r is Ok ==> array_items_read(old(self).input@, old(self).position + 1, r->Ok_0->Array_0@),
            r is Err ==> fails_as(old(self).input@, array_fail(old(self).input@, old(self).position + 1), r->Err_0),
            r is Ok ==> final(self).position == array_end(old(self).input@, old(self).position + 1)->0,
        decreases old(self).input@.len() - old(self).position, 0nat,
    {
        let ghost s = self.input@;
        let ghost p0 = self.position + 1;
        let n = self.input.len();
        self.advance();
        let mut items: Vec<Value> = Vec::new();
        self.skip_whitespace();
        let ghost q0 = self.position as int;
        if self.position < self.input.len() && self.input[self.position] == ']' {
            self.position += 1;
            return Ok(Value::Array(items));
        }
        loop
            invariant_except_break
                array_end(s, p0) == elements_end(s, self.position as int),
                array_fail(s, p0) == elements_fail(s, self.position as int),
                self.position == element_start(s, q0, items@.len()),
                element_count(s, q0) == items@.len() + element_count(s, self.position as int),
            invariant
                self.input == old(self).input,
                s == self.input@,
                p0 == old(self).position + 1,
                q0 == ws_end(s, p0),
                !(q0 < s.len() && s[q0] == ']'),
                old(self).position < self.position <= self.input@.len(),
                items_wf(items@),
                forall|k: int| 0 <= k < items@.len() ==> reads(s, element_start(s, q0, k as nat), #[trigger] items@[k]),
            ensures
                self.input == old(self).input,
                old(self).position < self.position <= self.input@.len(),
                items_wf(items@),
                array_end(s, p0) == Some(self.position as int),
                element_count(s, q0) == items@.len(),
                forall|k: int| 0 <= k < items@.len() ==> reads(s, element_start(s, q0, k as nat), #[trigger] items@[k]),
            decreases self.input@.len() - self.position,
        {
            let v = match self.parse_value() {
                Ok(v) => v,
                Err(e) => {
                    return Err(e);
                },
            };
            let ghost before = items@;
            items.push(v);
            assert(items@.drop_last() == before);
            self.skip_whitespace();
            if self.position < self.input.len() && self.input[self.position] == ',' {
                self.position += 1;
                self.skip_whitespace();
                if self.position < self.input.len() && self.input[self.position] == ']' {
                    self.position += 1;
                    break;
                }
            } else if self.position < self.input.len() && self.input[self.position] == ']' {
                self.position += 1;
                break;
            } else {
                return Err(Error::ParseError { position: self.position, message: "Expected ',' or ']'".to_string() });
            }
        }
        Ok(Value::Array(items))
    }

    /// Reads an object: `{`, `key: value` pairs separated by `,` with one
    /// optional trailing `,`, and `}`; a later value for a key replaces an
    /// earlier one.
    #[verifier::rlimit(100)]
    #[verifier::spinoff_prover]
    fn parse_object(&mut self) -> (r: Result<Value, Error>)
        requires
            old(self).position < old(self).input@.len(),
            old(self).input@[old(self).position as int] == '{',
        ensures
            final(self).input == old(self).input,
            old(self).position <= final(self).position <= final(self).input@.len(),
            r is Ok ==> r->Ok_0 is Object && value_wf(r->Ok_0) && final(self).position > old(self).position,
            r is Ok <==> object_end(old(self).input@, old(self).position + 1) is Some,
            r is Ok ==> final(self).position == object_end(old(self).input@, old(self).position + 1)->0,
            r is Ok ==> object_members_read(old(self).input@, old(self).position + 1, r->Ok_0->Object_0),
            r is Err ==> fails_as(old(self).input@, object_fail(old(self).input@, old(self).position + 1), r->Err_0),
        decreases old(self).input@.len() - old(self).position, 0nat,
    {
        let ghost s = self.input@;
        let ghost p0 = self.position + 1;
        let n = self.input.len();
        self.advance();
        let mut map = Object::new();
        self.skip_whitespace();
        let ghost q0 = self.position as int;
        let ghost mut km: nat = 0;
        if self.position < self.input.len() && self.input[self.position] == '}' {
            self.position += 1;
            return Ok(Value::Object(map));
        }
        loop
            invariant_except_break
                object_end(s, p0) == members_end(s, self.position as int),
                object_fail(s, p0) == members_fail(s, self.position as int),
                self.position == member_start(s, q0, km),
                member_count(s, q0) == km + member_count(s, self.position as int),
            invariant
                self.input == old(self).input,
                s == self.input@,
                p0 == old(self).position + 1,
                q0 == ws_end(s, p0),
                !(q0 < s.len() && s[q0] == '}'),
                old(self).position < self.position <= self.input@.len(),
                map.wf(),
                entries_wf(map.entries@),
                forall|k: nat| k < km ==> has_key(map.entries@, #[trigger] member_key(s, member_start(s, q0, k))),
                forall|i: int|
                    0 <= i < map.entries@.len() ==> exists|k: nat|
                        k < km && member_key(s, #[trigger] member_start(s, q0, k)) == map.entries@[i].key@
                            && last_with_key(s, q0, km, k) && reads(
                            s,
                            member_value_start(s, member_start(s, q0, k)),
                            #[trigger] map.entries@[i].value,
                        ),
            ensures
                self.input == old(self).input,
                old(self).position < self.position <= self.input@.len(),
                map.wf(),
                entries_wf(map.entries@),
                object_end(s, p0) == Some(self.position as int),
                km == member_count(s, q0),
                forall|k: nat| k < km ==> has_key(map.entries@, #[trigger] member_key(s, member_start(s, q0, k))),
                forall|i: int|
                    0 <= i < map.entries@.len() ==> exists|k: nat|
                        k < km && member_key(s, #[trigger] member_start(s, q0, k)) == map.entries@[i].key@
                            && last_with_key(s, q0, km, k) && reads(
                            s,
                            member_value_start(s, member_start(s, q0, k)),
                            #[trigger] map.entries@[i].value,
                        ),
            decreases self.input@.len() - self.position,
        {
            let ghost pm = self.position as int;
            self.skip_whitespace();
            let quoted = self.position < self.input.len() && (self.input[self.position] == '"'
                || self.input[self.position] == '\'' || self.input[self.position] == '`');
            let key = if quoted {
                match self.read_string() {
                    Ok(k) => k,
                    Err(e) => {
                        return Err(e);
                    },
                }
            } else {
                match self.parse_unquoted_key() {
                    Ok(k) => k,
                    Err(e) => {
                        return Err(e);
                    },
                }
            };
            self.skip_whitespace();
            if !(self.position < self.input.len() && self.input[self.position] == ':') {
                return Err(Error::ParseError { position: self.position, message: "Expected ':' after key".to_string() });
            }
            self.position += 1;
            let value = match self.parse_value() {
                Ok(v) => v,
                Err(e) => {
                    return Err(e);
                },
            };
            let ghost vv = value;
            let ghost kk = key@;
            let ghost before = map.entries@;
            proof {
                lemma_entries_wf_forall(before);
                assert(kk == member_key(s, pm));
                assert(pm == member_start(s, q0, km));
            }
            map.insert(key, value);
            proof {
                lemma_members_step(s, q0, km, before, map.entries@, kk, vv);
                km = km + 1;
            }
            proof {
                let after = map.entries@;
                assert forall|j: int| 0 <= j < after.len() implies value_wf(#[trigger] after[j].value) by {
                    if after[j].key@ == kk {
                    } else {
                        assert(before.contains(after[j]));
                        let i = choose|i: int| 0 <= i < before.len() && before[i] == after[j];
                        assert(value_wf(before[i].value));
                    }
                }
                lemma_entries_wf_forall(after);
            }
            self.skip_whitespace();
            if self.position < self.input.len() && self.input[self.position] == ',' {
                self.position += 1;
                self.skip_whitespace();
                if self.position < self.input.len() && self.input[self.position] == '}' {
                    self.position += 1;
                    break;
                }
            } else if self.position < self.input.len() && self.input[self.position] == '}' {
                self.position += 1;
                break;
            } else {
                return Err(Error::ParseError { position: self.position, message: "Expected ',' or '}'".to_string() });
            }
        }
        Ok(Value::Object(map))
    }

    /// Reads one value, after white space and comments. A value that starts
    /// with a digit, `-`, `t` or `f` is first tried as a UUID or a timestamp,
    /// and read as a number or a keyword only where it is neither.
    fn parse_value(&mut self) -> (r: Result<Value, Error>)
        requires
            old(self).position <= old(self).input@.len(),
        ensures
            final(self).input == old(self).input,
            old(self).position <= final(self).position <= final(self).input@.len(),
            r is Ok ==> value_wf(r->Ok_0) && final(self).position > old(self).position,
            r is Ok <==> value_end(old(self).input@, old(self).position as int) is Some,
            r is Ok ==> reads(old(self).input@, old(self).position as int, r->Ok_0),
            r is Err ==> fails_as(old(self).input@, value_fail(old(self).input@, old(self).position as int), r->Err_0),
            r is Ok ==> final(self).position == value_end(old(self).input@, old(self).position as int)->0,
            ({
                let s = old(self).input@;
                let j = ws_end(s, old(self).position as int);
                &&& j >= s.len() ==> r is Err && r->Err_0 is UnexpectedEof
                &&& j < s.len() && s[j] == 'n' ==> (r is Ok <==> j + 4 <= s.len() && s.subrange(j, j + 4) == "null"@)
                    && (r is Ok ==> r->Ok_0 is Null && final(self).position == j + 4)
                &&& j < s.len() && is_quote(s[j]) ==> match string_body(s, j + 1, s[j]) {
                    Some((t, e)) => r is Ok && r->Ok_0 is String && r->Ok_0->String_0@ == t
                        && final(self).position == e,
                    None => r is Err && r->Err_0 is ParseError,
                }
                &&& j < s.len() && literal_first(s[j]) && literal_value(s, j) is Some ==> r is Ok
                    && r->Ok_0 == literal_value(s, j)->0 && final(self).position == literal_end(s, j)
                &&& j < s.len() && (s[j] == '-' || is_digit(s[j])) && literal_value(s, j) is None
                    ==> number_result(s, j, r, final(self).position as int)
                &&& j < s.len() && (s[j] == 't' || s[j] == 'f') && literal_value(s, j) is None
                    ==> bool_result(s, j, r, final(self).position as int)
                &&& j < s.len() && s[j] == '[' ==> (r is Ok ==> r->Ok_0 is Array)
                &&& j < s.len() && s[j] == '{' ==> (r is Ok ==> r->Ok_0 is Object)
                &&& j < s.len() && !literal_first(s[j]) && !is_quote(s[j]) && s[j] != 'n' && s[j]
                    != '[' && s[j] != '{' ==> (r is Ok <==> literal_value(s, j) is Some) && (r is Ok
                    ==> r->Ok_0 == literal_value(s, j)->0 && final(self).position == literal_end(s, j))
            }),
        decreases old(self).input@.len() - old(self).position, 1nat,
    {
        proof {
            lemma_ws_end_bounds(self.input@, self.position as int);
        }
        self.skip_whitespace();
        proof {
            reveal_strlit("null");
            lemma_literal_end_bounds(self.input@, self.position as int);
        }
        let ghost j = self.position;
        match self.peek() {
            None => Err(Error::UnexpectedEof),
            Some(c) => {
                if c == 'n' {
                    self.parse_null()
                } else if c == 't' || c == 'f' {
                    match self.try_parse_unquoted_literal() {
                        Ok(v) => Ok(v),
                        Err(_) => self.parse_bool(),
                    }
                } else if c == '"' || c == '\'' || c == '`' {
                    self.parse_string()
                } else if c == '[' {
                    self.parse_array()
                } else if c == '{' {
                    self.parse_object()
                } else if c == '-' || char_is_digit(c) {
                    match self.try_parse_unquoted_literal() {
                        Ok(v) => Ok(v),
                        Err(_) => self.parse_number(),
                    }
                } else {
                    self.parse_unquoted_literal()
                }
            },
        }
    }
}

/// What the members read so far give, after one more member with key `kk`
/// and value `vv` is inserted into the object.
proof fn lemma_members_step(
    s: Seq<char>,
    q0: int,
    km: nat,
    before: Seq<Entry>,
    after: Seq<Entry>,
    kk: Seq<char>,
    vv: Value,
)
    requires
        member_key(s, member_start(s, q0, km)) == kk,
        reads(s, member_value_start(s, member_start(s, q0, km)), vv),
        forall|k: nat| k < km ==> has_key(before, #[trigger] member_key(s, member_start(s, q0, k))),
        forall|i: int|
            0 <= i < before.len() ==> exists|k: nat|
                k < km && member_key(s, #[trigger] member_start(s, q0, k)) == before[i].key@
                    && last_with_key(s, q0, km, k) && reads(
                    s,
                    member_value_start(s, member_start(s, q0, k)),
                    #[trigger] before[i].value,
                ),
        has_key(after, kk),
        forall|j: int| 0 <= j < after.len() && #[trigger] after[j].key@ == kk ==> after[j].value == vv,
        forall|j: int| 0 <= j < after.len() && #[trigger] after[j].key@ != kk ==> before.contains(after[j]),
        forall|i: int| 0 <= i < before.len() && #[trigger] before[i].key@ != kk ==> after.contains(before[i]),
    ensures
        forall|k: nat| k < km + 1 ==> has_key(after, #[trigger] member_key(s, member_start(s, q0, k))),
        forall|i: int|
            0 <= i < after.len() ==> exists|k: nat|
                k < km + 1 && member_key(s, #[trigger] member_start(s, q0, k)) == after[i].key@
                    && last_with_key(s, q0, km + 1, k) && reads(
                    s,
                    member_value_start(s, member_start(s, q0, k)),
                    #[trigger] after[i].value,
                ),
{
    let km1 = km + 1;
    assert forall|k: nat| k < km1 implies has_key(after, #[trigger] member_key(s, member_start(s, q0, k))) by {
        if k < km {
            let kx = member_key(s, member_start(s, q0, k));
            assert(has_key(before, kx));
            let i = choose|i: int| 0 <= i < before.len() && #[trigger] before[i].key@ == kx;
            if kx != kk {
                assert(after.contains(before[i]));
                let j = choose|j: int| 0 <= j < after.len() && after[j] == before[i];
                assert(after[j].key@ == kx);
            }
        }
    }
    assert forall|i: int| 0 <= i < after.len() implies exists|k: nat|
        k < km1 && member_key(s, #[trigger] member_start(s, q0, k)) == after[i].key@
            && last_with_key(s, q0, km1, k) && reads(
            s,
            member_value_start(s, member_start(s, q0, k)),
            #[trigger] after[i].value,
        ) by {
        if after[i].key@ == kk {
            assert(after[i].value == vv);
            assert(last_with_key(s, q0, km1, km));
        } else {
            assert(before.contains(after[i]));
            let j = choose|j: int| 0 <= j < before.len() && before[j] == after[i];
            let k = choose|k: nat|
                k < km && member_key(s, #[trigger] member_start(s, q0, k)) == before[j].key@
                    && last_with_key(s, q0, km, k) && reads(
                    s,
                    member_value_start(s, member_start(s, q0, k)),
                    #[trigger] before[j].value,
                );
            assert(last_with_key(s, q0, km1, k)) by {
                assert forall|m: nat| k < m < km1 implies member_key(s, #[trigger] member_start(s, q0, m))
                    != member_key(s, member_start(s, q0, k)) by {
                    if m < km {
                        assert(last_with_key(s, q0, km, k));
                    }
                }
            }
        }
    }
}

/// The values of `s` are all well formed exactly where each one is.
proof fn lemma_entries_wf_forall(s: Seq<Entry>)
    ensures
        entries_wf(s) <==> forall|i: int| 0 <= i < s.len() ==> value_wf(#[trigger] s[i].value),
    decreases s.len(),
{
    if s.len() > 0 {
        lemma_entries_wf_forall(s.drop_last());
        assert forall|i: int| 0 <= i < s.len() - 1 implies s.drop_last()[i] == s[i] by {}
        if forall|i: int| 0 <= i < s.len() ==> value_wf(#[trigger] s[i].value) {
            assert forall|i: int| 0 <= i < s.drop_last().len() implies value_wf(#[trigger] s.drop_last()[i].value) by {
                assert(s.drop_last()[i] == s[i]);
            }
        }
        if entries_wf(s) {
            assert forall|i: int| 0 <= i < s.len() implies value_wf(#[trigger] s[i].value) by {
                if i < s.len() - 1 {
                    assert(s.drop_last()[i] == s[i]);
                }
            }
        }
    }
}

} // verus!
