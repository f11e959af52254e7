//! Writing values as canonical kJSON text.
use vstd::prelude::*;
use crate::bigint::BigInt;
use crate::decimal::decimal_text;
use crate::error::Error;
use crate::guid::{fixed_hex, uuid_text};
use crate::number::number_text;
use crate::text::{
    char_is_alphabetic, char_is_alphanumeric, chars_of, extend_chars, is_bare_key, key_rest,
    string_of,
};
use crate::time::date_text;
use crate::value::{value_wf, Entry, Object, Value};

verus! {

/// Whether `c` is a control character (general category `Cc`).
pub open spec fn is_control(c: char) -> bool {
    (c as u32) <= 0x1f || (0x7f <= (c as u32) && (c as u32) <= 0x9f)
}

/// How many times `c` occurs in `s`.
pub open spec fn count_char(s: Seq<char>, c: char) -> nat
    decreases s.len(),
{
    if s.len() == 0 {
        0
    } else {
        count_char(s.drop_last(), c) + if s.last() == c {
            1nat
        } else {
            0nat
        }
    }
}

/// The quote that costs the fewest escapes for `s`: each quote costs its own
/// occurrences plus the backslashes; ties go to `'`, then `"`, then `` ` ``.
pub open spec fn quote_for(s: Seq<char>) -> char {
    let b = count_char(s, '\\');
    let single = count_char(s, '\'') + b;
    let double = count_char(s, '"') + b;
    let back = count_char(s, '`') + b;
    if double < single {
        if back < double {
            '`'
        } else {
            '"'
        }
    } else if back < single {
        '`'
    } else {
        '\''
    }
}

/// How `c` is written inside a string quoted with `q`.
pub open spec fn escape_char(c: char, q: char) -> Seq<char> {
    if c == '\\' {
        seq!['\\', '\\']
    } else if c == '\x08' {
        seq!['\\', 'b']
    } else if c == '\x0c' {
        seq!['\\', 'f']
    } else if c == '\n' {
        seq!['\\', 'n']
    } else if c == '\r' {
        seq!['\\', 'r']
    } else if c == '\t' {
        seq!['\\', 't']
    } else if is_control(c) {
        seq!['\\', 'u'] + fixed_hex(c as nat, 4)
    } else if c == q {
        seq!['\\', q]
    } else {
        seq![c]
    }
}

/// The characters of `s` escaped for quotes `q`.
pub open spec fn escaped(s: Seq<char>, q: char) -> Seq<char>
    decreases s.len(),
{
    if s.len() == 0 {
        Seq::empty()
    } else {
        escaped(s.drop_last(), q) + escape_char(s.last(), q)
    }
}

/// `s` as a quoted kJSON string, with the cheapest quote.
pub open spec fn quoted(s: Seq<char>) -> Seq<char> {
    let q = quote_for(s);
    seq![q] + escaped(s, q) + seq![q]
}

/// An object key as written: bare where it can be, else quoted.
pub open spec fn key_text(k: Seq<char>) -> Seq<char> {
    if is_bare_key(k) {
        k
    } else {
        quoted(k)
    }
}

/// Two spaces for each level of nesting.
pub open spec fn indent_text(n: nat) -> Seq<char> {
    Seq::new(2 * n, |i: int| ' ')
}

/// What comes before each element at nesting `indent`.
pub open spec fn lead(indent: nat, pretty: bool) -> Seq<char> {
    if pretty {
        seq!['\n'] + indent_text(indent + 1)
    } else {
        Seq::empty()
    }
}

/// What comes between elements.
pub open spec fn sep(pretty: bool) -> Seq<char> {
    if pretty {
        seq![',']
    } else {
        seq![',', ' ']
    }
}

/// What comes after the last element at nesting `indent`.
pub open spec fn close(indent: nat, pretty: bool) -> Seq<char> {
    if pretty {
        seq!['\n'] + indent_text(indent)
    } else {
        Seq::empty()
    }
}

/// The text of `v` at nesting `indent`.
pub open spec fn value_text(v: Value, indent: nat, pretty: bool) -> Seq<char>
    decreases v,
{
    match v {
        Value::Null => "null"@,
        Value::Bool(b) => if b {
            "true"@
        } else {
            "false"@
        },
        Value::Number(n) => number_text(n.negative, n.digits@, n.exponent as int),
        Value::String(s) => quoted(s@),
        Value::Array(items) => if items@.len() == 0 {
            seq!['[', ']']
        } else {
            seq!['['] + items_text(items@, indent, pretty) + close(indent, pretty) + seq![']']
        },
        Value::Object(o) => if o.entries@.len() == 0 {
            seq!['{', '}']
        } else {
            seq!['{'] + entries_text(o.entries@, indent, pretty) + close(indent, pretty) + seq![
                '}',
            ]
        },
        Value::BigInt(b) => b.view_text().push('n'),
        Value::Decimal128(d) => decimal_text(d.negative, d.digits@, d.exponent as int).push('m'),
        Value::Uuid(u) => uuid_text(u.value),
        Value::Date(d) => match date_text(d) {
            Some(t) => t,
            None => Seq::empty(),
        },
    }
}

/// The elements `s` of an array at nesting `indent`, with their separators.
pub open spec fn items_text(s: Seq<Value>, indent: nat, pretty: bool) -> Seq<char>
    decreases s,
{
    if s.len() == 0 {
        Seq::empty()
    } else if s.len() == 1 {
        lead(indent, pretty) + value_text(s[0], indent + 1, pretty)
    } else {
        items_text(s.drop_last(), indent, pretty) + sep(pretty) + lead(indent, pretty)
            + value_text(s.last(), indent + 1, pretty)
    }
}

/// The entries `s` of an object at nesting `indent`, with their separators.
pub open spec fn entries_text(s: Seq<Entry>, indent: nat, pretty: bool) -> Seq<char>
    decreases s,
{
    if s.len() == 0 {
        Seq::empty()
    } else if s.len() == 1 {
        lead(indent, pretty) + key_text(s[0].key@) + seq![':', ' '] + value_text(
            s[0].value,
            indent + 1,
            pretty,
        )
    } else {
        entries_text(s.drop_last(), indent, pretty) + sep(pretty) + lead(indent, pretty)
            + key_text(s.last().key@) + seq![':', ' '] + value_text(s.last().value, indent + 1, pretty)
    }
}

/// Whether `v` can be written at nesting `indent`: every timestamp in it
/// lies in the range chrono can write, and it nests less than `u64::MAX` deep.
pub open spec fn value_ok(v: Value, indent: nat) -> bool
    decreases v,
{
    match v {
        Value::Array(items) => items@.len() == 0 || (indent < u64::MAX && items_ok(
            items@,
            indent + 1,
        )),
        Value::Object(o) => o.entries@.len() == 0 || (indent < u64::MAX && entries_ok(
            o.entries@,
            indent + 1,
        )),
        Value::Date(d) => date_text(d) is Some,
        _ => true,
    }
}

/// Whether every element of `s` can be written at nesting `indent`.
pub open spec fn items_ok(s: Seq<Value>, indent: nat) -> bool
    decreases s,
{
    if s.len() == 0 {
        true
    } else {
        items_ok(s.drop_last(), indent) && value_ok(s.last(), indent)
    }
}

/// Whether every value of `s` can be written at nesting `indent`.
pub open spec fn entries_ok(s: Seq<Entry>, indent: nat) -> bool
    decreases s,
{
    if s.len() == 0 {
        true
    } else {
        entries_ok(s.drop_last(), indent) && value_ok(s.last().value, indent)
    }
}

/// How many times `c` occurs in `v`.
pub(crate) fn count_in(v: &Vec<char>, c: char) -> (r: u64)
    ensures
        r == count_char(v@, c),
{
    let mut n: u64 = 0;
    let mut i: usize = 0;
    while i < v.len()
        invariant
            i <= v@.len(),
            n == count_char(v@.subrange(0, i as int), c),
            n <= i,
        decreases v@.len() - i,
    {
        assert(v@.subrange(0, i + 1).drop_last() == v@.subrange(0, i as int));
        if v[i] == c {
            n += 1;
        }
        i += 1;
    }
    assert(v@.subrange(0, v@.len() as int) == v@);
    n
}

/// The quote that costs the fewest escapes for `v`.
fn select_quote_char(v: &Vec<char>) -> (r: char)
    ensures
        r == quote_for(v@),
{
    let b = count_in(v, '\\');
    let single = count_in(v, '\'') as u128 + b as u128;
    let double = count_in(v, '"') as u128 + b as u128;
    let back = count_in(v, '`') as u128 + b as u128;
    let mut min = single;
    let mut q = '\'';
    if double < min {
        min = double;
        q = '"';
    }
    if back < min {
        q = '`';
    }
    q
}

/// Appends `c` as written inside quotes `q`.
fn push_escaped(out: &mut Vec<char>, c: char, q: char)
    ensures
        final(out)@ == old(out)@ + escape_char(c, q),
{
    if c == '\\' {
        out.push('\\');
        out.push('\\');
    } else if c == '\x08' {
        out.push('\\');
        out.push('b');
    } else if c == '\x0c' {
        out.push('\\');
        out.push('f');
    } else if c == '\n' {
        out.push('\\');
        out.push('n');
    } else if c == '\r' {
        out.push('\\');
        out.push('r');
    } else if c == '\t' {
        out.push('\\');
        out.push('t');
    } else if (c as u32) <= 0x1f || (0x7f <= (c as u32) && (c as u32) <= 0x9f) {
        out.push('\\');
        out.push('u');
        push_hex4(out, c as u32);
        assert(final(out)@ =~= old(out)@ + (seq!['\\', 'u'] + fixed_hex(c as nat, 4)));
    } else if c == q {
        out.push('\\');
        out.push(q);
    } else {
        out.push(c);
    }
}

/// Appends the last `w` hexadecimal digits of `n`, lowercase.
fn push_hex_fixed(out: &mut Vec<char>, n: u32, w: u32)
    ensures
        final(out)@ == old(out)@ + fixed_hex(n as nat, w as nat),
    decreases w,
{
    if w > 0 {
        push_hex_fixed(out, n / 16, w - 1);
        let d = n % 16;
        let c = if d < 10 {
            ((d as u8) + ('0' as u8)) as char
        } else {
            ((d as u8) - 10 + ('a' as u8)) as char
        };
        out.push(c);
    }
}

/// Appends four lowercase hexadecimal digits of `n`.
fn push_hex4(out: &mut Vec<char>, n: u32)
    ensures
        final(out)@ == old(out)@ + fixed_hex(n as nat, 4),
{
    push_hex_fixed(out, n, 4);
}

/// Appends `s` as a quoted string with the cheapest quote.
fn write_string(out: &mut Vec<char>, s: &str)
    ensures
        final(out)@ == old(out)@ + quoted(s@),
{
    let v = chars_of(s);
    let q = select_quote_char(&v);
    out.push(q);
    let ghost start = out@;
    let mut i: usize = 0;
    while i < v.len()
        invariant
            i <= v@.len(),
            out@ == start + escaped(v@.subrange(0, i as int), q),
        decreases v@.len() - i,
    {
        assert(v@.subrange(0, i + 1).drop_last() == v@.subrange(0, i as int));
        push_escaped(out, v[i], q);
        i += 1;
        assert(out@ =~= start + escaped(v@.subrange(0, i as int), q));
    }
    assert(v@.subrange(0, v@.len() as int) == v@);
    out.push(q);
}

/// Whether `k` must be quoted to be read back as an object key.
fn needs_quotes(k: &Vec<char>) -> (r: bool)
    ensures
        r == !is_bare_key(k@),
{
    if k.len() == 0 {
        return true;
    }
    let first = k[0];
    if !(char_is_alphabetic(first) || first == '_' || first == '$') {
        return true;
    }
    let mut i: usize = 1;
    while i < k.len()
        invariant
            1 <= i <= k@.len(),
            forall|j: int| 1 <= j < i ==> key_rest(#[trigger] k@[j]),
        decreases k@.len() - i,
    {
        let c = k[i];
        if !(char_is_alphanumeric(c) || c == '_' || c == '$') {
            return true;
        }
        i += 1;
    }
    false
}

/// Appends an object key, bare where it can be.
fn write_key(out: &mut Vec<char>, key: &str)
    ensures
        final(out)@ == old(out)@ + key_text(key@),
{
    let k = chars_of(key);
    if needs_quotes(&k) {
        write_string(out, key);
    } else {
        extend_chars(out, &k);
    }
}

/// Appends two spaces for each of `n` levels.
fn push_indent(out: &mut Vec<char>, n: u64)
    ensures
        final(out)@ == old(out)@ + indent_text(n as nat),
{
    let mut i: u64 = 0;
    while i < n
        invariant
            i <= n,
            out@ == old(out)@ + indent_text(i as nat),
        decreases n - i,
    {
        out.push(' ');
        out.push(' ');
        i += 1;
        assert(out@ =~= old(out)@ + indent_text(i as nat));
    }
}

/// Appends what comes before an element at nesting `indent`.
fn write_lead(out: &mut Vec<char>, indent: u64, pretty: bool)
    requires
        indent < u64::MAX,
    ensures
        final(out)@ == old(out)@ + lead(indent as nat, pretty),
{
    if pretty {
        out.push('\n');
        push_indent(out, indent + 1);
        assert(final(out)@ =~= old(out)@ + (seq!['\n'] + indent_text((indent + 1) as nat)));
    } else {
        assert(final(out)@ =~= old(out)@ + Seq::<char>::empty());
    }
}

/// Appends what comes after the last element at nesting `indent`.
fn write_close(out: &mut Vec<char>, indent: u64, pretty: bool)
    ensures
        final(out)@ == old(out)@ + close(indent as nat, pretty),
{
    if pretty {
        out.push('\n');
        push_indent(out, indent);
        assert(final(out)@ =~= old(out)@ + (seq!['\n'] + indent_text(indent as nat)));
    } else {
        assert(final(out)@ =~= old(out)@ + Seq::<char>::empty());
    }
}

/// Appends what comes between elements.
fn write_sep(out: &mut Vec<char>, pretty: bool)
    ensures
        final(out)@ == old(out)@ + sep(pretty),
{
    out.push(',');
    if !pretty {
        out.push(' ');
    }
    assert(final(out)@ =~= old(out)@ + sep(pretty));
}

/// Appends the characters of `s`.
fn write_str(out: &mut Vec<char>, s: &str)
    ensures
        final(out)@ == old(out)@ + s@,
{
    let c = chars_of(s);
    extend_chars(out, &c);
}

/// Appends the text of `v` at nesting `indent`; `false` where `v` cannot be
/// written.
fn write_value(out: &mut Vec<char>, v: &Value, indent: u64, pretty: bool) -> (ok: bool)
    ensures
        ok == value_ok(*v, indent as nat),
        ok ==> final(out)@ == old(out)@ + value_text(*v, indent as nat, pretty),
    decreases v,
{
    match v {
        Value::Null => {
            write_str(out, "null");
            true
        },
        Value::Bool(b) => {
            if *b {
                write_str(out, "true");
            } else {
                write_str(out, "false");
            }
            true
        },
        Value::Number(n) => {
            let t = n.to_text();
            extend_chars(out, &t);
            true
        },
        Value::String(s) => {
            write_string(out, s.as_str());
            true
        },
        Value::Array(items) => write_array(out, items, indent, pretty),
        Value::Object(o) => write_object(out, &o.entries, indent, pretty),
        Value::BigInt(b) => {
            let t = b.to_kjson_string();
            write_str(out, t.as_str());
            true
        },
        Value::Decimal128(d) => {
            let t = d.to_kjson_string();
            write_str(out, t.as_str());
            true
        },
        Value::Uuid(u) => {
            let t = u.to_string();
            write_str(out, t.as_str());
            true
        },
        Value::Date(d) => match d.to_iso8601() {
            Some(t) => {
                write_str(out, t.as_str());
                true
            },
            None => false,
        },
    }
}

/// Appends an array at nesting `indent`; `false` where an element cannot be
/// written.
fn write_array(out: &mut Vec<char>, items: &Vec<Value>, indent: u64, pretty: bool) -> (ok: bool)
    ensures
        ok == value_ok(Value::Array(*items), indent as nat),
        ok ==> final(out)@ == old(out)@ + value_text(Value::Array(*items), indent as nat, pretty),
    decreases items,
{
    if items.len() == 0 {
        out.push('[');
        out.push(']');
        assert(final(out)@ =~= old(out)@ + seq!['[', ']']);
        return true;
    }
    if indent == u64::MAX {
        return false;
    }
    out.push('[');
    let ghost start = out@;
    let mut i: usize = 0;
    while i < items.len()
        invariant
            i <= items@.len(),
            indent < u64::MAX,
            out@ == start + items_text(items@.subrange(0, i as int), indent as nat, pretty),
            items_ok(items@.subrange(0, i as int), (indent + 1) as nat),
        decreases items@.len() - i,
    {
        assert(items@.subrange(0, i + 1).drop_last() == items@.subrange(0, i as int));
        if i > 0 {
            write_sep(out, pretty);
        }
        write_lead(out, indent, pretty);
        if !write_value(out, &items[i], indent + 1, pretty) {
            proof {
                lemma_items_ok_prefix(items@, (indent + 1) as nat, i as int + 1);
            }
            return false;
        }
        i += 1;
        proof {
            let p = items@.subrange(0, i as int);
            if i == 1 {
                assert(p.len() == 1);
                assert(out@ =~= start + items_text(p, indent as nat, pretty));
            } else {
                assert(out@ =~= start + items_text(p, indent as nat, pretty));
            }
        }
    }
    assert(items@.subrange(0, items@.len() as int) == items@);
    write_close(out, indent, pretty);
    out.push(']');
    assert(final(out)@ =~= old(out)@ + (seq!['['] + items_text(items@, indent as nat, pretty) + close(indent as nat, pretty) + seq![']']));
    true
}

/// Where every element of `s` can be written, so can every element of each
/// of its prefixes.
proof fn lemma_items_ok_prefix(s: Seq<Value>, indent: nat, k: int)
    requires
        0 <= k <= s.len(),
    ensures
        items_ok(s, indent) ==> items_ok(s.subrange(0, k), indent),
        !items_ok(s.subrange(0, k), indent) ==> !items_ok(s, indent),
    decreases s.len() - k,
{
    if k < s.len() {
        lemma_items_ok_prefix(s, indent, k + 1);
        assert(s.subrange(0, k + 1).drop_last() == s.subrange(0, k));
    } else {
        assert(s.subrange(0, k) == s);
    }
}

/// Where every value of `s` can be written, so can every value of each of
/// its prefixes.
proof fn lemma_entries_ok_prefix(s: Seq<Entry>, indent: nat, k: int)
    requires
        0 <= k <= s.len(),
    ensures
        entries_ok(s, indent) ==> entries_ok(s.subrange(0, k), indent),
        !entries_ok(s.subrange(0, k), indent) ==> !entries_ok(s, indent),
    decreases s.len() - k,
{
    if k < s.len() {
        lemma_entries_ok_prefix(s, indent, k + 1);
        assert(s.subrange(0, k + 1).drop_last() == s.subrange(0, k));
    } else {
        assert(s.subrange(0, k) == s);
    }
}

/// The text and the writability of the first `i + 1` entries of `s`, from
/// those of the first `i`.
proof fn lemma_entries_step(s: Seq<Entry>, indent: nat, pretty: bool, i: int)
    requires
        0 <= i < s.len(),
    ensures
        entries_text(s.subrange(0, i + 1), indent, pretty) == entries_text(
            s.subrange(0, i),
            indent,
            pretty,
        ) + (if i > 0 {
            sep(pretty)
        } else {
            Seq::empty()
        }) + lead(indent, pretty) + key_text(s[i].key@) + seq![':', ' '] + value_text(
            s[i].value,
            indent + 1,
            pretty,
        ),
        entries_ok(s.subrange(0, i + 1), indent + 1) == (entries_ok(s.subrange(0, i), indent + 1)
            && value_ok(s[i].value, indent + 1)),
{
    let p = s.subrange(0, i + 1);
    assert(p.drop_last() == s.subrange(0, i));
    assert(p.last() == s[i]);
    if i == 0 {
        assert(p.len() == 1);
        assert(s.subrange(0, i).len() == 0);
        assert(entries_text(p, indent, pretty) =~= Seq::<char>::empty() + Seq::<char>::empty()
            + lead(indent, pretty) + key_text(s[i].key@) + seq![':', ' '] + value_text(
            s[i].value,
            indent + 1,
            pretty,
        ));
    } else {
        assert(entries_text(p, indent, pretty) =~= entries_text(s.subrange(0, i), indent, pretty)
            + sep(pretty) + lead(indent, pretty) + key_text(s[i].key@) + seq![':', ' ']
            + value_text(s[i].value, indent + 1, pretty));
    }
}

/// Appends one entry of an object at nesting `indent`, with what comes
/// before it; `false` where its value cannot be written.
fn write_entry(out: &mut Vec<char>, e: &Entry, indent: u64, pretty: bool) -> (ok: bool)
    requires
        indent < u64::MAX,
    ensures
        ok == value_ok(e.value, (indent + 1) as nat),
        ok ==> final(out)@ == old(out)@ + lead(indent as nat, pretty) + key_text(e.key@) + seq![
            ':',
            ' ',
        ] + value_text(e.value, (indent + 1) as nat, pretty),
    decreases e,
{
    write_lead(out, indent, pretty);
    write_key(out, e.key.as_str());
    out.push(':');
    out.push(' ');
    let ghost mid = out@;
    let ok = write_value(out, &e.value, indent + 1, pretty);
    assert(ok ==> final(out)@ =~= old(out)@ + lead(indent as nat, pretty) + key_text(e.key@) + seq![':', ' '] + value_text(e.value, (indent + 1) as nat, pretty));
    ok
}

/// Appends an object with entries `entries` at nesting `indent`, keys in
/// ascending order; `false` where a value cannot be written.
#[verifier::rlimit(40)]
fn write_object(out: &mut Vec<char>, entries: &Vec<Entry>, indent: u64, pretty: bool) -> (ok: bool)
    ensures
        ok == (entries@.len() == 0 || (indent < u64::MAX && entries_ok(entries@, (indent + 1) as nat))),
        ok ==> final(out)@ == old(out)@ + (if entries@.len() == 0 {
            seq!['{', '}']
        } else {
            seq!['{'] + entries_text(entries@, indent as nat, pretty) + close(indent as nat, pretty)
                + seq!['}']
        }),
    decreases entries,
{
    if entries.len() == 0 {
        out.push('{');
        out.push('}');
        assert(final(out)@ =~= old(out)@ + seq!['{', '}']);
        return true;
    }
    if indent == u64::MAX {
        return false;
    }
    out.push('{');
    let ghost start = out@;
    let mut i: usize = 0;
    assert(entries@.subrange(0, 0) =~= Seq::<Entry>::empty());
    while i < entries.len()
        invariant
            i <= entries@.len(),
            indent < u64::MAX,
            out@ == start + entries_text(entries@.subrange(0, i as int), indent as nat, pretty),
            entries_ok(entries@.subrange(0, i as int), (indent + 1) as nat),
        decreases entries@.len() - i,
    {
        let ghost before = out@;
        if i > 0 {
            write_sep(out, pretty);
        }
        let ghost mid = out@;
        assert(mid == before + (if i > 0 { sep(pretty) } else { Seq::<char>::empty() }));
        let ok = write_entry(out, &entries[i], indent, pretty);
        proof {
            lemma_entries_step(entries@, indent as nat, pretty, i as int);
        }
        if !ok {
            proof {
                lemma_entries_ok_prefix(entries@, (indent + 1) as nat, i as int + 1);
            }
            return false;
        }
        assert(out@ =~= start + entries_text(entries@.subrange(0, i + 1), indent as nat, pretty));
        i += 1;
    }
    assert(entries@.subrange(0, entries@.len() as int) == entries@);
    write_close(out, indent, pretty);
    out.push('}');
    assert(final(out)@ =~= old(out)@ + (seq!['{'] + entries_text(entries@, indent as nat, pretty) + close(indent as nat, pretty) + seq!['}']));
    true
}

/// Writes `value` as compact kJSON text: elements and entries separated by
/// `, `, keys followed by `: `, keys in ascending order (every object within
/// `value` keeps its entries in that order).
pub fn to_string(value: &Value) -> (r: Result<String, Error>)
    requires
        value_wf(*value),
    ensures
        r is Ok <==> value_ok(*value, 0),
        r is Ok ==> r->Ok_0@ == value_text(*value, 0, false),
        r is Err ==> r->Err_0 is SerializationError,
{
    let mut out: Vec<char> = Vec::new();
    if write_value(&mut out, value, 0, false) {
        Ok(string_of(&out))
    } else {
        Err(Error::SerializationError(string_of(&out)))
    }
}

/// Writes `value` as kJSON text with each element on its own line, indented
/// by two spaces for each level of nesting.
pub fn to_string_pretty(value: &Value) -> (r: Result<String, Error>)
    requires
        value_wf(*value),
    ensures
        r is Ok <==> value_ok(*value, 0),
        r is Ok ==> r->Ok_0@ == value_text(*value, 0, true),
        r is Err ==> r->Err_0 is SerializationError,
{
    let mut out: Vec<char> = Vec::new();
    if write_value(&mut out, value, 0, true) {
        Ok(string_of(&out))
    } else {
        Err(Error::SerializationError(string_of(&out)))
    }
}

} // verus!
