//! The tree of values that kJSON text describes.
use vstd::prelude::*;
use crate::bigint::BigInt;
use crate::decimal::Decimal128;
use crate::guid::Uuid;
use crate::number::Number;
use crate::time::Date;

verus! {

/// Any kJSON value.
#[derive(Debug, PartialEq)]
pub enum Value {
    /// `null`.
    Null,
    /// `true` or `false`.
    Bool(bool),
    /// A plain number.
    Number(Number),
    /// A string.
    String(String),
    /// An ordered sequence of values.
    Array(Vec<Value>),
    /// A mapping from keys to values.
    Object(Object),
    /// An integer of any size.
    BigInt(BigInt),
    /// An exact decimal.
    Decimal128(Decimal128),
    /// A UUID.
    Uuid(Uuid),
    /// A timestamp.
    Date(Date),
}

/// One key of an object and its value.
#[derive(Debug, PartialEq)]
pub struct Entry {
    /// The key.
    pub key: String,
    /// The value under the key.
    pub value: Value,
}

/// A mapping from string keys to values, kept in ascending key order, each
/// key once.
#[derive(Debug, PartialEq)]
pub struct Object {
    /// The entries, by ascending key.
    pub entries: Vec<Entry>,
}

/// Whether `a` comes before `b` in the order of their characters.
pub open spec fn key_lt(a: Seq<char>, b: Seq<char>) -> bool
    decreases a.len(),
{
    if a.len() == 0 {
        b.len() > 0
    } else if b.len() == 0 {
        false
    } else if a[0] != b[0] {
        a[0] < b[0]
    } else {
        key_lt(a.drop_first(), b.drop_first())
    }
}

/// No key comes before itself.
pub proof fn lemma_key_lt_irreflexive(a: Seq<char>)
    ensures
        !key_lt(a, a),
    decreases a.len(),
{
    if a.len() > 0 {
        lemma_key_lt_irreflexive(a.drop_first());
    }
}

/// Of two different keys, one comes before the other.
#[verifier::spinoff_prover]
pub proof fn lemma_key_lt_total(a: Seq<char>, b: Seq<char>)
    ensures
        a != b ==> key_lt(a, b) || key_lt(b, a),
        !(key_lt(a, b) && key_lt(b, a)),
    decreases a.len(),
{
    if a.len() > 0 && b.len() > 0 && a[0] == b[0] {
        lemma_key_lt_total(a.drop_first(), b.drop_first());
        if a.drop_first() == b.drop_first() {
            assert(a == seq![a[0]] + a.drop_first());
            assert(b == seq![b[0]] + b.drop_first());
        }
    } else if a.len() == 0 && b.len() == 0 {
        assert(a == b);
    }
}

/// The order of keys is transitive.
pub proof fn lemma_key_lt_transitive(a: Seq<char>, b: Seq<char>, c: Seq<char>)
    requires
        key_lt(a, b),
        key_lt(b, c),
    ensures
        key_lt(a, c),
    decreases a.len(),
{
    if a.len() > 0 && b.len() > 0 && c.len() > 0 && a[0] == b[0] && b[0] == c[0] {
        lemma_key_lt_transitive(a.drop_first(), b.drop_first(), c.drop_first());
    }
}

/// Whether the keys of `s` ascend strictly.
pub open spec fn keys_ascending(s: Seq<Entry>) -> bool {
    forall|i: int, j: int| 0 <= i < j < s.len() ==> key_lt(#[trigger] s[i].key@, #[trigger] s[j].key@)
}

/// Whether `s` holds an entry with key `k`.
pub open spec fn has_key(s: Seq<Entry>, k: Seq<char>) -> bool {
    exists|i: int| 0 <= i < s.len() && #[trigger] s[i].key@ == k
}

/// Compares two keys by their characters.
fn compare_keys(a: &Vec<char>, b: &Vec<char>) -> (r: i8)
    ensures
        r < 0 <==> key_lt(a@, b@),
        r == 0 <==> a@ == b@,
        r > 0 <==> key_lt(b@, a@),
{
    let mut i: usize = 0;
    assert(a@.subrange(0, a@.len() as int) == a@);
    assert(b@.subrange(0, b@.len() as int) == b@);
    while i < a.len() && i < b.len() && a[i] == b[i]
        invariant
            i <= a@.len(),
            i <= b@.len(),
            a@.subrange(0, i as int) == b@.subrange(0, i as int),
            key_lt(a@, b@) == key_lt(a@.subrange(i as int, a@.len() as int), b@.subrange(i as int, b@.len() as int)),
            key_lt(b@, a@) == key_lt(b@.subrange(i as int, b@.len() as int), a@.subrange(i as int, a@.len() as int)),
        decreases a@.len() - i,
    {
        assert(a@.subrange(i as int, a@.len() as int).drop_first() == a@.subrange(i + 1, a@.len() as int));
        assert(b@.subrange(i as int, b@.len() as int).drop_first() == b@.subrange(i + 1, b@.len() as int));
        assert(a@.subrange(0, i + 1) == a@.subrange(0, i as int).push(a@[i as int]));
        assert(b@.subrange(0, i + 1) == b@.subrange(0, i as int).push(b@[i as int]));
        i += 1;
    }
    proof {
        lemma_key_lt_total(a@, b@);
        lemma_key_lt_irreflexive(a@);
    }
    if i < a.len() && i < b.len() {
        if a[i] < b[i] {
            -1
        } else {
            1
        }
    } else if i < b.len() {
        assert(a@ == a@.subrange(0, i as int));
        -1
    } else if i < a.len() {
        assert(b@ == b@.subrange(0, i as int));
        1
    } else {
        assert(a@ == a@.subrange(0, i as int));
        assert(b@ == b@.subrange(0, i as int));
        0
    }
}

impl Object {
    /// Whether the keys ascend strictly.
    pub open spec fn wf(&self) -> bool {
        keys_ascending(self.entries@)
    }

    /// An object with no keys.
    pub fn new() -> (r: Object)
        ensures
            r.wf(),
            r.entries@.len() == 0,
    {
        Object { entries: Vec::new() }
    }

    /// The number of keys.
    pub fn len(&self) -> (r: usize)
        ensures
            r == self.entries@.len(),
    {
        self.entries.len()
    }

    /// Whether there are no keys.
    pub fn is_empty(&self) -> (r: bool)
        ensures
            r == (self.entries@.len() == 0),
    {
        self.entries.len() == 0
    }

    /// The value under `key`, if there is one.
    pub fn get(&self, key: &str) -> (r: Option<&Value>)
        requires
            self.wf(),
        ensures
            r is Some <==> has_key(self.entries@, key@),
            r is Some ==> exists|i: int|
                0 <= i < self.entries@.len() && self.entries@[i].key@ == key@ && *r->0
                    == self.entries@[i].value,
    {
        let k = crate::text::chars_of(key);
        let mut i: usize = 0;
        while i < self.entries.len()
            invariant
                i <= self.entries@.len(),
                k@ == key@,
                forall|j: int| 0 <= j < i ==> self.entries@[j].key@ != key@,
            decreases self.entries@.len() - i,
        {
            let ek = crate::text::chars_of(self.entries[i].key.as_str());
            if compare_keys(&ek, &k) == 0 {
                return Some(&self.entries[i].value);
            }
            i += 1;
        }
        None
    }

    /// Sets `key` to `value`, replacing the value it had.
    pub fn insert(&mut self, key: String, value: Value)
        requires
            old(self).wf(),
        ensures
            final(self).wf(),
            has_key(final(self).entries@, key@),
            forall|j: int|
                0 <= j < final(self).entries@.len() && #[trigger] final(self).entries@[j].key@ == key@
                    ==> final(self).entries@[j].value == value,
            forall|j: int|
                0 <= j < final(self).entries@.len() && #[trigger] final(self).entries@[j].key@ != key@
                    ==> old(self).entries@.contains(final(self).entries@[j]),
            forall|i: int|
                0 <= i < old(self).entries@.len() && #[trigger] old(self).entries@[i].key@ != key@
                    ==> final(self).entries@.contains(old(self).entries@[i]),
    {
        let k = crate::text::chars_of(key.as_str());
        let mut i: usize = 0;
        while i < self.entries.len()
            invariant
                i <= self.entries@.len(),
                self.entries@ == old(self).entries@,
                keys_ascending(old(self).entries@),
                k@ == key@,
                forall|j: int| 0 <= j < i ==> key_lt(#[trigger] self.entries@[j].key@, key@),
            ensures
                i <= self.entries@.len(),
                self.entries@ == old(self).entries@,
                forall|j: int| 0 <= j < i ==> key_lt(#[trigger] self.entries@[j].key@, key@),
                i < self.entries@.len() ==> key_lt(key@, self.entries@[i as int].key@),
            decreases self.entries@.len() - i,
        {
            let ek = crate::text::chars_of(self.entries[i].key.as_str());
            let c = compare_keys(&ek, &k);
            if c == 0 {
                let ghost before = self.entries@;
                assert(keys_ascending(before));
                self.entries.set(i, Entry { key, value });
                proof {
                    assert forall|j: int| 0 <= j < self.entries@.len() && j != i implies self.entries@[j] == before[j] by {}
                    assert(self.entries@[i as int].key@ == before[i as int].key@);
                    assert forall|a: int, b: int| 0 <= a < b < self.entries@.len() implies key_lt(
                        #[trigger] self.entries@[a].key@,
                        #[trigger] self.entries@[b].key@,
                    ) by {
                        assert(key_lt(before[a].key@, before[b].key@));
                    }
                    assert forall|j: int|
                        0 <= j < self.entries@.len() && #[trigger] self.entries@[j].key@ != key@
                        implies old(self).entries@.contains(self.entries@[j]) by {
                        assert(old(self).entries@[j] == self.entries@[j]);
                    }
                    assert forall|a: int|
                        0 <= a < old(self).entries@.len() && #[trigger] old(self).entries@[a].key@ != key@
                        implies self.entries@.contains(old(self).entries@[a]) by {
                        assert(self.entries@[a] == old(self).entries@[a]);
                    }
                    assert forall|j: int|
                        0 <= j < self.entries@.len() && #[trigger] self.entries@[j].key@ == key@
                        implies self.entries@[j].value == value by {
                        if j != i {
                            assert(key_lt(before[j].key@, before[i as int].key@) || key_lt(before[i as int].key@, before[j].key@));
                            lemma_key_lt_irreflexive(key@);
                        }
                    }
                    assert(self.entries@[i as int].key@ == key@);
                }
                return;
            }
            if c > 0 {
                break;
            }
            i += 1;
        }
        let ghost before = self.entries@;
        assert(keys_ascending(before));
        proof {
            if i < before.len() {
                lemma_key_lt_total(before[i as int].key@, key@);
            }
        }
        self.entries.insert(i, Entry { key, value });
        proof {
            let after = self.entries@;
            assert(after == before.subrange(0, i as int).push(Entry { key, value }) + before.subrange(i as int, before.len() as int));
            assert forall|j: int| 0 <= j < after.len() implies
                (j < i ==> after[j] == before[j]) && (j > i ==> after[j] == before[j - 1]) by {}
            assert forall|a: int, b: int| 0 <= a < b < after.len() implies key_lt(
                #[trigger] after[a].key@,
                #[trigger] after[b].key@,
            ) by {
                if b < i {
                } else if b == i {
                } else if a == i {
                    if b - 1 > i {
                        assert(key_lt(before[i as int].key@, before[b - 1].key@));
                        lemma_key_lt_transitive(key@, before[i as int].key@, before[b - 1].key@);
                    }
                } else if a < i {
                    if i < before.len() {
                        lemma_key_lt_transitive(before[a].key@, key@, before[i as int].key@);
                        if b - 1 > i {
                            lemma_key_lt_transitive(before[a].key@, before[i as int].key@, before[b - 1].key@);
                        }
                    }
                } else {
                    assert(key_lt(before[a - 1].key@, before[b - 1].key@));
                }
            }
            assert(after[i as int].key@ == key@);
            assert forall|j: int|
                0 <= j < after.len() && #[trigger] after[j].key@ != key@
                implies old(self).entries@.contains(after[j]) by {
                if j < i {
                    assert(old(self).entries@[j] == after[j]);
                } else {
                    assert(old(self).entries@[j - 1] == after[j]);
                }
            }
            assert forall|a: int|
                0 <= a < old(self).entries@.len() && #[trigger] old(self).entries@[a].key@ != key@
                implies after.contains(old(self).entries@[a]) by {
                if a < i {
                    assert(after[a] == before[a]);
                } else {
                    assert(after[a + 1] == before[a]);
                }
            }
            assert forall|j: int|
                0 <= j < after.len() && #[trigger] after[j].key@ == key@
                implies after[j].value == value by {
                if j != i {
                    lemma_key_lt_irreflexive(key@);
                    if j < i {
                        assert(key_lt(after[j].key@, after[i as int].key@));
                    } else {
                        assert(key_lt(after[i as int].key@, after[j].key@));
                    }
                }
            }
        }
    }
}

/// Whether every object within `v` keeps its keys in ascending order.
pub open spec fn value_wf(v: Value) -> bool
    decreases v,
{
    match v {
        Value::Array(items) => items_wf(items@),
        Value::Object(o) => keys_ascending(o.entries@) && entries_wf(o.entries@),
        _ => true,
    }
}

/// Whether every element of `s` is well formed.
pub open spec fn items_wf(s: Seq<Value>) -> bool
    decreases s,
{
    if s.len() == 0 {
        true
    } else {
        items_wf(s.drop_last()) && value_wf(s.last())
    }
}

/// Whether every value of `s` is well formed.
pub open spec fn entries_wf(s: Seq<Entry>) -> bool
    decreases s,
{
    if s.len() == 0 {
        true
    } else {
        entries_wf(s.drop_last()) && value_wf(s.last().value)
    }
}

/// The diagnostic name of the kind of `v`.
pub open spec fn kind_name(v: Value) -> Seq<char> {
    match v {
        Value::Null => "null"@,
        Value::Bool(_) => "boolean"@,
        Value::Number(_) => "number"@,
        Value::String(_) => "string"@,
        Value::Array(_) => "array"@,
        Value::Object(_) => "object"@,
        Value::BigInt(_) => "bigint"@,
        Value::Decimal128(_) => "decimal128"@,
        Value::Uuid(_) => "uuid"@,
        Value::Date(_) => "date"@,
    }
}

impl Value {
    /// Whether the value is `null`.
    pub fn is_null(&self) -> (r: bool)
        ensures
            r == (*self is Null),
    {
        match self {
            Value::Null => true,
            _ => false,
        }
    }

    /// The boolean, if the value is one.
    pub fn as_bool(&self) -> (r: Option<bool>)
        ensures
            r == (match *self {
                Value::Bool(b) => Some(b),
                _ => None,
            }),
    {
        match self {
            Value::Bool(b) => Some(*b),
            _ => None,
        }
    }

    /// The number, if the value is one.
    pub fn as_number(&self) -> (r: Option<&Number>)
        ensures
            r is Some <==> *self is Number,
            r is Some ==> *self == Value::Number(*r->0),
    {
        match self {
            Value::Number(n) => Some(n),
            _ => None,
        }
    }

    /// The string, if the value is one.
    pub fn as_str(&self) -> (r: Option<&str>)
        ensures
            r is Some <==> *self is String,
            r is Some ==> r->0@ == self->String_0@,
    {
        match self {
            Value::String(s) => Some(s.as_str()),
            _ => None,
        }
    }

    /// The elements, if the value is an array.
    pub fn as_array(&self) -> (r: Option<&Vec<Value>>)
        ensures
            r is Some <==> *self is Array,
            r is Some ==> *self == Value::Array(*r->0),
    {
        match self {
            Value::Array(a) => Some(a),
            _ => None,
        }
    }

    /// The object, if the value is one.
    pub fn as_object(&self) -> (r: Option<&Object>)
        ensures
            r is Some <==> *self is Object,
            r is Some ==> *self == Value::Object(*r->0),
    {
        match self {
            Value::Object(o) => Some(o),
            _ => None,
        }
    }

    /// The big integer, if the value is one.
    pub fn as_bigint(&self) -> (r: Option<&BigInt>)
        ensures
            r is Some <==> *self is BigInt,
            r is Some ==> *self == Value::BigInt(*r->0),
    {
        match self {
            Value::BigInt(b) => Some(b),
            _ => None,
        }
    }

    /// The decimal, if the value is one.
    pub fn as_decimal128(&self) -> (r: Option<&Decimal128>)
        ensures
            r is Some <==> *self is Decimal128,
            r is Some ==> *self == Value::Decimal128(*r->0),
    {
        match self {
            Value::Decimal128(d) => Some(d),
            _ => None,
        }
    }

    /// The UUID, if the value is one.
    pub fn as_uuid(&self) -> (r: Option<&Uuid>)
        ensures
            r is Some <==> *self is Uuid,
            r is Some ==> *self == Value::Uuid(*r->0),
    {
        match self {
            Value::Uuid(u) => Some(u),
            _ => None,
        }
    }

    /// The timestamp, if the value is one.
    pub fn as_date(&self) -> (r: Option<&Date>)
        ensures
            r is Some <==> *self is Date,
            r is Some ==> *self == Value::Date(*r->0),
    {
        match self {
            Value::Date(d) => Some(d),
            _ => None,
        }
    }

    /// The name of the kind of the value, for diagnostics.
    pub fn value_type_name(&self) -> (r: &'static str)
        ensures
            r@ == kind_name(*self),
    {
        match self {
            Value::Null => "null",
            Value::Bool(_) => "boolean",
            Value::Number(_) => "number",
            Value::String(_) => "string",
            Value::Array(_) => "array",
            Value::Object(_) => "object",
            Value::BigInt(_) => "bigint",
            Value::Decimal128(_) => "decimal128",
            Value::Uuid(_) => "uuid",
            Value::Date(_) => "date",
        }
    }
}

/// Well-formedness of a prefix follows from that of the whole, and fails
/// for the whole where it fails for a prefix.
proof fn lemma_items_wf_prefix(s: Seq<Value>, k: int)
    requires
        0 <= k <= s.len(),
    ensures
        items_wf(s) ==> items_wf(s.subrange(0, k)),
    decreases s.len() - k,
{
    if k < s.len() {
        lemma_items_wf_prefix(s, k + 1);
        assert(s.subrange(0, k + 1).drop_last() == s.subrange(0, k));
    } else {
        assert(s.subrange(0, k) == s);
    }
}

/// Well-formedness of a prefix of entries follows from that of the whole.
proof fn lemma_entries_wf_prefix(s: Seq<Entry>, k: int)
    requires
        0 <= k <= s.len(),
    ensures
        entries_wf(s) ==> entries_wf(s.subrange(0, k)),
    decreases s.len() - k,
{
    if k < s.len() {
        lemma_entries_wf_prefix(s, k + 1);
        assert(s.subrange(0, k + 1).drop_last() == s.subrange(0, k));
    } else {
        assert(s.subrange(0, k) == s);
    }
}

/// Keys that ascend from each entry to the next ascend throughout.
proof fn lemma_adjacent_ascending(s: Seq<Entry>)
    requires
        forall|i: int| 0 <= i < s.len() - 1 ==> key_lt(#[trigger] s[i].key@, s[i + 1].key@),
    ensures
        keys_ascending(s),
{
    assert forall|i: int, j: int| 0 <= i < j < s.len() implies key_lt(
        #[trigger] s[i].key@,
        #[trigger] s[j].key@,
    ) by {
        lemma_adjacent_chain(s, i, j);
    }
}

/// One step of the chain of ascending keys.
proof fn lemma_adjacent_chain(s: Seq<Entry>, i: int, j: int)
    requires
        forall|k: int| 0 <= k < s.len() - 1 ==> key_lt(#[trigger] s[k].key@, s[k + 1].key@),
        0 <= i < j < s.len(),
    ensures
        key_lt(s[i].key@, s[j].key@),
    decreases j - i,
{
    if j > i + 1 {
        lemma_adjacent_chain(s, i, j - 1);
        assert(key_lt(s[j - 1].key@, s[j].key@));
        lemma_key_lt_transitive(s[i].key@, s[j - 1].key@, s[j].key@);
    }
}

/// Whether every element of `items` is well formed.
fn items_well_formed(items: &Vec<Value>) -> (r: bool)
    ensures
        r == items_wf(items@),
    decreases items,
{
    let mut i: usize = 0;
    while i < items.len()
        invariant
            i <= items@.len(),
            items_wf(items@.subrange(0, i as int)),
        decreases items@.len() - i,
    {
        assert(items@.subrange(0, i + 1).drop_last() == items@.subrange(0, i as int));
        if !items[i].is_well_formed() {
            proof {
                lemma_items_wf_prefix(items@, i + 1);
            }
            return false;
        }
        i += 1;
    }
    assert(items@.subrange(0, items@.len() as int) == items@);
    true
}

/// Whether the keys of `entries` ascend strictly and each value is well
/// formed.
fn entries_well_formed(entries: &Vec<Entry>) -> (r: bool)
    ensures
        r == (keys_ascending(entries@) && entries_wf(entries@)),
    decreases entries,
{
    let mut i: usize = 0;
    while i < entries.len()
        invariant
            i <= entries@.len(),
            forall|k: int| 0 <= k < i - 1 ==> key_lt(#[trigger] entries@[k].key@, entries@[k + 1].key@),
            entries_wf(entries@.subrange(0, i as int)),
        decreases entries@.len() - i,
    {
        assert(entries@.subrange(0, i + 1).drop_last() == entries@.subrange(0, i as int));
        if i > 0 {
            let a = crate::text::chars_of(entries[i - 1].key.as_str());
            let b = crate::text::chars_of(entries[i].key.as_str());
            if compare_keys(&a, &b) >= 0 {
                assert(!keys_ascending(entries@)) by {
                    if keys_ascending(entries@) {
                        assert(key_lt(entries@[i - 1].key@, entries@[i as int].key@));
                    }
                }
                return false;
            }
        }
        if !entries[i].value.is_well_formed() {
            proof {
                lemma_entries_wf_prefix(entries@, i + 1);
            }
            return false;
        }
        i += 1;
    }
    assert(entries@.subrange(0, entries@.len() as int) == entries@);
    proof {
        lemma_adjacent_ascending(entries@);
    }
    true
}

impl Value {
    /// Whether every object within the value keeps its keys in strictly
    /// ascending order, as `Object::insert` leaves them.
    pub fn is_well_formed(&self) -> (r: bool)
        ensures
            r == value_wf(*self),
        decreases self,
    {
        match self {
            Value::Array(items) => items_well_formed(items),
            Value::Object(o) => entries_well_formed(&o.entries),
            _ => true,
        }
    }
}

} // verus!
