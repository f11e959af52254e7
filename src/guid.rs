//! UUIDs: 128-bit identifiers, read and written through the `uuid` crate.
use vstd::prelude::*;

verus! {

/// Whether `c` is a hexadecimal digit, in either case.
pub open spec fn is_hex(c: char) -> bool {
    ('0' <= c && c <= '9') || ('a' <= c && c <= 'f') || ('A' <= c && c <= 'F')
}

/// The value of a hexadecimal digit.
pub open spec fn hex_value(c: char) -> nat {
    if '0' <= c && c <= '9' {
        (c as nat - '0' as nat) as nat
    } else if 'a' <= c && c <= 'f' {
        (c as nat - 'a' as nat + 10) as nat
    } else {
        (c as nat - 'A' as nat + 10) as nat
    }
}

/// The number written by the hexadecimal digits `s`, most significant first.
pub open spec fn hex_digits_value(s: Seq<char>) -> nat
    decreases s.len(),
{
    if s.len() == 0 {
        0
    } else {
        hex_digits_value(s.drop_last()) * 16 + hex_value(s.last())
    }
}

/// Whether every character of `s` is a hexadecimal digit.
pub open spec fn all_hex(s: Seq<char>) -> bool {
    forall|i: int| 0 <= i < s.len() ==> is_hex(#[trigger] s[i])
}

/// The 32 digits of a hyphenated UUID `8-4-4-4-12`, or `None` where `t`
/// does not have that form.
pub open spec fn hyphenated_digits(t: Seq<char>) -> Option<Seq<char>> {
    let d = t.subrange(0, 8) + t.subrange(9, 13) + t.subrange(14, 18) + t.subrange(19, 23)
        + t.subrange(24, 36);
    if t.len() == 36 && t[8] == '-' && t[13] == '-' && t[18] == '-' && t[23] == '-' && all_hex(
        d,
    ) {
        Some(d)
    } else {
        None
    }
}

/// `c` in lower case, where it is an ASCII letter.
pub open spec fn ascii_lower(c: char) -> char {
    if 'A' <= c && c <= 'Z' {
        ((c as u32) + 32) as char
    } else {
        c
    }
}

/// The 32 hexadecimal digits of a UUID text in one of the forms the `uuid`
/// crate reads: 32 digits; hyphenated `8-4-4-4-12`; hyphenated within
/// braces; hyphenated after a `urn:uuid:` prefix in any case.
pub open spec fn uuid_digits(s: Seq<char>) -> Option<Seq<char>> {
    if s.len() == 32 {
        if all_hex(s) {
            Some(s)
        } else {
            None
        }
    } else if s.len() == 36 {
        hyphenated_digits(s)
    } else if s.len() == 38 && s[0] == '{' && s[37] == '}' {
        hyphenated_digits(s.subrange(1, 37))
    } else if s.len() == 45 && s.subrange(0, 9).map_values(|c: char| ascii_lower(c))
        == seq!['u', 'r', 'n', ':', 'u', 'u', 'i', 'd', ':'] {
        hyphenated_digits(s.subrange(9, 45))
    } else {
        None
    }
}

/// The lowercase hexadecimal digit for `d`, which is below sixteen.
pub open spec fn hex_char(d: nat) -> char {
    if d < 10 {
        ('0' as u8 + d) as char
    } else {
        ('a' as u8 + d - 10) as char
    }
}

/// The last `w` hexadecimal digits of `n`, lowercase, with leading zeros.
pub open spec fn fixed_hex(n: nat, w: nat) -> Seq<char>
    decreases w,
{
    if w == 0 {
        Seq::empty()
    } else {
        fixed_hex(n / 16, (w - 1) as nat).push(hex_char(n % 16))
    }
}

/// The hyphenated lowercase text `8-4-4-4-12` of the UUID `v`.
pub open spec fn uuid_text(v: u128) -> Seq<char> {
    let h = fixed_hex(v as nat, 32);
    h.subrange(0, 8) + seq!['-'] + h.subrange(8, 12) + seq!['-'] + h.subrange(12, 16) + seq!['-']
        + h.subrange(16, 20) + seq!['-'] + h.subrange(20, 32)
}

/// Relies on `uuid::Uuid::parse_str`: the forms it accepts and the 128-bit
/// value their digits write.
#[verifier::external_body]
fn parse_uuid(s: &str) -> (r: Option<u128>)
    ensures
        r is Some <==> uuid_digits(s@) is Some,
        r is Some ==> r->0 as nat == hex_digits_value(uuid_digits(s@)->0),
{
    uuid::Uuid::parse_str(s).ok().map(|u| u.as_u128())
}

/// Relies on the `Display` of `uuid::Uuid`: hyphenated lowercase hexadecimal.
#[verifier::external_body]
fn hyphenated_text(v: u128) -> (r: String)
    ensures
        r@ == uuid_text(v),
{
    uuid::Uuid::from_u128(v).to_string()
}

/// Relies on `uuid::Uuid::new_v4`: a random UUID with the version set to 4
/// and the variant to RFC 4122.
#[verifier::external_body]
fn random_v4() -> (r: u128)
    ensures
        (r >> 76u128) & 0xf == 4,
        (r >> 62u128) & 0x3 == 2,
{
    uuid::Uuid::new_v4().as_u128()
}

/// Relies on `rand::random`: 128 random bits.
#[verifier::external_body]
fn random_bits() -> (r: u128)
{
    rand::random::<u128>()
}

/// A 128-bit universally unique identifier.
#[derive(Debug, Clone, Copy, PartialEq, Eq, Hash)]
pub struct Uuid {
    /// The identifier as a big-endian number.
    pub value: u128,
}

impl Uuid {
    /// Reads a UUID written as 32 hexadecimal digits, hyphenated, braced, or
    /// as a URN.
    pub fn parse_str(s: &str) -> (r: Option<Uuid>)
        ensures
            r is Some <==> uuid_digits(s@) is Some,
            r is Some ==> r->0.value as nat == hex_digits_value(uuid_digits(s@)->0),
    {
        match parse_uuid(s) {
            Some(value) => Some(Uuid { value }),
            None => None,
        }
    }

    /// The UUID with the big-endian value `value`.
    pub fn from_u128(value: u128) -> (r: Uuid)
        ensures
            r.value == value,
    {
        Uuid { value }
    }

    /// The UUID as a big-endian number.
    pub fn as_u128(&self) -> (r: u128)
        ensures
            r == self.value,
    {
        self.value
    }

    /// The hyphenated lowercase text of the UUID.
    pub fn to_string(&self) -> (r: String)
        ensures
            r@ == uuid_text(self.value),
    {
        hyphenated_text(self.value)
    }

    /// The version number, held in the high half of the seventh byte.
    pub fn get_version_num(&self) -> (r: u128)
        ensures
            r == (self.value >> 76u128) & 0xf,
    {
        (self.value >> 76u128) & 0xf
    }
}

/// A new random UUID, of version 4.
pub fn uuid_v4() -> (r: Uuid)
    ensures
        (r.value >> 76u128) & 0xf == 4,
        (r.value >> 62u128) & 0x3 == 2,
{
    Uuid { value: random_v4() }
}

/// The version 7 UUID for a Unix time in milliseconds and random bits: the
/// low 48 bits of the time come first, then the version 7, then random
/// bits, the variant bits `10`, and more random bits.
pub fn uuid_v7_from(millis: u64, random: u128) -> (r: Uuid)
    ensures
        r.value >> 80u128 == (millis as u128) & 0xffff_ffff_ffff,
        (r.value >> 76u128) & 0xf == 7,
        (r.value >> 62u128) & 0x3 == 2,
        r.value & 0xfff_0000_0000_0000_0000 == random & 0xfff_0000_0000_0000_0000,
        r.value & 0x3fff_ffff_ffff_ffff == random & 0x3fff_ffff_ffff_ffff,
{
    let t: u128 = (millis as u128) & 0xffff_ffff_ffff;
    let v: u128 = (t << 80u128) | 0x7000_0000_0000_0000_0000u128 | 0x8000_0000_0000_0000u128 | (
    random & 0xfff_0000_0000_0000_0000u128) | (random & 0x3fff_ffff_ffff_ffffu128);
    assert(v >> 80u128 == t && (v >> 76u128) & 0xf == 7 && (v >> 62u128) & 0x3 == 2 && v
        & 0xfff_0000_0000_0000_0000 == random & 0xfff_0000_0000_0000_0000 && v & 0x3fff_ffff_ffff_ffff
        == random & 0x3fff_ffff_ffff_ffff) by (bit_vector)
        requires
            t == (millis as u128) & 0xffff_ffff_ffff,
            v == (t << 80u128) | 0x7000_0000_0000_0000_0000u128 | 0x8000_0000_0000_0000u128 | (
            random & 0xfff_0000_0000_0000_0000u128) | (random & 0x3fff_ffff_ffff_ffffu128),
    ;
    Uuid { value: v }
}

/// A new version 7 UUID for the current time, with random bits.
pub fn uuid_v7() -> (r: Uuid)
    ensures
        (r.value >> 76u128) & 0xf == 7,
        (r.value >> 62u128) & 0x3 == 2,
{
    uuid_v7_from(crate::time::system_millis(), random_bits())
}

} // verus!
