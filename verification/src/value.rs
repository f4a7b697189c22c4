//! Typed key values and their order-preserving byte encoding.
//!
//! Every extracted key part is normalized into a byte string whose
//! dictionary order equals the semantic order (numbers by magnitude, dates by
//! instant, strings lexicographically, missing values first or last). The
//! in-memory sort, the spill files and the k-way merge all compare these
//! bytes directly, so a record's key is parsed exactly once.

use std::str::FromStr;

use vstd::prelude::*;

use crate::datetime;
use crate::double;
use crate::double::Double;
use crate::order;
use crate::text;

verus! {

/// Declared type of one key part (`str` is the default).
#[derive(Debug, Clone, Copy, PartialEq, Eq, Structural)]
pub enum KeyType {
    Str,
    Num,
    Date,
}

/// The type that a name stands for.
pub open spec fn key_type(name: Seq<char>) -> Option<KeyType> {
    if name == "str"@ || name == "string"@ {
        Some(KeyType::Str)
    } else if name == "num"@ || name == "number"@ {
        Some(KeyType::Num)
    } else if name == "date"@ || name == "datetime"@ || name == "time"@ {
        Some(KeyType::Date)
    } else {
        None
    }
}

/// The short name of a type.
pub open spec fn short_name(ty: KeyType) -> Seq<char> {
    match ty {
        KeyType::Str => "str"@,
        KeyType::Num => "num"@,
        KeyType::Date => "date"@,
    }
}

impl KeyType {
    pub fn name(self) -> (r: &'static str)
        ensures
            r@ == short_name(self),
    {
        match self {
            KeyType::Str => "str",
            KeyType::Num => "num",
            KeyType::Date => "date",
        }
    }

    /// The type with the given name or alias.
    pub fn from_name(s: &str) -> (r: Result<KeyType, String>)
        ensures
            match (r, key_type(s@)) {
                (Ok(a), Some(b)) => a == b,
                (Err(e), None) => e@ == "unknown key type '"@ + s@
                    + "' (expected str, num or date)"@,
                _ => false,
            },
    {
        if text::same_text(s, "str") || text::same_text(s, "string") {
            Ok(KeyType::Str)
        } else if text::same_text(s, "num") || text::same_text(s, "number") {
            Ok(KeyType::Num)
        } else if text::same_text(s, "date") || text::same_text(s, "datetime") || text::same_text(
            s,
            "time",
        ) {
            Ok(KeyType::Date)
        } else {
            Err(text::join3("unknown key type '", s, "' (expected str, num or date)"))
        }
    }
}

impl FromStr for KeyType {
    type Err = String;

    fn from_str(s: &str) -> (r: Result<Self, String>)
        ensures
            match (r, key_type(s@)) {
                (Ok(a), Some(b)) => a == b,
                (Err(e), None) => e@ == "unknown key type '"@ + s@
                    + "' (expected str, num or date)"@,
                _ => false,
            },
    {
        KeyType::from_name(s)
    }
}

/// Where records with a missing key part sort, relative to present values.
/// This placement is absolute: the per-key `desc` flag inverts value order
/// but never moves missing records.
#[derive(Debug, Clone, Copy, PartialEq, Eq, Structural)]
pub enum MissingOrder {
    First,
    Last,
}

/// One extracted, typed key part.
#[derive(Debug, PartialEq)]
pub enum KeyValue {
    Missing,
    /// Finite or infinite number. NaN is rejected at parse time.
    Num(Double),
    /// UTC epoch milliseconds.
    Date(i64),
    Str(String),
}

/// What a key part holds, as a mathematical value.
pub enum Part {
    Missing,
    Num(Double),
    Date(i64),
    Str(Seq<char>),
}

impl View for KeyValue {
    type V = Part;

    open spec fn view(&self) -> Part {
        match *self {
            KeyValue::Missing => Part::Missing,
            KeyValue::Num(n) => Part::Num(n),
            KeyValue::Date(ms) => Part::Date(ms),
            KeyValue::Str(s) => Part::Str(s@),
        }
    }
}

impl Clone for KeyValue {
    fn clone(&self) -> (r: Self)
        ensures
            r@ == self@,
    {
        match self {
            KeyValue::Missing => KeyValue::Missing,
            KeyValue::Num(n) => KeyValue::Num(*n),
            KeyValue::Date(ms) => KeyValue::Date(*ms),
            KeyValue::Str(s) => KeyValue::Str(text::owned(s.as_str())),
        }
    }
}

// ---------------------------------------------------------------------------
// Reading

/// The number that a field holds: standard number syntax within optional
/// white space, no NaN.
pub open spec fn number(field: Seq<char>) -> Result<Double, Seq<char>> {
    let t = text::trimmed(field);
    match double::reading(t) {
        None => Err("cannot parse "@ + text::shown_text(t) + " as a number"@),
        Some(n) => if n.is_nan() {
            Err("NaN is not sortable"@)
        } else {
            Ok(n)
        },
    }
}

/// The date that a field holds, within optional white space.
pub open spec fn date(field: Seq<char>) -> Result<Part, Seq<char>> {
    match datetime::instant(text::trimmed(field)) {
        Ok(ms) => Ok(Part::Date(ms as i64)),
        Err(e) => Err(e),
    }
}

/// The key part that a present field holds.
pub open spec fn typed(field: Seq<char>, ty: KeyType) -> Result<Part, Seq<char>> {
    match ty {
        KeyType::Str => Ok(Part::Str(field)),
        KeyType::Num => match number(field) {
            Ok(n) => Ok(Part::Num(n)),
            Err(e) => Err(e),
        },
        KeyType::Date => date(field),
    }
}

/// A result that holds the given part or the given error text.
pub open spec fn is_part(r: Result<KeyValue, String>, p: Result<Part, Seq<char>>) -> bool {
    match (r, p) {
        (Ok(a), Ok(b)) => a@ == b,
        (Err(a), Err(b)) => a@ == b,
        _ => false,
    }
}

impl KeyValue {
    /// Parse a raw text field according to the declared type. The caller has
    /// already decided the field is present (empty CSV fields and JSON nulls
    /// become [`KeyValue::Missing`] before this point).
    pub fn parse_typed(text: &str, ty: KeyType) -> (r: Result<KeyValue, String>)
        ensures
            is_part(r, typed(text@, ty)),
    {
        match ty {
            KeyType::Str => Ok(KeyValue::Str(text::owned(text))),
            KeyType::Num => match parse_num(text) {
                Ok(n) => Ok(KeyValue::Num(n)),
                Err(e) => Err(e),
            },
            KeyType::Date => parse_date(text),
        }
    }
}

/// Parse a date within optional surrounding white space.
pub fn parse_date(text: &str) -> (r: Result<KeyValue, String>)
    ensures
        is_part(r, date(text@)),
{
    let cs = text::chars_of(text);
    let t = text::string_of(text::trim(&cs));
    match datetime::parse_datetime(t.as_str()) {
        Ok(ms) => Ok(KeyValue::Date(ms)),
        Err(e) => Err(e),
    }
}

/// Parse a number the way spreadsheets export them: optional surrounding
/// white space, standard number syntax. NaN is rejected because it has no
/// place in a total order.
pub fn parse_num(text: &str) -> (r: Result<Double, String>)
    ensures
        match (r, number(text@)) {
            (Ok(a), Ok(b)) => a == b && !a.is_nan(),
            (Err(a), Err(b)) => a@ == b,
            _ => false,
        },
{
    let cs = text::chars_of(text);
    let t = text::trim(&cs);
    match Double::read(t) {
        None => {
            let q = text::shown(text::string_of(t).as_str());
            Err(text::join3("cannot parse ", q.as_str(), " as a number"))
        },
        Some(n) => if n.not_a_number() {
            Err(text::owned("NaN is not sortable"))
        } else {
            Ok(n)
        },
    }
}

// ---------------------------------------------------------------------------
// Encoding

// Presence tags. Chosen so that missing-first < present < missing-last under
// unsigned byte comparison, whichever placement is configured for the run.
/// The tag of a missing part that sorts first.
pub const TAG_MISSING_FIRST: u8 = 0x01;

/// The tag of a present part.
pub const TAG_PRESENT: u8 = 0x40;

/// The tag of a missing part that sorts last.
pub const TAG_MISSING_LAST: u8 = 0xfe;

/// The `w` low bytes of `n`, most significant first.
pub open spec fn big_endian(n: nat, w: nat) -> Seq<u8>
    decreases w,
{
    if w == 0 {
        Seq::empty()
    } else {
        big_endian(n / 256, (w - 1) as nat).push((n % 256) as u8)
    }
}

/// The place of a double in the row of all doubles: negative numbers get all
/// bits flipped, the others get the sign bit set. The two zeros have the same
/// place.
pub open spec fn ordered(n: Double) -> nat {
    if n.negative() && n.magnitude() > 0 {
        (u64::MAX - n.bits) as nat
    } else {
        n.magnitude() + double::SIGN as nat
    }
}

/// `bytes` with every zero byte followed by a one.
pub open spec fn escaped(bytes: Seq<u8>) -> Seq<u8>
    decreases bytes.len(),
{
    if bytes.len() == 0 {
        Seq::empty()
    } else if bytes.last() == 0 {
        escaped(bytes.drop_last()) + seq![0u8, 1u8]
    } else {
        escaped(bytes.drop_last()).push(bytes.last())
    }
}

/// The bytes of a part behind its tag. Each encoding delimits itself: fixed
/// width for numbers and dates, two zero bytes at the end of a string.
pub open spec fn value_bytes(part: Part) -> Seq<u8> {
    match part {
        Part::Missing => Seq::empty(),
        Part::Num(n) => big_endian(ordered(n), 8),
        Part::Date(ms) => big_endian((ms + double::SIGN) as nat, 8),
        Part::Str(s) => escaped(vstd::utf8::encode_utf8(s)) + seq![0u8, 0u8],
    }
}

/// The tag byte of a part.
pub open spec fn tag(part: Part, missing: MissingOrder) -> u8 {
    match (part, missing) {
        (Part::Missing, MissingOrder::First) => TAG_MISSING_FIRST,
        (Part::Missing, MissingOrder::Last) => TAG_MISSING_LAST,
        _ => TAG_PRESENT,
    }
}

/// The encoding of one part: its tag, then the value bytes, complemented if
/// the part sorts in descending order.
pub open spec fn encoding(part: Part, desc: bool, missing: MissingOrder) -> Seq<u8> {
    seq![tag(part, missing)] + (if desc {
        order::inverted(value_bytes(part))
    } else {
        value_bytes(part)
    })
}

/// Append the `w` low bytes of `n`, most significant first.
pub fn push_big_endian(out: &mut Vec<u8>, n: u64, w: u8)
    ensures
        final(out)@ == old(out)@ + big_endian(n as nat, w as nat),
    decreases w,
{
    if w > 0 {
        push_big_endian(out, n / 256, w - 1);
        out.push((n % 256) as u8);
    }
    assert(out@ =~= old(out)@ + big_endian(n as nat, w as nat));
}

/// Escape 0x00 as 0x00 0x01 and terminate with 0x00 0x00. The terminator is
/// smaller than any escaped continuation, so "a" < "a\0" < "ab" holds and
/// no encoding is a prefix of another.
fn encode_str(out: &mut Vec<u8>, bytes: &[u8])
    ensures
        final(out)@ == old(out)@ + (escaped(bytes@) + seq![0u8, 0u8]),
{
    let mut i: usize = 0;
    assert(out@ =~= old(out)@ + escaped(bytes@.take(0)));
    while i < bytes.len()
        invariant
            i <= bytes@.len(),
            out@ == old(out)@ + escaped(bytes@.take(i as int)),
        decreases bytes@.len() - i,
    {
        assert(bytes@.take(i + 1).drop_last() =~= bytes@.take(i as int));
        let b = bytes[i];
        out.push(b);
        if b == 0 {
            out.push(1);
        }
        i += 1;
        assert(out@ =~= old(out)@ + escaped(bytes@.take(i as int)));
    }
    assert(bytes@.take(bytes@.len() as int) =~= bytes@);
    out.push(0);
    out.push(0);
    assert(out@ =~= old(out)@ + (escaped(bytes@) + seq![0u8, 0u8]));
}

/// Append the order-preserving encoding of one key part to `out`.
///
/// Layout: one presence tag byte, then (present values only) the encoded
/// value. `desc` inverts the value bytes; the tag is left alone so missing
/// placement stays absolute. Every encoding delimits itself, so concatenated
/// parts compare part by part under a single byte comparison.
pub fn encode_into(out: &mut Vec<u8>, value: &KeyValue, desc: bool, missing: MissingOrder)
    ensures
        final(out)@ == old(out)@ + encoding(value@, desc, missing),
{
    let ghost before = out@;
    let t: u8 = match (value, missing) {
        (KeyValue::Missing, MissingOrder::First) => TAG_MISSING_FIRST,
        (KeyValue::Missing, MissingOrder::Last) => TAG_MISSING_LAST,
        _ => TAG_PRESENT,
    };
    out.push(t);
    let start: usize = out.len();
    match value {
        KeyValue::Missing => {},
        KeyValue::Num(n) => {
            let o: u64 = if n.bits > double::SIGN {
                u64::MAX - n.bits
            } else if n.bits == double::SIGN {
                double::SIGN
            } else {
                n.bits + double::SIGN
            };
            push_big_endian(out, o, 8);
        },
        KeyValue::Date(ms) => {
            let o: u64 = (*ms as i128 + 0x8000_0000_0000_0000) as u64;
            push_big_endian(out, o, 8);
        },
        KeyValue::Str(s) => encode_str(out, s.as_str().as_bytes()),
    }
    assert(out@ =~= before.push(t) + value_bytes(value@));
    assert(out@.take(start as int) =~= before.push(t));
    assert(out@.skip(start as int) =~= value_bytes(value@));
    if desc {
        order::invert_from(out, start);
    }
    assert(out@ =~= before + encoding(value@, desc, missing));
}

} // verus!
