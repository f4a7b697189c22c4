//! Turns raw records into order-preserving encoded sort keys.
//!
//! One extractor is built per run from the parsed key specs; it splits CSV
//! fields or parses the JSONL object exactly once per record, converts each
//! addressed field to a typed [`KeyValue`], and concatenates the encoded
//! parts. A global `--reverse` is applied here by inverting the finished key
//! bytes, so every later stage (sort, spill, merge, check) can compare keys
//! byte by byte and stay policy-free.

use vstd::prelude::*;

use crate::csv;
use crate::csv::split_fields;
use crate::double;
use crate::json;
use crate::json::{Json, JsonValue};
use crate::keyorder;
use crate::keyspec;
use crate::keyspec::{resolve_csv_column, resolve_csv_index, ColRef, Key, KeySpec};
use crate::order;
use crate::render;
use crate::text;
use crate::value;
use crate::value::{encode_into, parse_date, parse_num, KeyType, KeyValue, MissingOrder, Part};

verus! {

/// Input format, decided by `--format` or auto-detection.
#[derive(Debug, Clone, Copy, PartialEq, Eq, Structural)]
pub enum Format {
    Csv,
    Jsonl,
}

impl Format {
    pub fn name(self) -> (r: &'static str)
        ensures
            r@ == (match self {
                Format::Csv => "csv"@,
                Format::Jsonl => "jsonl"@,
            }),
    {
        match self {
            Format::Csv => "csv",
            Format::Jsonl => "jsonl",
        }
    }
}

// ---------------------------------------------------------------------------
// What the key of a record is

/// What an extractor goes by.
pub struct Rules {
    pub format: Format,
    pub keys: Seq<Key>,
    /// Resolved CSV column per key (CSV only).
    pub cols: Seq<ColRef>,
    /// JSONL path per key (JSONL only).
    pub paths: Seq<Seq<Seq<char>>>,
    pub delim: u8,
    pub missing: MissingOrder,
    pub lenient: bool,
    pub reverse: bool,
}

/// The paths that the keys mean: none for CSV.
pub open spec fn paths_of(format: Format, keys: Seq<Key>) -> Seq<Seq<Seq<char>>> {
    match format {
        Format::Csv => Seq::empty(),
        Format::Jsonl => Seq::new(keys.len(), |i: int| text::pieces(keys[i].field, '.')),
    }
}

/// A record taken apart: the fields of a CSV record or a JSON value.
pub enum Content {
    Csv(Seq<Seq<char>>),
    Json(JsonValue),
}

/// A value that could not be converted: missing if `lenient`, else an error
/// that names the field.
pub open spec fn settled(part: Result<Part, Seq<char>>, key: Key, lenient: bool) -> Result<
    Part,
    Seq<char>,
> {
    match part {
        Ok(p) => Ok(p),
        Err(e) => if lenient {
            Ok(Part::Missing)
        } else {
            Err("field '"@ + key.field + "': "@ + e)
        },
    }
}

/// The text of a field as its key compares it.
pub open spec fn folded(s: Seq<char>, key: Key) -> Seq<char> {
    if key.ci {
        text::lower_text(s)
    } else {
        s
    }
}

/// What kind of JSON value this is.
pub open spec fn kind(v: JsonValue) -> Seq<char> {
    match v {
        JsonValue::Null => "null"@,
        JsonValue::Bool(_) => "boolean"@,
        JsonValue::Num(_) => "number"@,
        JsonValue::Str(_) => "string"@,
        JsonValue::Arr(_) => "array"@,
        JsonValue::Obj(_) => "object"@,
    }
}

/// A present JSON value as a key part of the declared type. Numbers and
/// booleans under `str` are written the way JSON writes them; a number under
/// `date` is Unix epoch seconds.
pub open spec fn json_part(key: Key, v: JsonValue) -> Result<Part, Seq<char>> {
    match (key.ty, v) {
        (KeyType::Num, JsonValue::Num(n)) => Ok(Part::Num(n)),
        (KeyType::Num, JsonValue::Str(s)) => match value::number(s) {
            Ok(n) => Ok(Part::Num(n)),
            Err(e) => Err(e),
        },
        (KeyType::Str, JsonValue::Str(s)) => Ok(Part::Str(folded(s, key))),
        (KeyType::Str, JsonValue::Num(n)) => Ok(Part::Str(render::json_number_text(n))),
        (KeyType::Str, JsonValue::Bool(b)) => Ok(
            Part::Str(if b {
                "true"@
            } else {
                "false"@
            }),
        ),
        (KeyType::Date, JsonValue::Str(s)) => value::date(s),
        (KeyType::Date, JsonValue::Num(n)) => match double::milliseconds(n) {
            Some(ms) => Ok(Part::Date(ms as i64)),
            None => Err(render::double_text(n) + " is out of range for an epoch date"@),
        },
        (ty, _) => Err("cannot read a JSON "@ + kind(v) + " as "@ + value::short_name(ty)),
    }
}

/// The part of a record that key `i` addresses. An absent column, an empty
/// field, an absent path and a JSON `null` are missing.
pub open spec fn part(rules: Rules, content: Content, i: int) -> Result<Part, Seq<char>> {
    let key = rules.keys[i];
    match content {
        Content::Csv(fields) => {
            let ColRef::Index(col) = rules.cols[i];
            if col >= fields.len() || fields[col as int].len() == 0 {
                Ok(Part::Missing)
            } else {
                settled(
                    value::typed(folded(fields[col as int], key), key.ty),
                    key,
                    rules.lenient,
                )
            }
        },
        Content::Json(v) => match json::found(v, text::pieces(key.field, '.')) {
            None => Ok(Part::Missing),
            Some(JsonValue::Null) => Ok(Part::Missing),
            Some(w) => settled(json_part(key, w), key, rules.lenient),
        },
    }
}

/// The parts that the first `n` keys address, or the first error.
pub open spec fn parts(rules: Rules, content: Content, n: nat) -> Result<Seq<Part>, Seq<char>>
    decreases n,
{
    if n == 0 {
        Ok(Seq::empty())
    } else {
        match parts(rules, content, (n - 1) as nat) {
            Err(e) => Err(e),
            Ok(done) => match part(rules, content, n - 1) {
                Err(e) => Err(e),
                Ok(p) => Ok(done.push(p)),
            },
        }
    }
}

/// The record taken apart.
pub open spec fn content(rules: Rules, raw: Seq<u8>) -> Result<Content, Seq<char>> {
    match rules.format {
        Format::Csv => Ok(Content::Csv(csv::fields(raw, rules.delim))),
        Format::Jsonl => if !vstd::utf8::valid_utf8(raw) {
            Err("invalid UTF-8"@)
        } else {
            match json::document(vstd::utf8::decode_utf8(raw)) {
                Ok(v) => Ok(Content::Json(v)),
                Err(e) => Err("invalid JSON: "@ + e),
            }
        },
    }
}

/// The key parts of a record: what the keys address, or without any key the
/// whole record as one string.
pub open spec fn record_parts(rules: Rules, raw: Seq<u8>) -> Result<Seq<Part>, Seq<char>> {
    if rules.keys.len() == 0 {
        Ok(seq![Part::Str(text::readable_text(raw))])
    } else {
        match content(rules, raw) {
            Err(e) => Err(e),
            Ok(c) => parts(rules, c, rules.keys.len()),
        }
    }
}

/// Which parts sort in descending order.
pub open spec fn directions(keys: Seq<Key>) -> Seq<bool> {
    if keys.len() == 0 {
        seq![false]
    } else {
        Seq::new(keys.len(), |i: int| keys[i].desc)
    }
}

/// The encoded key of a record: its encoded parts one after the other,
/// complemented under `reverse`.
pub open spec fn record_key(rules: Rules, raw: Seq<u8>) -> Result<Seq<u8>, Seq<char>> {
    match record_parts(rules, raw) {
        Err(e) => Err(e),
        Ok(ps) => {
            let plain = keyorder::key_bytes(ps, directions(rules.keys), rules.missing);
            Ok(if rules.reverse {
                order::inverted(plain)
            } else {
                plain
            })
        },
    }
}

/// The columns that the keys mean, by `which`, or the first error.
pub open spec fn columns(
    keys: Seq<Key>,
    which: spec_fn(Seq<char>) -> Result<ColRef, Seq<char>>,
    n: nat,
) -> Result<Seq<ColRef>, Seq<char>>
    decreases n,
{
    if n == 0 {
        Ok(Seq::empty())
    } else {
        match columns(keys, which, (n - 1) as nat) {
            Err(e) => Err(e),
            Ok(done) => match which(keys[n - 1].field) {
                Err(e) => Err(e),
                Ok(c) => Ok(done.push(c)),
            },
        }
    }
}

/// The columns that the keys mean under a header.
pub open spec fn header_columns(keys: Seq<Key>, header: Seq<Seq<char>>) -> Result<
    Seq<ColRef>,
    Seq<char>,
> {
    columns(keys, |field: Seq<char>| keyspec::column(field, header), keys.len())
}

/// The columns that the keys mean without a header.
pub open spec fn numbered_columns(keys: Seq<Key>) -> Result<Seq<ColRef>, Seq<char>> {
    columns(keys, |field: Seq<char>| keyspec::column_number(field), keys.len())
}

// ---------------------------------------------------------------------------
// The extractor

pub struct Extractor {
    pub format: Format,
    pub specs: Vec<KeySpec>,
    /// Resolved CSV column per spec (parallel to `specs`; CSV only).
    pub cols: Vec<ColRef>,
    /// Pre-split JSONL path per spec (parallel to `specs`; JSONL only).
    pub paths: Vec<Vec<String>>,
    pub delim: u8,
    pub missing: MissingOrder,
    pub lenient: bool,
    pub reverse: bool,
}

impl View for Extractor {
    type V = Rules;

    open spec fn view(&self) -> Rules {
        Rules {
            format: self.format,
            keys: keyspec::keys(self.specs@),
            cols: self.cols@,
            paths: Seq::new(self.paths@.len(), |i: int| text::texts(self.paths@[i]@)),
            delim: self.delim,
            missing: self.missing,
            lenient: self.lenient,
            reverse: self.reverse,
        }
    }
}

/// Whether the columns of all keys are known where they are needed.
pub open spec fn resolved(rules: Rules) -> bool {
    rules.format == Format::Csv && rules.keys.len() > 0 ==> rules.cols.len() == rules.keys.len()
}

impl Extractor {
    /// Whether the paths are those of the key specs.
    pub open spec fn well_formed(&self) -> bool {
        self@.paths == paths_of(self.format, self@.keys)
    }

    pub fn new(
        format: Format,
        specs: Vec<KeySpec>,
        delim: u8,
        missing: MissingOrder,
        lenient: bool,
        reverse: bool,
    ) -> (r: Extractor)
        ensures
            r.well_formed(),
            r@ == (Rules {
                format,
                keys: keyspec::keys(specs@),
                cols: Seq::empty(),
                paths: paths_of(format, keyspec::keys(specs@)),
                delim,
                missing,
                lenient,
                reverse,
            }),
    {
        let mut paths: Vec<Vec<String>> = Vec::new();
        if format == Format::Jsonl {
            let mut i: usize = 0;
            while i < specs.len()
                invariant
                    i <= specs@.len(),
                    paths@.len() == i,
                    forall|k: int|
                        0 <= k < i ==> text::texts((#[trigger] paths@[k])@) == text::pieces(
                            specs@[k].field@,
                            '.',
                        ),
                decreases specs@.len() - i,
            {
                paths.push(specs[i].path());
                i += 1;
            }
        }
        let r = Extractor {
            format,
            specs,
            cols: Vec::new(),
            paths,
            delim,
            missing,
            lenient,
            reverse,
        };
        assert(r@.paths =~= paths_of(format, keyspec::keys(specs@)));
        r
    }

    /// Resolve CSV key selectors against the header record.
    pub fn resolve_csv_header(&mut self, header_raw: &[u8]) -> (r: Result<(), String>)
        requires
            old(self).well_formed(),
        ensures
            final(self).well_formed(),
            match (r, header_columns(old(self)@.keys, csv::fields(header_raw@, old(self)@.delim))) {
                (Ok(()), Ok(cols)) => final(self)@ == (Rules { cols, ..old(self)@ }),
                (Err(a), Err(b)) => a@ == b && final(self)@ == old(self)@,
                _ => false,
            },
    {
        let header = split_fields(header_raw, self.delim);
        let ghost names = text::texts(header@);
        let ghost which = |field: Seq<char>| keyspec::column(field, names);
        let ghost all = keyspec::keys(self.specs@);
        let mut cols: Vec<ColRef> = Vec::new();
        let mut i: usize = 0;
        assert(cols@ =~= Seq::<ColRef>::empty());
        while i < self.specs.len()
            invariant
                i <= self.specs@.len(),
                all == keyspec::keys(self.specs@),
                *self == *old(self),
                self.well_formed(),
                names == text::texts(header@),
                names == csv::fields(header_raw@, old(self)@.delim),
                which == (|field: Seq<char>| keyspec::column(field, names)),
                columns(all, which, i as nat) == Ok::<Seq<ColRef>, Seq<char>>(cols@),
            decreases self.specs@.len() - i,
        {
            match resolve_csv_column(self.specs[i].field.as_str(), &header) {
                Ok(c) => {
                    cols.push(c);
                },
                Err(e) => {
                    proof {
                        lemma_columns_fail(all, which, (i + 1) as nat, all.len());
                    }
                    return Err(e);
                },
            }
            i += 1;
        }
        self.cols = cols;
        Ok(())
    }

    /// Resolve CSV key selectors as 1-based indices (`--no-header`).
    pub fn resolve_csv_headerless(&mut self) -> (r: Result<(), String>)
        requires
            old(self).well_formed(),
        ensures
            final(self).well_formed(),
            match (r, numbered_columns(old(self)@.keys)) {
                (Ok(()), Ok(cols)) => final(self)@ == (Rules { cols, ..old(self)@ }),
                (Err(a), Err(b)) => a@ == b && final(self)@ == old(self)@,
                _ => false,
            },
    {
        let ghost which = |field: Seq<char>| keyspec::column_number(field);
        let ghost all = keyspec::keys(self.specs@);
        let mut cols: Vec<ColRef> = Vec::new();
        let mut i: usize = 0;
        assert(cols@ =~= Seq::<ColRef>::empty());
        while i < self.specs.len()
            invariant
                i <= self.specs@.len(),
                all == keyspec::keys(self.specs@),
                *self == *old(self),
                self.well_formed(),
                which == (|field: Seq<char>| keyspec::column_number(field)),
                columns(all, which, i as nat) == Ok::<Seq<ColRef>, Seq<char>>(cols@),
            decreases self.specs@.len() - i,
        {
            match resolve_csv_index(self.specs[i].field.as_str()) {
                Ok(c) => {
                    cols.push(c);
                },
                Err(e) => {
                    proof {
                        lemma_columns_fail(all, which, (i + 1) as nat, all.len());
                    }
                    return Err(e);
                },
            }
            i += 1;
        }
        self.cols = cols;
        Ok(())
    }
}

proof fn lemma_columns_fail(
    keys: Seq<Key>,
    which: spec_fn(Seq<char>) -> Result<ColRef, Seq<char>>,
    m: nat,
    n: nat,
)
    requires
        m <= n,
        columns(keys, which, m) is Err,
    ensures
        columns(keys, which, n) == columns(keys, which, m),
    decreases n - m,
{
    if m < n {
        lemma_columns_fail(keys, which, m, (n - 1) as nat);
    }
}

proof fn lemma_parts_fail(rules: Rules, content: Content, m: nat, n: nat)
    requires
        m <= n,
        parts(rules, content, m) is Err,
    ensures
        parts(rules, content, n) == parts(rules, content, m),
    decreases n - m,
{
    if m < n {
        lemma_parts_fail(rules, content, m, (n - 1) as nat);
    }
}

proof fn lemma_key_bytes_grow(keys: Seq<Key>, ps: Seq<Part>, p: Part, missing: MissingOrder)
    requires
        ps.len() < keys.len(),
    ensures
        keyorder::key_bytes(
            ps.push(p),
            directions(keys).take(ps.len() as int + 1),
            missing,
        ) == keyorder::key_bytes(ps, directions(keys).take(ps.len() as int), missing)
            + value::encoding(p, keys[ps.len() as int].desc, missing),
{
    let d = directions(keys);
    let n = ps.len() as int;
    assert(d.take(n + 1) =~= d.take(n).push(d[n]));
    keyorder::lemma_key_bytes_push(ps, d.take(n), missing, p, d[n]);
}

/// What kind of JSON value this is.
fn json_kind(v: &Json) -> (r: &'static str)
    ensures
        r@ == kind(v@),
{
    match v {
        Json::Null => "null",
        Json::Bool(_) => "boolean",
        Json::Num(_) => "number",
        Json::Str(_) => "string",
        Json::Arr(_) => "array",
        Json::Obj(_) => "object",
    }
}

/// Convert a present JSON value to the declared key type.
fn json_value(spec: &KeySpec, v: &Json) -> (r: Result<KeyValue, String>)
    ensures
        value::is_part(r, json_part(spec@, v@)),
{
    match (spec.ty, v) {
        (KeyType::Num, Json::Num(n)) => Ok(KeyValue::Num(*n)),
        (KeyType::Num, Json::Str(s)) => match parse_num(s.as_str()) {
            Ok(n) => Ok(KeyValue::Num(n)),
            Err(e) => Err(e),
        },
        (KeyType::Str, Json::Str(s)) => if spec.ci {
            Ok(KeyValue::Str(text::lowered(s.as_str())))
        } else {
            Ok(KeyValue::Str(text::owned(s.as_str())))
        },
        // Scalars render the way JSON writes them, so `str` keys still work
        // on mixed columns.
        (KeyType::Str, Json::Num(n)) => Ok(KeyValue::Str(n.to_json_text())),
        (KeyType::Str, Json::Bool(b)) => if *b {
            Ok(KeyValue::Str(text::owned("true")))
        } else {
            Ok(KeyValue::Str(text::owned("false")))
        },
        (KeyType::Date, Json::Str(s)) => parse_date(s.as_str()),
        // A JSON number under a date key is Unix epoch *seconds*.
        (KeyType::Date, Json::Num(n)) => match n.to_milliseconds() {
            Some(ms) => Ok(KeyValue::Date(ms)),
            None => Err(text::join2(n.to_text().as_str(), " is out of range for an epoch date")),
        },
        (ty, other) => Err(text::join4("cannot read a JSON ", json_kind(other), " as ", ty.name())),
    }
}

impl Extractor {
    /// What becomes of a converted value: itself, or where that failed a
    /// missing part or an error that names the field.
    fn settle(&self, value: Result<KeyValue, String>, spec: &KeySpec) -> (r: Result<
        KeyValue,
        String,
    >)
        ensures
            forall|p: Result<Part, Seq<char>>|
                #[trigger] value::is_part(value, p) ==> value::is_part(
                    r,
                    settled(p, spec@, self.lenient),
                ),
    {
        match value {
            Ok(v) => Ok(v),
            Err(e) => if self.lenient {
                Ok(KeyValue::Missing)
            } else {
                Err(text::join4("field '", spec.field.as_str(), "': ", e.as_str()))
            },
        }
    }

    /// Convert a present CSV field to the declared key type.
    fn parse_field(&self, spec: &KeySpec, text: &str) -> (r: Result<KeyValue, String>)
        ensures
            value::is_part(
                r,
                settled(value::typed(folded(text@, spec@), spec.ty), spec@, self.lenient),
            ),
    {
        let value = if spec.ci {
            let low = text::lowered(text);
            KeyValue::parse_typed(low.as_str(), spec.ty)
        } else {
            KeyValue::parse_typed(text, spec.ty)
        };
        self.settle(value, spec)
    }

    /// Append the key of a CSV record.
    fn csv_key(&self, raw: &[u8], key: &mut Vec<u8>) -> (r: Result<(), String>)
        requires
            self.well_formed(),
            self.format == Format::Csv,
            self.cols@.len() == self.specs@.len(),
            self.specs@.len() > 0,
            old(key)@.len() == 0,
        ensures
            match (r, record_parts(self@, raw@)) {
                (Ok(()), Ok(ps)) => final(key)@ == keyorder::key_bytes(
                    ps,
                    directions(self@.keys),
                    self.missing,
                ),
                (Err(a), Err(b)) => a@ == b,
                _ => false,
            },
    {
        let fields = split_fields(raw, self.delim);
        let ghost c = Content::Csv(csv::fields(raw@, self.delim));
        let ghost keys = self@.keys;
        let ghost mut ps: Seq<Part> = Seq::empty();
        let mut i: usize = 0;
        let n: usize = self.specs.len();
        assert(key@ =~= keyorder::key_bytes(ps, directions(keys).take(0), self.missing));
        while i < n
            invariant
                i <= n,
                n == self.specs@.len(),
                n == self.cols@.len(),
                n > 0,
                keys == self@.keys,
                keys.len() == n,
                self.format == Format::Csv,
                c == Content::Csv(csv::fields(raw@, self.delim)),
                text::texts(fields@) == csv::fields(raw@, self.delim),
                record_parts(self@, raw@) == parts(self@, c, n as nat),
                ps.len() == i,
                parts(self@, c, i as nat) == Ok::<Seq<Part>, Seq<char>>(ps),
                key@ == keyorder::key_bytes(ps, directions(keys).take(i as int), self.missing),
            decreases n - i,
        {
            let spec = &self.specs[i];
            let ColRef::Index(col) = self.cols[i];
            // An absent column and an empty field both mean "missing": CSV
            // has no other way to express null.
            let value = if col >= fields.len() || is_empty_text(fields[col].as_str()) {
                Ok(KeyValue::Missing)
            } else {
                self.parse_field(spec, fields[col].as_str())
            };
            proof {
                assert(keys[i as int] == spec@);
                assert(value::is_part(value, part(self@, c, i as int)));
            }
            match value {
                Ok(v) => {
                    encode_into(key, &v, spec.desc, self.missing);
                    proof {
                        lemma_key_bytes_grow(keys, ps, v@, self.missing);
                        ps = ps.push(v@);
                    }
                },
                Err(e) => {
                    proof {
                        lemma_parts_fail(self@, c, (i + 1) as nat, n as nat);
                    }
                    return Err(e);
                },
            }
            i += 1;
        }
        assert(directions(keys).take(n as int) =~= directions(keys));
        Ok(())
    }

    /// Append the key of a JSONL record.
    fn jsonl_key(&self, raw: &[u8], key: &mut Vec<u8>) -> (r: Result<(), String>)
        requires
            self.well_formed(),
            self.format == Format::Jsonl,
            self.specs@.len() > 0,
            old(key)@.len() == 0,
        ensures
            match (r, record_parts(self@, raw@)) {
                (Ok(()), Ok(ps)) => final(key)@ == keyorder::key_bytes(
                    ps,
                    directions(self@.keys),
                    self.missing,
                ),
                (Err(a), Err(b)) => a@ == b,
                _ => false,
            },
    {
        let text = match text::utf8_text(raw) {
            Some(t) => t,
            None => {
                return Err(text::owned("invalid UTF-8"));
            },
        };
        let doc = match json::parse(text) {
            Ok(d) => d,
            Err(e) => {
                return Err(text::join2("invalid JSON: ", e.as_str()));
            },
        };
        let ghost c = Content::Json(doc@);
        let ghost keys = self@.keys;
        let ghost mut ps: Seq<Part> = Seq::empty();
        let mut i: usize = 0;
        let n: usize = self.specs.len();
        assert(key@ =~= keyorder::key_bytes(ps, directions(keys).take(0), self.missing));
        proof {
            assert(self@.paths.len() == n);
            assert forall|k: int| 0 <= k < n implies text::texts((#[trigger] self.paths@[k])@)
                == text::pieces(keys[k].field, '.') by {
                assert(self@.paths[k] == paths_of(self.format, keys)[k]);
            }
        }
        while i < n
            invariant
                i <= n,
                n == self.specs@.len(),
                n > 0,
                self.format == Format::Jsonl,
                self.paths@.len() == n,
                forall|k: int|
                    0 <= k < n ==> text::texts((#[trigger] self.paths@[k])@) == text::pieces(
                        keys[k].field,
                        '.',
                    ),
                keys == self@.keys,
                keys.len() == n,
                c == Content::Json(doc@),
                record_parts(self@, raw@) == parts(self@, c, n as nat),
                ps.len() == i,
                parts(self@, c, i as nat) == Ok::<Seq<Part>, Seq<char>>(ps),
                key@ == keyorder::key_bytes(ps, directions(keys).take(i as int), self.missing),
            decreases n - i,
        {
            let spec = &self.specs[i];
            assert(keys[i as int] == spec@);
            let value = match json::lookup(&doc, &self.paths[i]) {
                None => Ok(KeyValue::Missing),
                Some(Json::Null) => Ok(KeyValue::Missing),
                Some(v) => self.settle(json_value(spec, v), spec),
            };
            assert(value::is_part(value, part(self@, c, i as int)));
            match value {
                Ok(v) => {
                    encode_into(key, &v, spec.desc, self.missing);
                    proof {
                        lemma_key_bytes_grow(keys, ps, v@, self.missing);
                        ps = ps.push(v@);
                    }
                },
                Err(e) => {
                    proof {
                        lemma_parts_fail(self@, c, (i + 1) as nat, n as nat);
                    }
                    return Err(e);
                },
            }
            i += 1;
        }
        assert(directions(keys).take(n as int) =~= directions(keys));
        Ok(())
    }

    /// Build the encoded key for one raw record. Errors name the offending
    /// field; the caller adds the record's location.
    pub fn key_for(&self, raw: &[u8]) -> (r: Result<Vec<u8>, String>)
        requires
            self.well_formed(),
            resolved(self@),
        ensures
            match (r, record_key(self@, raw@)) {
                (Ok(a), Ok(b)) => a@ == b,
                (Err(a), Err(b)) => a@ == b,
                _ => false,
            },
    {
        let mut key: Vec<u8> = Vec::new();
        if self.specs.len() == 0 {
            // No --key: the whole record, compared as a string. This mirrors
            // GNU sort's whole-line default but still quote-safe.
            let whole = KeyValue::Str(text::readable(raw));
            encode_into(&mut key, &whole, false, self.missing);
            proof {
                let ps = seq![whole@];
                let d = seq![false];
                assert(ps =~= Seq::<Part>::empty().push(whole@));
                assert(d =~= Seq::<bool>::empty().push(false));
                keyorder::lemma_key_bytes_push(
                    Seq::empty(),
                    Seq::empty(),
                    self.missing,
                    whole@,
                    false,
                );
                assert(key@ =~= keyorder::key_bytes(ps, d, self.missing));
            }
        } else {
            let done = match self.format {
                Format::Csv => self.csv_key(raw, &mut key),
                Format::Jsonl => self.jsonl_key(raw, &mut key),
            };
            match done {
                Ok(()) => {},
                Err(e) => {
                    return Err(e);
                },
            }
        }
        if self.reverse {
            let ghost plain = key@;
            order::invert_from(&mut key, 0);
            assert(plain.skip(0) =~= plain);
            assert(key@ =~= order::inverted(plain));
        }
        Ok(key)
    }
}

/// Whether `s` is empty.
fn is_empty_text(s: &str) -> (r: bool)
    ensures
        r == (s@.len() == 0),
{
    let cs = text::chars_of(s);
    cs.len() == 0
}

// ---------------------------------------------------------------------------
// Laws

/// A part that a key of the given type can have.
pub open spec fn has_type(p: Part, ty: KeyType) -> bool {
    match (p, ty) {
        (Part::Missing, _) => true,
        (Part::Num(n), KeyType::Num) => !n.is_nan(),
        (Part::Date(_), KeyType::Date) => true,
        (Part::Str(_), KeyType::Str) => true,
        _ => false,
    }
}

proof fn lemma_part_type(rules: Rules, content: Content, i: int)
    requires
        content matches Content::Json(v) ==> json::sound(v),
    ensures
        part(rules, content, i) matches Ok(p) ==> has_type(p, rules.keys[i].ty),
{
    let key = rules.keys[i];
    if let Content::Json(v) = content {
        json::lemma_found_sound(v, text::pieces(key.field, '.'));
    }
}

proof fn lemma_parts_type(rules: Rules, content: Content, n: nat)
    requires
        content matches Content::Json(v) ==> json::sound(v),
        parts(rules, content, n) is Ok,
    ensures
        parts(rules, content, n)->Ok_0.len() == n,
        forall|i: int|
            0 <= i < n ==> has_type(
                #[trigger] parts(rules, content, n)->Ok_0[i],
                rules.keys[i].ty,
            ),
    decreases n,
{
    if n > 0 {
        lemma_parts_type(rules, content, (n - 1) as nat);
        lemma_part_type(rules, content, n - 1);
    }
}

pub proof fn lemma_record_parts_comparable(rules: Rules, a: Seq<u8>, b: Seq<u8>)
    requires
        record_parts(rules, a) is Ok,
        record_parts(rules, b) is Ok,
    ensures
        keyorder::all_comparable(record_parts(rules, a)->Ok_0, record_parts(rules, b)->Ok_0),
        record_parts(rules, a)->Ok_0.len() == directions(rules.keys).len(),
{
    if rules.keys.len() > 0 {
        let n = rules.keys.len();
        let ca = content(rules, a)->Ok_0;
        let cb = content(rules, b)->Ok_0;
        json::law_numbers_are_numbers(vstd::utf8::decode_utf8(a));
        json::law_numbers_are_numbers(vstd::utf8::decode_utf8(b));
        lemma_parts_type(rules, ca, n);
        lemma_parts_type(rules, cb, n);
        let pa = parts(rules, ca, n)->Ok_0;
        let pb = parts(rules, cb, n)->Ok_0;
        assert forall|i: int| 0 <= i < pa.len() implies keyorder::comparable(
            #[trigger] pa[i],
            #[trigger] pb[i],
        ) by {
            assert(has_type(pa[i], rules.keys[i].ty));
            assert(has_type(pb[i], rules.keys[i].ty));
        }
    }
}

/// The keys of two records compare as the values they were made of: key by
/// key in the order given, typed, in ascending or descending order, missing
/// parts where they are placed, and all of it turned around by `reverse`.
/// Keys are the same bytes exactly where all parts are the same.
pub proof fn law_keys_compare_as_values(rules: Rules, a: Seq<u8>, b: Seq<u8>)
    requires
        record_parts(rules, a) is Ok,
        record_parts(rules, b) is Ok,
    ensures
        ({
            let pa = record_parts(rules, a)->Ok_0;
            let pb = record_parts(rules, b)->Ok_0;
            let d = directions(rules.keys);
            let ka = record_key(rules, a)->Ok_0;
            let kb = record_key(rules, b)->Ok_0;
            &&& order::bytes_lt(ka, kb) <==> (if rules.reverse {
                keyorder::parts_before(pb, pa, d, rules.missing)
            } else {
                keyorder::parts_before(pa, pb, d, rules.missing)
            })
            &&& ka == kb <==> keyorder::same_values(pa, pb)
        }),
{
    let pa = record_parts(rules, a)->Ok_0;
    let pb = record_parts(rules, b)->Ok_0;
    let d = directions(rules.keys);
    lemma_record_parts_comparable(rules, a, b);
    keyorder::law_parts_compare_in_order(pa, pb, d, rules.missing);
    keyorder::law_reverse_flips_the_order(pa, pb, d, rules.missing);
    if pa != pb {
        let ka = keyorder::key_bytes(pa, d, rules.missing);
        let kb = keyorder::key_bytes(pb, d, rules.missing);
        order::lemma_shared(ka, kb);
    }
}

/// Under `lenient` no value is an error: a CSV record always has a key, and
/// a JSONL record has one wherever it is valid JSON.
pub proof fn law_lenient_values_never_fail(rules: Rules, raw: Seq<u8>)
    requires
        rules.lenient,
    ensures
        rules.format == Format::Csv ==> record_key(rules, raw) is Ok,
        content(rules, raw) is Ok ==> record_key(rules, raw) is Ok,
{
    if let Ok(c) = content(rules, raw) {
        lemma_lenient_parts(rules, c, rules.keys.len());
    }
}

proof fn lemma_lenient_parts(rules: Rules, content: Content, n: nat)
    requires
        rules.lenient,
    ensures
        parts(rules, content, n) is Ok,
    decreases n,
{
    if n > 0 {
        lemma_lenient_parts(rules, content, (n - 1) as nat);
    }
}

} // verus!
