//! Minimal recursive-descent JSON parser with dot-path lookup.
//!
//! Only keys are ever *read* out of JSONL records; records are written back
//! verbatim. So this parser favors correctness and clear errors over speed
//! tricks: full string-escape handling (including surrogate pairs), strict
//! number grammar, a recursion-depth guard against hostile inputs, and byte
//! offsets in every error message.

use vstd::prelude::*;

use crate::double;
use crate::double::Double;
use crate::text;

verus! {

/// A parsed JSON value. Object members keep their original order and
/// duplicates; lookup returns the first match, like most JSON tooling.
#[derive(Debug, PartialEq)]
pub enum Json {
    Null,
    Bool(bool),
    Num(Double),
    Str(String),
    Arr(Vec<Json>),
    Obj(Vec<(String, Json)>),
}

/// What a JSON value holds, as a mathematical value.
pub enum JsonValue {
    Null,
    Bool(bool),
    Num(Double),
    Str(Seq<char>),
    Arr(Seq<JsonValue>),
    Obj(Seq<(Seq<char>, JsonValue)>),
}

impl View for Json {
    type V = JsonValue;

    open spec fn view(&self) -> JsonValue
        decreases self,
    {
        match *self {
            Json::Null => JsonValue::Null,
            Json::Bool(b) => JsonValue::Bool(b),
            Json::Num(n) => JsonValue::Num(n),
            Json::Str(s) => JsonValue::Str(s@),
            Json::Arr(items) => JsonValue::Arr(
                Seq::new(
                    items@.len(),
                    |i: int|
                        if 0 <= i < items@.len() {
                            items@[i].view()
                        } else {
                            JsonValue::Null
                        },
                ),
            ),
            Json::Obj(members) => JsonValue::Obj(
                Seq::new(
                    members@.len(),
                    |i: int|
                        if 0 <= i < members@.len() {
                            (members@[i].0@, members@[i].1.view())
                        } else {
                            (Seq::empty(), JsonValue::Null)
                        },
                ),
            ),
        }
    }
}

/// Maximum nesting depth. Deep enough for any real export, shallow enough
/// that a `[[[[…` bomb cannot blow the stack.
pub const MAX_DEPTH: usize = 128;

// ---------------------------------------------------------------------------
// The grammar

/// A part of the text that was read, and where it ends; or what is wrong.
pub type Read<T> = Result<(T, int), Seq<char>>;

/// An error message with the byte offset of the character at `i`.
pub open spec fn fail(msg: Seq<char>, s: Seq<char>, i: int) -> Seq<char> {
    msg + " at byte "@ + text::decimal_text(vstd::utf8::encode_utf8(s.take(i)).len())
}

/// Whether `c` is white space between tokens.
pub open spec fn is_blank(c: char) -> bool {
    c == ' ' || c == '\t' || c == '\n' || c == '\r'
}

/// The first place at or after `i` that is no white space.
pub open spec fn skip_blanks(s: Seq<char>, i: int) -> int
    decreases s.len() - i,
{
    if 0 <= i < s.len() && is_blank(s[i]) {
        skip_blanks(s, i + 1)
    } else {
        i
    }
}

/// Whether a digit stands at `i`.
pub open spec fn digit_at(s: Seq<char>, i: int) -> bool {
    0 <= i < s.len() && text::is_digit(s[i])
}

/// Whether `c` is a hexadecimal digit.
pub open spec fn is_hex(c: char) -> bool {
    text::is_digit(c) || ('a' <= c && c <= 'f') || ('A' <= c && c <= 'F')
}

/// The number a hexadecimal digit stands for.
pub open spec fn hex_value(c: char) -> int {
    if text::is_digit(c) {
        c as int - 48
    } else if 'a' <= c && c <= 'f' {
        c as int - 87
    } else {
        c as int - 55
    }
}

/// The number that the four hexadecimal digits at `i` stand for.
pub open spec fn hex_number(s: Seq<char>, i: int) -> int {
    hex_value(s[i]) * 4096 + hex_value(s[i + 1]) * 256 + hex_value(s[i + 2]) * 16 + hex_value(
        s[i + 3],
    )
}

/// The number written by the four hexadecimal digits at `i`.
pub open spec fn hex4(s: Seq<char>, i: int) -> Result<int, Seq<char>> {
    if vstd::utf8::encode_utf8(s.skip(i)).len() < 4 {
        Err(fail("truncated \\u escape"@, s, i))
    } else if i + 4 <= s.len() && is_hex(s[i]) && is_hex(s[i + 1]) && is_hex(s[i + 2]) && is_hex(
        s[i + 3],
    ) {
        Ok(hex_number(s, i))
    } else {
        Err(fail("invalid \\u escape"@, s, i))
    }
}

/// The character that a `\u` escape means, its digits beginning at `i`. A
/// high surrogate must be followed by the escape of a low one.
pub open spec fn unicode_escape(s: Seq<char>, i: int) -> Read<char> {
    match hex4(s, i) {
        Err(e) => Err(e),
        Ok(hi) => if 0xD800 <= hi <= 0xDBFF {
            if text::stands(s, i + 4, '\\') && text::stands(s, i + 5, 'u') {
                match hex4(s, i + 6) {
                    Err(e) => Err(e),
                    Ok(lo) => if 0xDC00 <= lo <= 0xDFFF {
                        Ok(((0x10000 + (hi - 0xD800) * 0x400 + (lo - 0xDC00)) as u32 as char, i + 10))
                    } else {
                        Err(fail("invalid low surrogate"@, s, i + 10))
                    },
                }
            } else {
                Err(fail("lone high surrogate"@, s, i + 4))
            }
        } else if 0xDC00 <= hi <= 0xDFFF {
            Err(fail("invalid \\u escape"@, s, i + 4))
        } else {
            Ok((hi as u32 as char, i + 4))
        },
    }
}

/// The character that a one-letter escape means.
pub open spec fn escape(c: char) -> Option<char> {
    if c == '"' {
        Some('"')
    } else if c == '\\' {
        Some('\\')
    } else if c == '/' {
        Some('/')
    } else if c == 'b' {
        Some('\x08')
    } else if c == 'f' {
        Some('\x0c')
    } else if c == 'n' {
        Some('\n')
    } else if c == 'r' {
        Some('\r')
    } else if c == 't' {
        Some('\t')
    } else {
        None
    }
}

/// The rest of a string from `i` on, where `done` has been read of it.
pub open spec fn string_rest(s: Seq<char>, i: int, done: Seq<char>) -> Read<Seq<char>>
    decreases s.len() - i,
{
    if i < 0 || i >= s.len() {
        Err(fail("unterminated string"@, s, i))
    } else if s[i] == '"' {
        Ok((done, i + 1))
    } else if s[i] == '\\' {
        if text::stands(s, i + 1, 'u') {
            match unicode_escape(s, i + 2) {
                Ok((c, j)) => string_rest(s, if j > i {
                    j
                } else {
                    i + 1
                }, done.push(c)),
                Err(e) => Err(e),
            }
        } else if i + 1 < s.len() && escape(s[i + 1]) is Some {
            string_rest(s, i + 2, done.push(escape(s[i + 1])->Some_0))
        } else {
            Err(fail("invalid escape"@, s, i + 1))
        }
    } else if (s[i] as u32) < 0x20 {
        Err(fail("raw control character in string"@, s, i))
    } else {
        string_rest(s, i + 1, done.push(s[i]))
    }
}

/// The string at `i`.
pub open spec fn string(s: Seq<char>, i: int) -> Read<Seq<char>> {
    if text::stands(s, i, '"') {
        string_rest(s, i + 1, Seq::empty())
    } else {
        Err(fail("expected '\"'"@, s, i))
    }
}

/// The end of the number at `i`: a minus sign if any, `0` or digits that do
/// not begin with it, a point and digits if any, a power of ten if any.
pub open spec fn number_end(s: Seq<char>, i: int) -> Result<int, Seq<char>> {
    let a = if text::stands(s, i, '-') {
        i + 1
    } else {
        i
    };
    if !digit_at(s, a) {
        Err(fail("invalid number"@, s, a))
    } else {
        let b = if s[a] == '0' {
            a + 1
        } else {
            text::digits_end(s, a)
        };
        if text::stands(s, b, '.') && !digit_at(s, b + 1) {
            Err(fail("invalid number"@, s, b + 1))
        } else {
            let c = if text::stands(s, b, '.') {
                text::digits_end(s, b + 1)
            } else {
                b
            };
            if text::stands(s, c, 'e') || text::stands(s, c, 'E') {
                let d = if text::stands(s, c + 1, '+') || text::stands(s, c + 1, '-') {
                    c + 2
                } else {
                    c + 1
                };
                if digit_at(s, d) {
                    Ok(text::digits_end(s, d))
                } else {
                    Err(fail("invalid number"@, s, d))
                }
            } else {
                Ok(c)
            }
        }
    }
}

/// The number at `i`.
pub open spec fn number(s: Seq<char>, i: int) -> Read<JsonValue> {
    match number_end(s, i) {
        Err(e) => Err(e),
        Ok(j) => match double::reading(s.subrange(i, j)) {
            Some(n) => Ok((JsonValue::Num(n), j)),
            None => Err(fail("number out of range"@, s, j)),
        },
    }
}

/// The word at `i`, which stands for `value`.
pub open spec fn literal(
    s: Seq<char>,
    i: int,
    word: Seq<char>,
    value: JsonValue,
) -> Read<JsonValue> {
    if i + word.len() <= s.len() && s.subrange(i, i + word.len()) == word {
        Ok((value, i + word.len()))
    } else {
        Err(fail("invalid literal"@, s, i))
    }
}

/// The value at `i`, inside `depth` arrays and objects.
pub open spec fn value(s: Seq<char>, i: int, depth: int) -> Read<JsonValue>
    decreases s.len() - i, 0int,
{
    if depth > MAX_DEPTH {
        Err(fail("nesting too deep"@, s, i))
    } else if i < 0 || i >= s.len() {
        Err(fail("unexpected end of input"@, s, i))
    } else if s[i] == '{' {
        let k = skip_blanks(s, i + 1);
        proof {
            lemma_skip_blanks(s, i + 1);
        }
        if text::stands(s, k, '}') {
            Ok((JsonValue::Obj(Seq::empty()), k + 1))
        } else {
            members(s, k, depth, Seq::empty())
        }
    } else if s[i] == '[' {
        let k = skip_blanks(s, i + 1);
        proof {
            lemma_skip_blanks(s, i + 1);
        }
        if text::stands(s, k, ']') {
            Ok((JsonValue::Arr(Seq::empty()), k + 1))
        } else {
            items(s, k, depth, Seq::empty())
        }
    } else if s[i] == '"' {
        match string(s, i) {
            Ok((t, j)) => Ok((JsonValue::Str(t), j)),
            Err(e) => Err(e),
        }
    } else if s[i] == 't' {
        literal(s, i, "true"@, JsonValue::Bool(true))
    } else if s[i] == 'f' {
        literal(s, i, "false"@, JsonValue::Bool(false))
    } else if s[i] == 'n' {
        literal(s, i, "null"@, JsonValue::Null)
    } else if s[i] == '-' || text::is_digit(s[i]) {
        number(s, i)
    } else {
        Err(fail("unexpected character"@, s, i))
    }
}

/// The rest of an array from the value at `i` on, where `done` has been read
/// of it.
pub open spec fn items(s: Seq<char>, i: int, depth: int, done: Seq<JsonValue>) -> Read<JsonValue>
    decreases s.len() - i, 1int,
{
    match value(s, i, depth + 1) {
        Err(e) => Err(e),
        Ok((v, j)) => {
            let all = done.push(v);
            let k = skip_blanks(s, j);
            proof {
                lemma_skip_blanks(s, j);
            }
            if text::stands(s, k, ',') && j > i {
                let m = skip_blanks(s, k + 1);
                proof {
                    lemma_skip_blanks(s, k + 1);
                }
                items(s, m, depth, all)
            } else if text::stands(s, k, ']') {
                Ok((JsonValue::Arr(all), k + 1))
            } else {
                Err(fail("expected ',' or ']' in array"@, s, k))
            }
        },
    }
}

/// The rest of an object from the key at `i` on, where `done` has been read
/// of it.
pub open spec fn members(
    s: Seq<char>,
    i: int,
    depth: int,
    done: Seq<(Seq<char>, JsonValue)>,
) -> Read<JsonValue>
    decreases s.len() - i, 1int,
{
    match string(s, i) {
        Err(e) => Err(e),
        Ok((key, a)) => {
            let b = skip_blanks(s, a);
            if !text::stands(s, b, ':') {
                Err(fail("expected ':'"@, s, b))
            } else {
                let c = skip_blanks(s, b + 1);
                if c <= i || c > s.len() {
                    Err(fail("expected ':'"@, s, b))
                } else {
                    match value(s, c, depth + 1) {
                        Err(e) => Err(e),
                        Ok((v, j)) => {
                            let all = done.push((key, v));
                            let k = skip_blanks(s, j);
                            proof {
                                lemma_skip_blanks(s, j);
                            }
                            if text::stands(s, k, ',') && j > i {
                                let m = skip_blanks(s, k + 1);
                                proof {
                                    lemma_skip_blanks(s, k + 1);
                                }
                                members(s, m, depth, all)
                            } else if text::stands(s, k, '}') {
                                Ok((JsonValue::Obj(all), k + 1))
                            } else {
                                Err(fail("expected ',' or '}' in object"@, s, k))
                            }
                        },
                    }
                }
            }
        },
    }
}

/// The value that a complete JSON document holds.
pub open spec fn document(s: Seq<char>) -> Result<JsonValue, Seq<char>> {
    match value(s, skip_blanks(s, 0), 0) {
        Err(e) => Err(e),
        Ok((v, j)) => {
            let k = skip_blanks(s, j);
            if k == s.len() {
                Ok(v)
            } else {
                Err(fail("trailing content after JSON value"@, s, k))
            }
        },
    }
}

/// Skipping white space goes forward, and not past the end.
pub proof fn lemma_skip_blanks(s: Seq<char>, i: int)
    ensures
        skip_blanks(s, i) >= i,
        0 <= i <= s.len() ==> skip_blanks(s, i) <= s.len(),
    decreases s.len() - i,
{
    if 0 <= i < s.len() && is_blank(s[i]) {
        lemma_skip_blanks(s, i + 1);
    }
}

// ---------------------------------------------------------------------------
// Byte offsets

proof fn lemma_encode_concat(a: Seq<char>, b: Seq<char>)
    ensures
        vstd::utf8::encode_utf8(a + b) == vstd::utf8::encode_utf8(a) + vstd::utf8::encode_utf8(b),
    decreases a.len(),
{
    if a.len() == 0 {
        assert(a + b =~= b);
        assert(vstd::utf8::encode_utf8(a) + vstd::utf8::encode_utf8(b) =~= vstd::utf8::encode_utf8(
            b,
        ));
    } else {
        assert((a + b).drop_first() =~= a.drop_first() + b);
        lemma_encode_concat(a.drop_first(), b);
        assert(vstd::utf8::encode_utf8(a + b) =~= vstd::utf8::encode_utf8(a)
            + vstd::utf8::encode_utf8(b));
    }
}

/// How many bytes the characters from `from` to `to` take in UTF-8.
fn bytes_between(cs: &[char], from: usize, to: usize) -> (r: u64)
    requires
        from <= to <= cs@.len(),
        vstd::utf8::encode_utf8(cs@).len() <= u64::MAX,
    ensures
        r == vstd::utf8::encode_utf8(cs@.subrange(from as int, to as int)).len(),
{
    let mut j: usize = to;
    let mut n: u64 = 0;
    assert(cs@.subrange(to as int, to as int) =~= Seq::<char>::empty());
    while j > from
        invariant
            from <= j <= to <= cs@.len(),
            n == vstd::utf8::encode_utf8(cs@.subrange(j as int, to as int)).len(),
            vstd::utf8::encode_utf8(cs@).len() <= u64::MAX,
        decreases j,
    {
        j -= 1;
        let c = cs[j] as u32;
        let w: u64 = if c <= 0x7F {
            1
        } else if c <= 0x7FF {
            2
        } else if c <= 0xFFFF {
            3
        } else {
            4
        };
        proof {
            let part = cs@.subrange(j as int, to as int);
            assert(part.drop_first() =~= cs@.subrange(j + 1, to as int));
            assert(part[0] == cs@[j as int]);
            assert(vstd::utf8::encode_utf8(part) == vstd::utf8::encode_scalar(part[0] as u32)
                + vstd::utf8::encode_utf8(part.drop_first()));
            vstd::utf8::char_is_scalar(part[0]);
            assert(vstd::utf8::encode_scalar(part[0] as u32).len() == w);
            lemma_encode_concat(cs@.take(j as int), cs@.skip(j as int));
            assert(cs@.take(j as int) + cs@.skip(j as int) =~= cs@);
            lemma_encode_concat(part, cs@.skip(to as int));
            assert(part + cs@.skip(to as int) =~= cs@.skip(j as int));
        }
        n = n + w;
    }
    n
}

/// An error message with the byte offset of the character at `i`.
fn error(msg: &str, cs: &[char], i: usize) -> (r: String)
    requires
        i <= cs@.len(),
        vstd::utf8::encode_utf8(cs@).len() <= u64::MAX,
    ensures
        r@ == fail(msg@, cs@, i as int),
{
    let n = text::number_text(bytes_between(cs, 0, i));
    assert(cs@.subrange(0, i as int) =~= cs@.take(i as int));
    text::join3(msg, " at byte ", n.as_str())
}

// ---------------------------------------------------------------------------
// Parsing

/// Whether `c` stands at `i`.
fn at(cs: &[char], i: usize, c: char) -> (r: bool)
    ensures
        r == text::stands(cs@, i as int, c),
{
    i < cs.len() && cs[i] == c
}

/// The first place at or after `i` that is no white space.
fn skip_ws(cs: &[char], i: usize) -> (r: usize)
    requires
        i <= cs@.len(),
    ensures
        r == skip_blanks(cs@, i as int),
        i <= r <= cs@.len(),
{
    let mut j: usize = i;
    while j < cs.len() && (cs[j] == ' ' || cs[j] == '\t' || cs[j] == '\n' || cs[j] == '\r')
        invariant
            i <= j <= cs@.len(),
            skip_blanks(cs@, i as int) == skip_blanks(cs@, j as int),
        decreases cs@.len() - j,
    {
        j += 1;
    }
    j
}

/// The number a hexadecimal digit stands for.
fn hex_of(c: char) -> (r: Option<u32>)
    ensures
        r is Some <==> is_hex(c),
        r matches Some(n) ==> n == hex_value(c) && n < 16,
{
    if c >= '0' && c <= '9' {
        Some(c as u32 - 48)
    } else if c >= 'a' && c <= 'f' {
        Some(c as u32 - 87)
    } else if c >= 'A' && c <= 'F' {
        Some(c as u32 - 55)
    } else {
        None
    }
}

proof fn lemma_some_bytes(s: Seq<char>)
    ensures
        vstd::utf8::encode_utf8(s).len() >= s.len(),
    decreases s.len(),
{
    if s.len() > 0 {
        lemma_some_bytes(s.drop_first());
    }
}

/// The number written by the four hexadecimal digits at `i`.
fn parse_hex4(cs: &[char], i: usize) -> (r: Result<u32, String>)
    requires
        i <= cs@.len(),
        vstd::utf8::encode_utf8(cs@).len() <= u64::MAX,
    ensures
        match (r, hex4(cs@, i as int)) {
            (Ok(a), Ok(b)) => a == b && 0 <= b <= 0xFFFF && i + 4 <= cs@.len(),
            (Err(a), Err(b)) => a@ == b,
            _ => false,
        },
{
    let n: usize = cs.len();
    assert(cs@.skip(i as int) =~= cs@.subrange(i as int, n as int));
    if n - i < 4 {
        if bytes_between(cs, i, n) < 4 {
            return Err(error("truncated \\u escape", cs, i));
        }
        return Err(error("invalid \\u escape", cs, i));
    }
    proof {
        lemma_some_bytes(cs@.skip(i as int));
    }
    match (hex_of(cs[i]), hex_of(cs[i + 1]), hex_of(cs[i + 2]), hex_of(cs[i + 3])) {
        (Some(a), Some(b), Some(c), Some(d)) => Ok(a * 4096 + b * 256 + c * 16 + d),
        _ => Err(error("invalid \\u escape", cs, i)),
    }
}

/// `\uXXXX`, combining surrogate pairs into one scalar value.
fn parse_unicode(cs: &[char], i: usize) -> (r: Result<(char, usize), String>)
    requires
        i <= cs@.len(),
        vstd::utf8::encode_utf8(cs@).len() <= u64::MAX,
    ensures
        match (r, unicode_escape(cs@, i as int)) {
            (Ok((a, j)), Ok((b, k))) => a == b && j == k && i < j <= cs@.len(),
            (Err(a), Err(b)) => a@ == b,
            _ => false,
        },
{
    let len: usize = cs.len();
    let hi = match parse_hex4(cs, i) {
        Ok(n) => n,
        Err(e) => {
            return Err(e);
        },
    };
    if 0xD800 <= hi && hi <= 0xDBFF {
        if i + 4 < len && len - (i + 4) >= 2 && at(cs, i + 4, '\\') && at(cs, i + 5, 'u') {
            let lo = match parse_hex4(cs, i + 6) {
                Ok(n) => n,
                Err(e) => {
                    return Err(e);
                },
            };
            if lo < 0xDC00 || lo > 0xDFFF {
                return Err(error("invalid low surrogate", cs, i + 10));
            }
            let code: u32 = 0x10000 + (hi - 0xD800) * 0x400 + (lo - 0xDC00);
            return match char::from_u32(code) {
                Some(c) => {
                    proof {
                        vstd::utf8::char_u32_cast(c, code);
                    }
                    Ok((c, i + 10))
                },
                None => Err(error("invalid surrogate pair", cs, i + 10)),
            };
        }
        return Err(error("lone high surrogate", cs, i + 4));
    }
    match char::from_u32(hi) {
        Some(c) => {
            proof {
                vstd::utf8::char_u32_cast(c, hi);
            }
            Ok((c, i + 4))
        },
        None => Err(error("invalid \\u escape", cs, i + 4)),
    }
}

/// The character that a one-letter escape means.
fn parse_escape(c: char) -> (r: Option<char>)
    ensures
        r == escape(c),
{
    if c == '"' {
        Some('"')
    } else if c == '\\' {
        Some('\\')
    } else if c == '/' {
        Some('/')
    } else if c == 'b' {
        Some('\x08')
    } else if c == 'f' {
        Some('\x0c')
    } else if c == 'n' {
        Some('\n')
    } else if c == 'r' {
        Some('\r')
    } else if c == 't' {
        Some('\t')
    } else {
        None
    }
}

/// The string at `i` and where it ends.
fn parse_string(cs: &[char], i: usize) -> (r: Result<(String, usize), String>)
    requires
        i <= cs@.len(),
        vstd::utf8::encode_utf8(cs@).len() <= u64::MAX,
    ensures
        match (r, string(cs@, i as int)) {
            (Ok((a, j)), Ok((b, k))) => a@ == b && j == k && i < j <= cs@.len(),
            (Err(a), Err(b)) => a@ == b,
            _ => false,
        },
{
    if !at(cs, i, '"') {
        return Err(error("expected '\"'", cs, i));
    }
    let len: usize = cs.len();
    let mut out = String::new();
    let mut j: usize = i + 1;
    assert(out@ =~= Seq::<char>::empty());
    while j < len
        invariant
            len == cs@.len(),
            vstd::utf8::encode_utf8(cs@).len() <= u64::MAX,
            text::stands(cs@, i as int, '"'),
            i < j <= len,
            string(cs@, i as int) == string_rest(cs@, j as int, out@),
        decreases len - j,
    {
        let c = cs[j];
        if c == '"' {
            return Ok((out, j + 1));
        }
        if c == '\\' {
            if at(cs, j + 1, 'u') {
                match parse_unicode(cs, j + 2) {
                    Ok((u, k)) => {
                        out.push(u);
                        j = k;
                    },
                    Err(e) => {
                        return Err(e);
                    },
                }
            } else {
                let simple = if j + 1 < len {
                    parse_escape(cs[j + 1])
                } else {
                    None
                };
                match simple {
                    Some(e) => {
                        out.push(e);
                        j += 2;
                    },
                    None => {
                        return Err(error("invalid escape", cs, j + 1));
                    },
                }
            }
        } else if (c as u32) < 0x20 {
            return Err(error("raw control character in string", cs, j));
        } else {
            out.push(c);
            j += 1;
        }
    }
    Err(error("unterminated string", cs, j))
}

/// The end of the run of digits at `i`.
fn digit_run(cs: &[char], i: usize) -> (r: usize)
    requires
        i <= cs@.len(),
    ensures
        r == text::digits_end(cs@, i as int),
        i <= r <= cs@.len(),
{
    let mut j: usize = i;
    while j < cs.len() && text::digit(cs[j])
        invariant
            i <= j <= cs@.len(),
            text::digits_end(cs@, i as int) == text::digits_end(cs@, j as int),
        decreases cs@.len() - j,
    {
        j += 1;
    }
    j
}

/// Whether a digit stands at `i`.
fn is_digit_at(cs: &[char], i: usize) -> (r: bool)
    ensures
        r == digit_at(cs@, i as int),
{
    i < cs.len() && text::digit(cs[i])
}

/// Whether `r` is what reading a value gives.
pub open spec fn is_read(r: Result<(Json, usize), String>, p: Read<JsonValue>) -> bool {
    match (r, p) {
        (Ok((a, j)), Ok((b, k))) => a@ == b && j == k,
        (Err(a), Err(b)) => a@ == b,
        _ => false,
    }
}

/// The number at `i` and where it ends.
fn parse_number(cs: &[char], i: usize) -> (r: Result<(Json, usize), String>)
    requires
        i < cs@.len(),
        vstd::utf8::encode_utf8(cs@).len() <= u64::MAX,
    ensures
        is_read(r, number(cs@, i as int)),
        r matches Ok((_, j)) ==> i < j <= cs@.len(),
{
    let len: usize = cs.len();
    let mut j: usize = i;
    if at(cs, j, '-') {
        j += 1;
    }
    // Integer part: '0' alone, or a nonzero digit run (no leading zeros).
    if !is_digit_at(cs, j) {
        return Err(error("invalid number", cs, j));
    }
    if cs[j] == '0' {
        j += 1;
    } else {
        j = digit_run(cs, j);
        assert(j > i) by {
            let a = if text::stands(cs@, i as int, '-') {
                i + 1
            } else {
                i as int
            };
            text::lemma_digits_end(cs@, a + 1);
        }
    }
    if at(cs, j, '.') {
        if !is_digit_at(cs, j + 1) {
            return Err(error("invalid number", cs, j + 1));
        }
        j = digit_run(cs, j + 1);
    }
    if at(cs, j, 'e') || at(cs, j, 'E') {
        j += 1;
        if at(cs, j, '+') || at(cs, j, '-') {
            j += 1;
        }
        if !is_digit_at(cs, j) {
            return Err(error("invalid number", cs, j));
        }
        j = digit_run(cs, j);
    }
    let word = vstd::slice::slice_subrange(cs, i, j);
    match Double::read(word) {
        Some(n) => Ok((Json::Num(n), j)),
        None => Err(error("number out of range", cs, j)),
    }
}

/// The word at `i`, which stands for `value`.
fn parse_literal(cs: &[char], i: usize, word: &str, value: Json) -> (r: Result<
    (Json, usize),
    String,
>)
    requires
        i < cs@.len(),
        word@.len() > 0,
        vstd::utf8::encode_utf8(cs@).len() <= u64::MAX,
    ensures
        is_read(r, literal(cs@, i as int, word@, value@)),
        r matches Ok((_, j)) ==> i < j <= cs@.len(),
{
    let w = text::chars_of(word);
    let len: usize = cs.len();
    let n: usize = w.len();
    if n > len - i {
        return Err(error("invalid literal", cs, i));
    }
    let ghost part = cs@.subrange(i as int, i + n);
    let mut k: usize = 0;
    while k < n
        invariant
            k <= n,
            i + n <= len,
            len == cs@.len(),
            n == w@.len(),
            w@ == word@,
            part == cs@.subrange(i as int, i + n),
            vstd::utf8::encode_utf8(cs@).len() <= u64::MAX,
            forall|m: int| 0 <= m < k ==> part[m] == w@[m],
        decreases n - k,
    {
        if cs[i + k] != w[k] {
            assert(part[k as int] != word@[k as int]);
            return Err(error("invalid literal", cs, i));
        }
        assert(part[k as int] == cs@[i + k]);
        k += 1;
    }
    assert(part =~= word@);
    Ok((value, i + n))
}

/// The value at `i`, inside `depth` arrays and objects.
fn parse_value(cs: &[char], i: usize, depth: usize) -> (r: Result<(Json, usize), String>)
    requires
        i <= cs@.len(),
        depth <= MAX_DEPTH + 1,
        vstd::utf8::encode_utf8(cs@).len() <= u64::MAX,
    ensures
        is_read(r, value(cs@, i as int, depth as int)),
        r matches Ok((_, j)) ==> i < j <= cs@.len(),
    decreases cs@.len() - i, 1int,
{
    if depth > MAX_DEPTH {
        return Err(error("nesting too deep", cs, i));
    }
    if i == cs.len() {
        return Err(error("unexpected end of input", cs, i));
    }
    let c = cs[i];
    if c == '{' {
        parse_object(cs, i, depth)
    } else if c == '[' {
        parse_array(cs, i, depth)
    } else if c == '"' {
        match parse_string(cs, i) {
            Ok((t, j)) => Ok((Json::Str(t), j)),
            Err(e) => Err(e),
        }
    } else if c == 't' {
        proof {
            reveal_strlit("true");
        }
        parse_literal(cs, i, "true", Json::Bool(true))
    } else if c == 'f' {
        proof {
            reveal_strlit("false");
        }
        parse_literal(cs, i, "false", Json::Bool(false))
    } else if c == 'n' {
        proof {
            reveal_strlit("null");
        }
        parse_literal(cs, i, "null", Json::Null)
    } else if c == '-' || text::digit(c) {
        parse_number(cs, i)
    } else {
        Err(error("unexpected character", cs, i))
    }
}

/// What the values of a list hold.
pub open spec fn views(list: Seq<Json>) -> Seq<JsonValue> {
    Seq::new(list.len(), |i: int| list[i]@)
}

/// What the members of a list hold.
pub open spec fn member_views(list: Seq<(String, Json)>) -> Seq<(Seq<char>, JsonValue)> {
    Seq::new(list.len(), |i: int| (list[i].0@, list[i].1@))
}

proof fn lemma_array_view(list: Vec<Json>)
    ensures
        Json::Arr(list)@ == JsonValue::Arr(views(list@)),
{
    reveal_with_fuel(<Json as View>::view, 2);
    let r = Json::Arr(list);
    assert(r@->Arr_0 =~= views(list@));
}

proof fn lemma_object_view(list: Vec<(String, Json)>)
    ensures
        Json::Obj(list)@ == JsonValue::Obj(member_views(list@)),
{
    reveal_with_fuel(<Json as View>::view, 2);
    let r = Json::Obj(list);
    assert(r@->Obj_0 =~= member_views(list@));
}

/// The array at `i` and where it ends.
fn parse_array(cs: &[char], i: usize, depth: usize) -> (r: Result<(Json, usize), String>)
    requires
        text::stands(cs@, i as int, '['),
        depth <= MAX_DEPTH,
        vstd::utf8::encode_utf8(cs@).len() <= u64::MAX,
    ensures
        is_read(r, value(cs@, i as int, depth as int)),
        r matches Ok((_, j)) ==> i < j <= cs@.len(),
    decreases cs@.len() - i, 0int,
{
    let len: usize = cs.len();
    let mut list: Vec<Json> = Vec::new();
    let mut j = skip_ws(cs, i + 1);
    if at(cs, j, ']') {
        let r = Json::Arr(list);
        assert(r@->Arr_0 =~= Seq::<JsonValue>::empty());
        return Ok((r, j + 1));
    }
    assert(views(list@) =~= Seq::<JsonValue>::empty());
    loop
        invariant
            i < j <= len,
            len == cs@.len(),
            depth <= MAX_DEPTH,
            vstd::utf8::encode_utf8(cs@).len() <= u64::MAX,
            value(cs@, i as int, depth as int) == items(
                cs@,
                j as int,
                depth as int,
                views(list@),
            ),
        decreases len - j,
    {
        match parse_value(cs, j, depth + 1) {
            Err(e) => {
                return Err(e);
            },
            Ok((v, end)) => {
                let ghost done = views(list@);
                let ghost view = v@;
                list.push(v);
                assert(views(list@) =~= done.push(view));
                let k = skip_ws(cs, end);
                if at(cs, k, ',') {
                    j = skip_ws(cs, k + 1);
                } else if at(cs, k, ']') {
                    proof {
                        lemma_array_view(list);
                    }
                    return Ok((Json::Arr(list), k + 1));
                } else {
                    return Err(error("expected ',' or ']' in array", cs, k));
                }
            },
        }
    }
}

/// The object at `i` and where it ends.
fn parse_object(cs: &[char], i: usize, depth: usize) -> (r: Result<(Json, usize), String>)
    requires
        text::stands(cs@, i as int, '{'),
        depth <= MAX_DEPTH,
        vstd::utf8::encode_utf8(cs@).len() <= u64::MAX,
    ensures
        is_read(r, value(cs@, i as int, depth as int)),
        r matches Ok((_, j)) ==> i < j <= cs@.len(),
    decreases cs@.len() - i, 0int,
{
    let len: usize = cs.len();
    let mut list: Vec<(String, Json)> = Vec::new();
    let mut j = skip_ws(cs, i + 1);
    if at(cs, j, '}') {
        let r = Json::Obj(list);
        assert(r@->Obj_0 =~= Seq::<(Seq<char>, JsonValue)>::empty());
        return Ok((r, j + 1));
    }
    assert(member_views(list@) =~= Seq::<(Seq<char>, JsonValue)>::empty());
    loop
        invariant
            i < j <= len,
            len == cs@.len(),
            depth <= MAX_DEPTH,
            vstd::utf8::encode_utf8(cs@).len() <= u64::MAX,
            value(cs@, i as int, depth as int) == members(
                cs@,
                j as int,
                depth as int,
                member_views(list@),
            ),
        decreases len - j,
    {
        let (key, a) = match parse_string(cs, j) {
            Ok(p) => p,
            Err(e) => {
                return Err(e);
            },
        };
        let b = skip_ws(cs, a);
        if !at(cs, b, ':') {
            return Err(error("expected ':'", cs, b));
        }
        let c = skip_ws(cs, b + 1);
        match parse_value(cs, c, depth + 1) {
            Err(e) => {
                return Err(e);
            },
            Ok((v, end)) => {
                let ghost done = member_views(list@);
                let ghost view = (key@, v@);
                list.push((key, v));
                assert(member_views(list@) =~= done.push(view));
                let k = skip_ws(cs, end);
                if at(cs, k, ',') {
                    j = skip_ws(cs, k + 1);
                } else if at(cs, k, '}') {
                    proof {
                        lemma_object_view(list);
                    }
                    return Ok((Json::Obj(list), k + 1));
                } else {
                    return Err(error("expected ',' or '}' in object", cs, k));
                }
            },
        }
    }
}

/// Parse a complete JSON document; trailing white space is allowed, trailing
/// content is an error.
pub fn parse(input: &str) -> (r: Result<Json, String>)
    ensures
        match (r, document(input@)) {
            (Ok(a), Ok(b)) => a@ == b,
            (Err(a), Err(b)) => a@ == b,
            _ => false,
        },
{
    let total: usize = input.as_bytes().len();
    let cs = text::chars_of(input);
    let start = skip_ws(&cs, 0);
    match parse_value(&cs, start, 0) {
        Err(e) => Err(e),
        Ok((v, j)) => {
            let k = skip_ws(&cs, j);
            if k != cs.len() {
                return Err(error("trailing content after JSON value", &cs, k));
            }
            Ok(v)
        },
    }
}

// ---------------------------------------------------------------------------
// Lookup

/// The value of the first member named `key`.
pub open spec fn member(list: Seq<(Seq<char>, JsonValue)>, key: Seq<char>) -> Option<JsonValue>
    decreases list.len(),
{
    if list.len() == 0 {
        None
    } else if list[0].0 == key {
        Some(list[0].1)
    } else {
        member(list.drop_first(), key)
    }
}

/// One hop of a path: a member of an object by its name, or an item of an
/// array by its 0-based decimal index.
pub open spec fn hop(v: JsonValue, segment: Seq<char>) -> Option<JsonValue> {
    match v {
        JsonValue::Obj(list) => member(list, segment),
        JsonValue::Arr(list) => match text::digits_only(segment, usize::MAX as nat) {
            Some(n) => if n < list.len() {
                Some(list[n as int])
            } else {
                None
            },
            None => None,
        },
        _ => None,
    }
}

/// The value at the end of a path.
pub open spec fn found(v: JsonValue, path: Seq<Seq<char>>) -> Option<JsonValue>
    decreases path.len(),
{
    if path.len() == 0 {
        Some(v)
    } else {
        match hop(v, path[0]) {
            Some(w) => found(w, path.drop_first()),
            None => None,
        }
    }
}

/// Whether `r` is the value that `v` says, if any.
pub open spec fn is_found(r: Option<&Json>, v: Option<JsonValue>) -> bool {
    match (r, v) {
        (Some(a), Some(b)) => a@ == b,
        (None, None) => true,
        _ => false,
    }
}

/// The value of the first member named `key`.
fn find_member<'a>(list: &'a Vec<(String, Json)>, key: &str) -> (r: Option<&'a Json>)
    ensures
        is_found(r, member(member_views(list@), key@)),
{
    let mut i: usize = 0;
    let ghost all = member_views(list@);
    assert(all.skip(0) =~= all);
    while i < list.len()
        invariant
            i <= list@.len(),
            all == member_views(list@),
            member(all, key@) == member(all.skip(i as int), key@),
        decreases list@.len() - i,
    {
        assert(all.skip(i as int).drop_first() =~= all.skip(i + 1));
        if text::same_text(list[i].0.as_str(), key) {
            return Some(&list[i].1);
        }
        i += 1;
    }
    None
}

/// Walk `root` along dot-separated path segments. Each segment is matched as
/// an object key first; on arrays, a decimal segment is used as a 0-based
/// index. Returns `None` when any hop is absent.
pub fn lookup<'a>(root: &'a Json, path: &[String]) -> (r: Option<&'a Json>)
    ensures
        is_found(r, found(root@, text::texts(path@))),
{
    let mut cur: &'a Json = root;
    let mut i: usize = 0;
    let ghost all = text::texts(path@);
    assert(all.skip(0) =~= all);
    while i < path.len()
        invariant
            i <= path@.len(),
            all == text::texts(path@),
            found(root@, all) == found(cur@, all.skip(i as int)),
        decreases path@.len() - i,
    {
        assert(all.skip(i as int).drop_first() =~= all.skip(i + 1));
        let segment = path[i].as_str();
        let next: Option<&'a Json> = match cur {
            Json::Obj(list) => {
                proof {
                    lemma_object_view(*list);
                }
                find_member(list, segment)
            },
            Json::Arr(list) => {
                proof {
                    lemma_array_view(*list);
                }
                let cs = text::chars_of(segment);
                match text::parse_digits(&cs, usize::MAX as u64) {
                    Some(n) => if (n as usize) < list.len() {
                        Some(&list[n as usize])
                    } else {
                        None
                    },
                    None => None,
                }
            },
            _ => None,
        };
        match next {
            Some(v) => {
                cur = v;
            },
            None => {
                return None;
            },
        }
        i += 1;
    }
    Some(cur)
}

impl Clone for Json {
    fn clone(&self) -> (r: Self)
        ensures
            r@ == self@,
        decreases self,
    {
        match self {
            Json::Null => Json::Null,
            Json::Bool(b) => Json::Bool(*b),
            Json::Num(n) => Json::Num(*n),
            Json::Str(s) => Json::Str(text::owned(s.as_str())),
            Json::Arr(list) => {
                let mut out: Vec<Json> = Vec::new();
                let mut i: usize = 0;
                while i < list.len()
                    invariant
                        i <= list@.len(),
                        *self == Json::Arr(*list),
                        views(out@) == views(list@).take(i as int),
                    decreases list@.len() - i,
                {
                    let ghost done = views(out@);
                    assert(decreases_to!(*self => self->Arr_0@[i as int]));
                    let v = list[i].clone();
                    let ghost view = v@;
                    out.push(v);
                    assert(views(out@) =~= done.push(view));
                    i += 1;
                    assert(views(out@) =~= views(list@).take(i as int));
                }
                proof {
                    lemma_array_view(out);
                    lemma_array_view(*list);
                    assert(views(list@).take(i as int) =~= views(list@));
                }
                Json::Arr(out)
            },
            Json::Obj(list) => {
                let mut out: Vec<(String, Json)> = Vec::new();
                let mut i: usize = 0;
                while i < list.len()
                    invariant
                        i <= list@.len(),
                        *self == Json::Obj(*list),
                        member_views(out@) == member_views(list@).take(i as int),
                    decreases list@.len() - i,
                {
                    let ghost done = member_views(out@);
                    let k = text::owned(list[i].0.as_str());
                    assert(decreases_to!(*self => self->Obj_0@[i as int].1));
                    let v = list[i].1.clone();
                    let ghost view = (k@, v@);
                    out.push((k, v));
                    assert(member_views(out@) =~= done.push(view));
                    i += 1;
                    assert(member_views(out@) =~= member_views(list@).take(i as int));
                }
                proof {
                    lemma_object_view(out);
                    lemma_object_view(*list);
                    assert(member_views(list@).take(i as int) =~= member_views(list@));
                }
                Json::Obj(out)
            },
        }
    }
}

// ---------------------------------------------------------------------------
// Numbers

/// Whether no number in the value is a NaN.
pub open spec fn sound(v: JsonValue) -> bool
    decreases v,
{
    match v {
        JsonValue::Num(n) => !n.is_nan(),
        JsonValue::Arr(list) => forall|i: int| 0 <= i < list.len() ==> sound(#[trigger] list[i]),
        JsonValue::Obj(list) => forall|i: int|
            0 <= i < list.len() ==> sound((#[trigger] list[i]).1),
        _ => true,
    }
}

proof fn lemma_number_sound(s: Seq<char>, i: int)
    requires
        0 <= i < s.len(),
    ensures
        number(s, i) matches Ok((v, _)) ==> sound(v),
{
    if number(s, i) is Ok {
        let j = number_end(s, i)->Ok_0;
        let a = if text::stands(s, i, '-') {
            i + 1
        } else {
            i
        };
        lemma_number_end(s, i);
        let t = s.subrange(i, j);
        let rest = if text::stands(s, i, '-') {
            t.skip(1)
        } else {
            t
        };
        assert(rest[0] == s[a]);
        let low = text::lower_text(rest);
        assert(low[0] == rest[0]);
        reveal_strlit("inf");
        reveal_strlit("infinity");
        reveal_strlit("nan");
        match double::decimal_number(rest) {
            Some((digits, exponent)) => double::lemma_decimal_is_number(digits, exponent),
            None => {},
        }
    }
}

proof fn lemma_number_end(s: Seq<char>, i: int)
    requires
        0 <= i < s.len(),
        number_end(s, i) is Ok,
    ensures
        i < number_end(s, i)->Ok_0 <= s.len(),
        text::stands(s, i, '-') ==> i + 1 < number_end(s, i)->Ok_0,
{
    let a = if text::stands(s, i, '-') {
        i + 1
    } else {
        i
    };
    text::lemma_digits_end(s, a + 1);
    let b = if s[a] == '0' {
        a + 1
    } else {
        text::digits_end(s, a)
    };
    let c = if text::stands(s, b, '.') {
        text::digits_end(s, b + 1)
    } else {
        b
    };
    if text::stands(s, b, '.') {
        text::lemma_digits_end(s, b + 1);
    }
    if text::stands(s, c, 'e') || text::stands(s, c, 'E') {
        let d = if text::stands(s, c + 1, '+') || text::stands(s, c + 1, '-') {
            c + 2
        } else {
            c + 1
        };
        text::lemma_digits_end(s, d);
    }
}

proof fn lemma_value_sound(s: Seq<char>, i: int, depth: int)
    ensures
        value(s, i, depth) matches Ok((v, _)) ==> sound(v),
    decreases s.len() - i, 0int,
{
    if value(s, i, depth) is Ok {
        if s[i] == '{' {
            lemma_skip_blanks(s, i + 1);
            lemma_members_sound(s, skip_blanks(s, i + 1), depth, Seq::empty());
        } else if s[i] == '[' {
            lemma_skip_blanks(s, i + 1);
            lemma_items_sound(s, skip_blanks(s, i + 1), depth, Seq::empty());
        } else if s[i] == '-' || text::is_digit(s[i]) {
            lemma_number_sound(s, i);
        }
    }
}

proof fn lemma_items_sound(s: Seq<char>, i: int, depth: int, done: Seq<JsonValue>)
    requires
        forall|k: int| 0 <= k < done.len() ==> sound(#[trigger] done[k]),
    ensures
        items(s, i, depth, done) matches Ok((v, _)) ==> sound(v),
    decreases s.len() - i, 1int,
{
    lemma_value_sound(s, i, depth + 1);
    if let Ok((v, j)) = value(s, i, depth + 1) {
        let k = skip_blanks(s, j);
        lemma_skip_blanks(s, j);
        if text::stands(s, k, ',') && j > i {
            lemma_skip_blanks(s, k + 1);
            lemma_items_sound(s, skip_blanks(s, k + 1), depth, done.push(v));
        }
    }
}

proof fn lemma_members_sound(
    s: Seq<char>,
    i: int,
    depth: int,
    done: Seq<(Seq<char>, JsonValue)>,
)
    requires
        forall|k: int| 0 <= k < done.len() ==> sound((#[trigger] done[k]).1),
    ensures
        members(s, i, depth, done) matches Ok((v, _)) ==> sound(v),
    decreases s.len() - i, 1int,
{
    if let Ok((key, a)) = string(s, i) {
        let b = skip_blanks(s, a);
        let c = skip_blanks(s, b + 1);
        if text::stands(s, b, ':') && i < c <= s.len() {
            lemma_value_sound(s, c, depth + 1);
            if let Ok((v, j)) = value(s, c, depth + 1) {
                let k = skip_blanks(s, j);
                lemma_skip_blanks(s, j);
                if text::stands(s, k, ',') && j > i {
                    lemma_skip_blanks(s, k + 1);
                    lemma_members_sound(s, skip_blanks(s, k + 1), depth, done.push((key, v)));
                }
            }
        }
    }
}

/// JSON has no NaN: every number in a document is one.
pub proof fn law_numbers_are_numbers(s: Seq<char>)
    ensures
        document(s) matches Ok(v) ==> sound(v),
{
    lemma_value_sound(s, skip_blanks(s, 0), 0);
}

/// What a path leads to in a value without NaN is without NaN.
pub proof fn lemma_found_sound(v: JsonValue, path: Seq<Seq<char>>)
    requires
        sound(v),
    ensures
        found(v, path) matches Some(w) ==> sound(w),
    decreases path.len(),
{
    if path.len() > 0 {
        if let JsonValue::Obj(list) = v {
            lemma_member_sound(list, path[0]);
        }
        if let Some(w) = hop(v, path[0]) {
            lemma_found_sound(w, path.drop_first());
        }
    }
}

proof fn lemma_member_sound(list: Seq<(Seq<char>, JsonValue)>, key: Seq<char>)
    requires
        forall|i: int| 0 <= i < list.len() ==> sound((#[trigger] list[i]).1),
    ensures
        member(list, key) matches Some(w) ==> sound(w),
    decreases list.len(),
{
    if list.len() > 0 {
        assert(sound(list[0].1));
        let rest = list.drop_first();
        assert forall|i: int| 0 <= i < rest.len() implies sound((#[trigger] rest[i]).1) by {
            assert(sound(list[i + 1].1));
        }
        lemma_member_sound(rest, key);
    }
}

/// Duplicate keys resolve to the first, and an object is always asked by the
/// name of its members, even where a segment looks like a number.
pub proof fn law_first_duplicate_wins(
    list: Seq<(Seq<char>, JsonValue)>,
    segment: Seq<char>,
    i: int,
)
    requires
        0 <= i < list.len(),
        list[i].0 == segment,
        forall|j: int| 0 <= j < i ==> (#[trigger] list[j]).0 != segment,
    ensures
        hop(JsonValue::Obj(list), segment) == Some(list[i].1),
    decreases i,
{
    if i > 0 {
        assert(list[0].0 != segment);
        let rest = list.drop_first();
        assert forall|j: int| 0 <= j < i - 1 implies (#[trigger] rest[j]).0 != segment by {
            assert(list[j + 1].0 != segment);
        }
        law_first_duplicate_wins(rest, segment, i - 1);
    }
}

// ---------------------------------------------------------------------------
// Nesting

/// Whether arrays and objects stand inside each other `n` deep at most.
pub open spec fn within(v: JsonValue, n: int) -> bool
    decreases v,
{
    match v {
        JsonValue::Arr(list) => n > 0 && forall|i: int|
            0 <= i < list.len() ==> within(#[trigger] list[i], n - 1),
        JsonValue::Obj(list) => n > 0 && forall|i: int|
            0 <= i < list.len() ==> within((#[trigger] list[i]).1, n - 1),
        _ => true,
    }
}

proof fn lemma_value_within(s: Seq<char>, i: int, depth: int)
    ensures
        value(s, i, depth) matches Ok((v, _)) ==> within(v, MAX_DEPTH - depth + 1),
    decreases s.len() - i, 0int,
{
    if value(s, i, depth) is Ok {
        if s[i] == '{' {
            lemma_skip_blanks(s, i + 1);
            lemma_members_within(s, skip_blanks(s, i + 1), depth, Seq::empty());
        } else if s[i] == '[' {
            lemma_skip_blanks(s, i + 1);
            lemma_items_within(s, skip_blanks(s, i + 1), depth, Seq::empty());
        }
    }
}

proof fn lemma_items_within(s: Seq<char>, i: int, depth: int, done: Seq<JsonValue>)
    requires
        depth <= MAX_DEPTH,
        forall|k: int| 0 <= k < done.len() ==> within(#[trigger] done[k], MAX_DEPTH - depth),
    ensures
        items(s, i, depth, done) matches Ok((v, _)) ==> within(v, MAX_DEPTH - depth + 1),
    decreases s.len() - i, 1int,
{
    lemma_value_within(s, i, depth + 1);
    if let Ok((v, j)) = value(s, i, depth + 1) {
        let k = skip_blanks(s, j);
        lemma_skip_blanks(s, j);
        if text::stands(s, k, ',') && j > i {
            lemma_skip_blanks(s, k + 1);
            lemma_items_within(s, skip_blanks(s, k + 1), depth, done.push(v));
        }
    }
}

proof fn lemma_members_within(
    s: Seq<char>,
    i: int,
    depth: int,
    done: Seq<(Seq<char>, JsonValue)>,
)
    requires
        depth <= MAX_DEPTH,
        forall|k: int| 0 <= k < done.len() ==> within((#[trigger] done[k]).1, MAX_DEPTH - depth),
    ensures
        members(s, i, depth, done) matches Ok((v, _)) ==> within(v, MAX_DEPTH - depth + 1),
    decreases s.len() - i, 1int,
{
    if let Ok((key, a)) = string(s, i) {
        let b = skip_blanks(s, a);
        let c = skip_blanks(s, b + 1);
        if text::stands(s, b, ':') && i < c <= s.len() {
            lemma_value_within(s, c, depth + 1);
            if let Ok((v, j)) = value(s, c, depth + 1) {
                let k = skip_blanks(s, j);
                lemma_skip_blanks(s, j);
                if text::stands(s, k, ',') && j > i {
                    lemma_skip_blanks(s, k + 1);
                    lemma_members_within(s, skip_blanks(s, k + 1), depth, done.push((key, v)));
                }
            }
        }
    }
}

/// The depth guard holds: the innermost value of a document stands inside
/// `MAX_DEPTH` arrays and objects at most, and may be one itself.
pub proof fn law_nesting_is_bounded(s: Seq<char>)
    ensures
        document(s) matches Ok(v) ==> within(v, MAX_DEPTH + 1),
{
    lemma_value_within(s, skip_blanks(s, 0), 0);
}

// ---------------------------------------------------------------------------
// Errors

/// Whether a message ends with the byte offset of a place in the text.
pub open spec fn has_offset(e: Seq<char>, s: Seq<char>) -> bool {
    exists|msg: Seq<char>, i: int| 0 <= i <= s.len() && e == #[trigger] fail(msg, s, i)
}

proof fn lemma_unicode_located(s: Seq<char>, i: int)
    requires
        0 <= i <= s.len(),
    ensures
        match unicode_escape(s, i) {
            Ok((_, j)) => i < j <= s.len(),
            Err(e) => has_offset(e, s),
        },
{
}

proof fn lemma_string_located(s: Seq<char>, i: int, done: Seq<char>)
    requires
        0 <= i <= s.len(),
    ensures
        match string_rest(s, i, done) {
            Ok((_, j)) => i < j <= s.len(),
            Err(e) => has_offset(e, s),
        },
    decreases s.len() - i,
{
    if i < s.len() && s[i] == '\\' {
        if text::stands(s, i + 1, 'u') {
            lemma_unicode_located(s, i + 2);
            if let Ok((c, j)) = unicode_escape(s, i + 2) {
                lemma_string_located(s, j, done.push(c));
            }
        } else if i + 1 < s.len() && escape(s[i + 1]) is Some {
            lemma_string_located(s, i + 2, done.push(escape(s[i + 1])->Some_0));
        }
    } else if i < s.len() && s[i] != '"' && (s[i] as u32) >= 0x20 {
        lemma_string_located(s, i + 1, done.push(s[i]));
    }
}

proof fn lemma_number_located(s: Seq<char>, i: int)
    requires
        0 <= i < s.len(),
    ensures
        match number(s, i) {
            Ok((_, j)) => i < j <= s.len(),
            Err(e) => has_offset(e, s),
        },
{
    if number_end(s, i) is Ok {
        lemma_number_end(s, i);
    } else {
        let a = if text::stands(s, i, '-') {
            i + 1
        } else {
            i
        };
        if digit_at(s, a) {
            text::lemma_digits_end(s, a);
            let b = if s[a] == '0' {
                a + 1
            } else {
                text::digits_end(s, a)
            };
            if text::stands(s, b, '.') {
                text::lemma_digits_end(s, b + 1);
            }
        }
    }
}

proof fn lemma_value_located(s: Seq<char>, i: int, depth: int)
    requires
        0 <= i <= s.len(),
    ensures
        match value(s, i, depth) {
            Ok((_, j)) => i < j <= s.len(),
            Err(e) => has_offset(e, s),
        },
    decreases s.len() - i, 0int,
{
    if depth <= MAX_DEPTH && i < s.len() {
        if s[i] == '{' {
            lemma_skip_blanks(s, i + 1);
            if !text::stands(s, skip_blanks(s, i + 1), '}') {
                lemma_members_located(s, skip_blanks(s, i + 1), depth, Seq::empty());
            }
        } else if s[i] == '[' {
            lemma_skip_blanks(s, i + 1);
            if !text::stands(s, skip_blanks(s, i + 1), ']') {
                lemma_items_located(s, skip_blanks(s, i + 1), depth, Seq::empty());
            }
        } else if s[i] == '"' {
            lemma_string_located(s, i + 1, Seq::empty());
        } else if s[i] == '-' || text::is_digit(s[i]) {
            lemma_number_located(s, i);
        } else {
            reveal_strlit("true");
            reveal_strlit("false");
            reveal_strlit("null");
        }
    }
}

proof fn lemma_items_located(s: Seq<char>, i: int, depth: int, done: Seq<JsonValue>)
    requires
        0 <= i <= s.len(),
    ensures
        match items(s, i, depth, done) {
            Ok((_, j)) => i < j <= s.len(),
            Err(e) => has_offset(e, s),
        },
    decreases s.len() - i, 1int,
{
    lemma_value_located(s, i, depth + 1);
    if let Ok((v, j)) = value(s, i, depth + 1) {
        let k = skip_blanks(s, j);
        lemma_skip_blanks(s, j);
        if text::stands(s, k, ',') {
            lemma_skip_blanks(s, k + 1);
            lemma_items_located(s, skip_blanks(s, k + 1), depth, done.push(v));
        }
    }
}

proof fn lemma_members_located(
    s: Seq<char>,
    i: int,
    depth: int,
    done: Seq<(Seq<char>, JsonValue)>,
)
    requires
        0 <= i <= s.len(),
    ensures
        match members(s, i, depth, done) {
            Ok((_, j)) => i < j <= s.len(),
            Err(e) => has_offset(e, s),
        },
    decreases s.len() - i, 1int,
{
    if text::stands(s, i, '"') {
        lemma_string_located(s, i + 1, Seq::empty());
    }
    if let Ok((key, a)) = string(s, i) {
        let b = skip_blanks(s, a);
        lemma_skip_blanks(s, a);
        if text::stands(s, b, ':') {
            let c = skip_blanks(s, b + 1);
            lemma_skip_blanks(s, b + 1);
            lemma_value_located(s, c, depth + 1);
            if let Ok((v, j)) = value(s, c, depth + 1) {
                let k = skip_blanks(s, j);
                lemma_skip_blanks(s, j);
                if text::stands(s, k, ',') {
                    lemma_skip_blanks(s, k + 1);
                    lemma_members_located(s, skip_blanks(s, k + 1), depth, done.push((key, v)));
                }
            }
        }
    }
}

/// Every error message ends with a byte offset, and that lies within the
/// text.
pub proof fn law_errors_carry_offsets(s: Seq<char>)
    ensures
        document(s) matches Err(e) ==> has_offset(e, s),
{
    lemma_skip_blanks(s, 0);
    lemma_value_located(s, skip_blanks(s, 0), 0);
    if let Ok((v, j)) = value(s, skip_blanks(s, 0), 0) {
        lemma_skip_blanks(s, j);
    }
}

// ---------------------------------------------------------------------------
// Paths

/// A path followed to its end is the first part followed, and the rest from
/// there.
pub proof fn law_paths_compose(v: JsonValue, a: Seq<Seq<char>>, b: Seq<Seq<char>>)
    ensures
        found(v, a + b) == (match found(v, a) {
            Some(w) => found(w, b),
            None => None,
        }),
    decreases a.len(),
{
    if a.len() == 0 {
        assert(a + b =~= b);
    } else {
        assert((a + b).drop_first() =~= a.drop_first() + b);
        if let Some(w) = hop(v, a[0]) {
            law_paths_compose(w, a.drop_first(), b);
        }
    }
}

/// Two selectors with a dot between lead where the second leads from the end
/// of the first.
pub proof fn law_dots_join_paths(v: JsonValue, a: Seq<char>, b: Seq<char>)
    ensures
        found(v, text::pieces(a + seq!['.'] + b, '.')) == (match found(v, text::pieces(a, '.')) {
            Some(w) => found(w, text::pieces(b, '.')),
            None => None,
        }),
{
    text::lemma_pieces_join(a, b, '.');
    law_paths_compose(v, text::pieces(a, '.'), text::pieces(b, '.'));
}

// ---------------------------------------------------------------------------
// Spelling

/// The `\uXXXX` escape at `i` of `x`.
pub open spec fn is_unit(x: Seq<char>, i: int) -> bool {
    &&& 0 <= i && i + 6 <= x.len()
    &&& x[i] == '\\' && x[i + 1] == 'u'
    &&& is_hex(x[i + 2]) && is_hex(x[i + 3]) && is_hex(x[i + 4]) && is_hex(x[i + 5])
}

/// Whether `x` spells `c` in a JSON string: as it is unless it has to be
/// escaped, by a one-letter escape, by the four hexadecimal digits of its
/// code, or by those of its two surrogates.
pub open spec fn spells(x: Seq<char>, c: char) -> bool {
    ||| x == seq![c] && c != '"' && c != '\\' && (c as u32) >= 0x20
    ||| x.len() == 2 && x[0] == '\\' && escape(x[1]) == Some(c)
    ||| x.len() == 6 && is_unit(x, 0) && hex_number(x, 2) == c as int
    ||| {
        &&& x.len() == 12 && is_unit(x, 0) && is_unit(x, 6)
        &&& 0xD800 <= hex_number(x, 2) <= 0xDBFF
        &&& 0xDC00 <= hex_number(x, 8) <= 0xDFFF
        &&& c as int == 0x10000 + (hex_number(x, 2) - 0xD800) * 0x400 + (hex_number(x, 8) - 0xDC00)
    }
}

/// The spellings of the characters of a text, one after the other.
pub open spec fn spelled(parts: Seq<Seq<char>>) -> Seq<char>
    decreases parts.len(),
{
    if parts.len() == 0 {
        Seq::empty()
    } else {
        parts[0] + spelled(parts.drop_first())
    }
}

proof fn lemma_unit_reads(s: Seq<char>, x: Seq<char>, i: int, k: int)
    requires
        0 <= i && i + x.len() <= s.len(),
        s.subrange(i, i + x.len()) == x,
        is_unit(x, k),
    ensures
        hex4(s, i + k + 2) == Ok::<int, Seq<char>>(hex_number(x, k + 2)),
{
    assert forall|j: int| 0 <= j < x.len() implies x[j] == #[trigger] s[i + j] by {
        assert(s.subrange(i, i + x.len())[j] == s[i + j]);
    }
    assert(x[k + 2] == s[i + (k + 2)] && x[k + 3] == s[i + (k + 3)]);
    assert(x[k + 4] == s[i + (k + 4)] && x[k + 5] == s[i + (k + 5)]);
    lemma_some_bytes(s.skip(i + k + 2));
}

/// A spelled character is read, and reading goes on behind it.
proof fn lemma_spelling_reads(s: Seq<char>, i: int, done: Seq<char>, x: Seq<char>, c: char)
    requires
        0 <= i && i + x.len() <= s.len(),
        s.subrange(i, i + x.len()) == x,
        spells(x, c),
    ensures
        x.len() > 0,
        string_rest(s, i, done) == string_rest(s, i + x.len(), done.push(c)),
{
    assert forall|j: int| 0 <= j < x.len() implies x[j] == #[trigger] s[i + j] by {
        assert(s.subrange(i, i + x.len())[j] == s[i + j]);
    }
    assert(x[0] == s[i + 0]);
    if x.len() == 1 {
    } else if x.len() == 2 {
        assert(x[1] == s[i + 1]);
    } else {
        assert(x[1] == s[i + 1]);
        lemma_unit_reads(s, x, i, 0);
        if x.len() == 12 {
            lemma_unit_reads(s, x, i, 6);
            assert(x[6] == s[i + 6] && x[7] == s[i + 7]);
        }
        assert(unicode_escape(s, i + 2) == Ok::<(char, int), Seq<char>>((c, i + x.len())));
    }
}

pub proof fn lemma_spelled_reads(
    s: Seq<char>,
    i: int,
    done: Seq<char>,
    parts: Seq<Seq<char>>,
    t: Seq<char>,
)
    requires
        parts.len() == t.len(),
        forall|k: int| 0 <= k < t.len() ==> spells(#[trigger] parts[k], t[k]),
        0 <= i && i + spelled(parts).len() < s.len(),
        s.subrange(i, i + spelled(parts).len()) == spelled(parts),
        s[i + spelled(parts).len()] == '"',
    ensures
        string_rest(s, i, done) == Ok::<(Seq<char>, int), Seq<char>>(
            (done + t, i + spelled(parts).len() + 1),
        ),
    decreases t.len(),
{
    if t.len() == 0 {
        assert(done + t =~= done);
    } else {
        let x = parts[0];
        let more = parts.drop_first();
        assert(spelled(parts) == x + spelled(more));
        assert(spells(parts[0], t[0]));
        assert(s.subrange(i, i + x.len()) =~= spelled(parts).subrange(0, x.len() as int));
        assert(spelled(parts).subrange(0, x.len() as int) =~= x);
        lemma_spelling_reads(s, i, done, x, t[0]);
        assert forall|k: int| 0 <= k < t.len() - 1 implies spells(
            #[trigger] more[k],
            t.drop_first()[k],
        ) by {
            assert(spells(parts[k + 1], t[k + 1]));
        }
        let j = i + x.len();
        assert(s.subrange(j, j + spelled(more).len()) =~= spelled(more)) by {
            assert forall|k: int| 0 <= k < spelled(more).len() implies s[j + k]
                == #[trigger] spelled(more)[k] by {
                assert(spelled(parts)[x.len() + k] == spelled(more)[k]);
                assert(s.subrange(i, i + spelled(parts).len())[x.len() + k] == s[j + k]);
            }
        }
        lemma_spelled_reads(s, j, done.push(t[0]), more, t.drop_first());
        assert(done.push(t[0]) + t.drop_first() =~= done + t);
    }
}

/// A string reads back as the text it spells, however each of its characters
/// is spelled, and reading ends behind its closing quote.
pub proof fn law_strings_read_back(t: Seq<char>, parts: Seq<Seq<char>>, rest: Seq<char>)
    requires
        parts.len() == t.len(),
        forall|k: int| 0 <= k < t.len() ==> spells(#[trigger] parts[k], t[k]),
    ensures
        string(seq!['"'] + spelled(parts) + seq!['"'] + rest, 0) == Ok::<
            (Seq<char>, int),
            Seq<char>,
        >((t, spelled(parts).len() as int + 2)),
{
    let s = seq!['"'] + spelled(parts) + seq!['"'] + rest;
    let n = spelled(parts).len() as int;
    assert(s.subrange(1, 1 + n) =~= spelled(parts));
    assert(s[1 + n] == '"');
    lemma_spelled_reads(s, 1, Seq::empty(), parts, t);
    assert(Seq::<char>::empty() + t =~= t);
}

} // verus!
