//! Small text tools: characters, decimal digits, trimming, and the few
//! conversions between bytes and text that the standard library makes.

use vstd::prelude::*;
use vstd::string::StringExecFns;

verus! {

/// `String::push` appends the given character to the end of the string.
pub assume_specification[ String::push ](s: &mut String, c: char)
    ensures
        final(s)@ == old(s)@.push(c),
;

/// `char::from_u32` gives the character with that code point, and nothing
/// for a surrogate or a number above `0x10FFFF`.
pub assume_specification[ char::from_u32 ](i: u32) -> (r: Option<char>)
    ensures
        r is Some <==> (i <= 0x10FFFF && !(0xD800 <= i <= 0xDFFF)),
        r matches Some(c) ==> c as u32 == i,
;

/// What `{:?}` writes for a string: the text in double quotes, with
/// backslash escapes for quotes, control and unprintable characters.
pub uninterp spec fn quoted_text(text: Seq<char>) -> Seq<char>;

/// `format!` with `{:?}` on a string writes its quoted, escaped form. Printable
/// ASCII without quotes and backslashes stands unchanged between the double
/// quotes.
#[verifier::external_body]
pub(crate) fn quoted(text: &str) -> (r: String)
    ensures
        r@ == quoted_text(text@),
        is_plain(text@) ==> r@ == between_quotes(text@),
{
    format!("{text:?}")
}

/// Whether a text is printable ASCII without quotes and backslashes.
pub open spec fn is_plain(text: Seq<char>) -> bool {
    forall|i: int|
        0 <= i < text.len() ==> ' ' <= #[trigger] text[i] && text[i] <= '~' && text[i] != '"'
            && text[i] != '\'' && text[i] != '\\'
}

/// A text between double quotes.
pub open spec fn between_quotes(text: Seq<char>) -> Seq<char> {
    seq!['"'] + text + seq!['"']
}

/// A text as messages show it: between double quotes, and with escapes unless
/// it is plain.
pub open spec fn shown_text(text: Seq<char>) -> Seq<char> {
    if is_plain(text) {
        between_quotes(text)
    } else {
        quoted_text(text)
    }
}

/// A text as messages show it.
pub fn shown(text: &str) -> (r: String)
    ensures
        r@ == shown_text(text@),
{
    quoted(text)
}

/// The text `String::from_utf8_lossy` makes of arbitrary bytes.
pub uninterp spec fn lossy_text(bytes: Seq<u8>) -> Seq<char>;

/// `String::from_utf8_lossy` decodes valid UTF-8 as it stands, and puts
/// replacement characters in the place of invalid sequences.
#[verifier::external_body]
pub(crate) fn lossy(bytes: &[u8]) -> (r: String)
    ensures
        r@ == lossy_text(bytes@),
        vstd::utf8::valid_utf8(bytes@) ==> r@ == vstd::utf8::decode_utf8(bytes@),
{
    String::from_utf8_lossy(bytes).into_owned()
}

/// The text that bytes are taken for: what they encode where they are valid
/// UTF-8, and else a text with replacement characters.
pub open spec fn readable_text(bytes: Seq<u8>) -> Seq<char> {
    if vstd::utf8::valid_utf8(bytes) {
        vstd::utf8::decode_utf8(bytes)
    } else {
        lossy_text(bytes)
    }
}

/// The text that bytes are taken for.
pub fn readable(bytes: &[u8]) -> (r: String)
    ensures
        r@ == readable_text(bytes@),
{
    lossy(bytes)
}

/// `std::str::from_utf8` accepts exactly valid UTF-8 and gives the text that
/// the bytes encode.
#[verifier::external_body]
pub(crate) fn utf8_text(bytes: &[u8]) -> (r: Option<&str>)
    ensures
        r is Some <==> vstd::utf8::valid_utf8(bytes@),
        r matches Some(s) ==> s@ == vstd::utf8::decode_utf8(bytes@),
{
    std::str::from_utf8(bytes).ok()
}

/// The characters of `text`.
pub fn chars_of(text: &str) -> (r: Vec<char>)
    ensures
        r@ == text@,
{
    let mut out: Vec<char> = Vec::new();
    for c in it: text.chars()
        invariant
            it.seq() == text@,
            out@ == text@.take(it.index() as int),
    {
        out.push(c);
    }
    assert(text@.take(text@.len() as int) =~= text@);
    out
}

/// The text made of the given characters.
pub fn string_of(cs: &[char]) -> (r: String)
    ensures
        r@ == cs@,
{
    let mut out = String::new();
    let mut i: usize = 0;
    while i < cs.len()
        invariant
            i <= cs@.len(),
            out@ == cs@.take(i as int),
        decreases cs@.len() - i,
    {
        out.push(cs[i]);
        i += 1;
    }
    assert(cs@.take(cs@.len() as int) =~= cs@);
    out
}

/// The text made of `cs[from..to]`.
pub fn substring_of(cs: &[char], from: usize, to: usize) -> (r: String)
    requires
        from <= to <= cs@.len(),
    ensures
        r@ == cs@.subrange(from as int, to as int),
{
    string_of(vstd::slice::slice_subrange(cs, from, to))
}

/// An owned copy of `text`.
pub fn owned(text: &str) -> (r: String)
    ensures
        r@ == text@,
{
    let mut out = String::new();
    out.append(text);
    assert(out@ =~= text@);
    out
}

/// Whether two texts are the same.
pub fn same_text(a: &str, b: &str) -> (r: bool)
    ensures
        r == (a@ == b@),
{
    let x = a.as_bytes();
    let y = b.as_bytes();
    if x.len() != y.len() {
        return false;
    }
    let mut i: usize = 0;
    while i < x.len()
        invariant
            i <= x@.len(),
            x@.len() == y@.len(),
            x@ == vstd::utf8::encode_utf8(a@),
            y@ == vstd::utf8::encode_utf8(b@),
            x@.take(i as int) == y@.take(i as int),
        decreases x@.len() - i,
    {
        if x[i] != y[i] {
            return false;
        }
        assert(x@.take(i + 1) =~= x@.take(i as int).push(x@[i as int]));
        assert(y@.take(i + 1) =~= y@.take(i as int).push(y@[i as int]));
        i += 1;
    }
    assert(x@.take(x@.len() as int) =~= x@);
    assert(y@.take(y@.len() as int) =~= y@);
    proof {
        vstd::utf8::encode_utf8_decode_utf8(a@);
        vstd::utf8::encode_utf8_decode_utf8(b@);
    }
    true
}

/// `a` followed by `b`.
pub fn join2(a: &str, b: &str) -> (r: String)
    ensures
        r@ == a@ + b@,
{
    let mut out = owned(a);
    out.append(b);
    out
}

/// Whether a message says what could not be done, and then why.
pub open spec fn announces(message: Seq<char>, what: Seq<char>) -> bool {
    exists|why: Seq<char>| message == #[trigger] (what + why)
}

/// `a`, `b` and `c` one after the other.
pub fn join3(a: &str, b: &str, c: &str) -> (r: String)
    ensures
        r@ == a@ + b@ + c@,
{
    let mut out = owned(a);
    out.append(b);
    out.append(c);
    out
}

/// Four texts one after the other.
pub fn join4(a: &str, b: &str, c: &str, d: &str) -> (r: String)
    ensures
        r@ == a@ + b@ + c@ + d@,
{
    let mut out = join3(a, b, c);
    out.append(d);
    out
}

/// Five texts one after the other.
pub fn join5(a: &str, b: &str, c: &str, d: &str, e: &str) -> (r: String)
    ensures
        r@ == a@ + b@ + c@ + d@ + e@,
{
    let mut out = join4(a, b, c, d);
    out.append(e);
    out
}

/// `parts` with `sep` between neighbours.
pub open spec fn joined(parts: Seq<Seq<char>>, sep: Seq<char>) -> Seq<char>
    decreases parts.len(),
{
    if parts.len() == 0 {
        Seq::empty()
    } else if parts.len() == 1 {
        parts[0]
    } else {
        joined(parts.drop_last(), sep) + sep + parts.last()
    }
}

/// The texts of a list of strings.
pub open spec fn texts(list: Seq<String>) -> Seq<Seq<char>> {
    Seq::new(list.len(), |i: int| list[i]@)
}

/// `list` with `sep` between neighbours.
pub fn join_all(list: &[String], sep: &str) -> (r: String)
    ensures
        r@ == joined(texts(list@), sep@),
{
    let mut out = String::new();
    let mut i: usize = 0;
    while i < list.len()
        invariant
            i <= list@.len(),
            out@ == joined(texts(list@).take(i as int), sep@),
        decreases list@.len() - i,
    {
        let ghost before = texts(list@).take(i as int);
        let ghost after = texts(list@).take(i + 1);
        assert(after.drop_last() =~= before);
        if i > 0 {
            out.append(sep);
        }
        out.append(list[i].as_str());
        proof {
            if i == 0 {
                assert(out@ =~= after[0]);
            }
        }
        i += 1;
    }
    assert(texts(list@).take(list@.len() as int) =~= texts(list@));
    out
}

// ---------------------------------------------------------------------------
// Decimal digits

/// Whether `c` is one of `0` to `9`.
pub open spec fn is_digit(c: char) -> bool {
    '0' <= c && c <= '9'
}

/// The number a digit stands for.
pub open spec fn digit_value(c: char) -> nat {
    (c as u32 - '0' as u32) as nat
}

/// The digit that stands for `n`, where `n` is below ten.
pub open spec fn digit_char(n: nat) -> char {
    (48 + n) as u8 as char
}

/// Whether every character is a digit.
pub open spec fn all_digits(s: Seq<char>) -> bool {
    forall|i: int| 0 <= i < s.len() ==> is_digit(#[trigger] s[i])
}

/// The number a run of digits stands for.
pub open spec fn decimal(s: Seq<char>) -> nat
    decreases s.len(),
{
    if s.len() == 0 {
        0
    } else {
        decimal(s.drop_last()) * 10 + digit_value(s.last())
    }
}

/// The end of the run of digits that starts at `i`.
pub open spec fn digits_end(s: Seq<char>, i: int) -> int
    decreases s.len() - i,
{
    if 0 <= i < s.len() && is_digit(s[i]) {
        digits_end(s, i + 1)
    } else {
        i
    }
}

/// The number that `s` writes: digits, perhaps after a plus sign, no more
/// than `max`.
pub open spec fn unsigned(s: Seq<char>, max: nat) -> Option<nat> {
    let digits = if s.len() > 0 && s[0] == '+' {
        s.skip(1)
    } else {
        s
    };
    if digits.len() > 0 && all_digits(digits) && decimal(digits) <= max {
        Some(decimal(digits))
    } else {
        None
    }
}

/// The number that `s` writes with digits alone, no more than `max`.
pub open spec fn digits_only(s: Seq<char>, max: nat) -> Option<nat> {
    if s.len() > 0 && all_digits(s) && decimal(s) <= max {
        Some(decimal(s))
    } else {
        None
    }
}

/// A run of digits holds digits only and lies within the text.
pub proof fn lemma_digits_end(s: Seq<char>, i: int)
    requires
        0 <= i <= s.len(),
    ensures
        i <= digits_end(s, i) <= s.len(),
        forall|k: int| i <= k < digits_end(s, i) ==> is_digit(#[trigger] s[k]),
    decreases s.len() - i,
{
    if i < s.len() && is_digit(s[i]) {
        lemma_digits_end(s, i + 1);
    }
}

/// Whether `c` is a digit.
pub fn digit(c: char) -> (r: bool)
    ensures
        r == is_digit(c),
{
    c >= '0' && c <= '9'
}

/// The number a digit stands for.
pub fn digit_of(c: char) -> (r: u8)
    requires
        is_digit(c),
    ensures
        r == digit_value(c),
        r <= 9,
{
    (c as u32 - 48) as u8
}

proof fn lemma_decimal_grows(s: Seq<char>, n: int)
    requires
        0 <= n <= s.len(),
        all_digits(s),
    ensures
        decimal(s.take(n)) <= decimal(s),
    decreases s.len() - n,
{
    if n == s.len() {
        assert(s.take(n) =~= s);
    } else {
        assert(s.drop_last().take(n) =~= s.take(n));
        lemma_decimal_grows(s.drop_last(), n);
    }
}

/// Read an unsigned number no larger than `max`, with an optional plus sign.
pub fn parse_unsigned(cs: &[char], max: u64) -> (r: Option<u64>)
    ensures
        match (r, unsigned(cs@, max as nat)) {
            (Some(n), Some(m)) => n == m,
            (None, None) => true,
            _ => false,
        },
{
    let mut i: usize = 0;
    if cs.len() > 0 && cs[0] == '+' {
        i = 1;
    }
    let start: usize = i;
    let ghost digits = if cs@.len() > 0 && cs@[0] == '+' {
        cs@.skip(1)
    } else {
        cs@
    };
    assert(digits =~= cs@.skip(start as int));
    if i == cs.len() {
        return None;
    }
    let mut n: u64 = 0;
    assert(digits.take(0) =~= Seq::<char>::empty());
    while i < cs.len()
        invariant
            start <= i <= cs@.len(),
            digits == cs@.skip(start as int),
            digits.len() > 0,
            unsigned(cs@, max as nat) == (if all_digits(digits) && decimal(digits) <= max {
                Some(decimal(digits))
            } else {
                None
            }),
            forall|j: int| 0 <= j < i - start ==> is_digit(#[trigger] digits[j]),
            n == decimal(digits.take(i - start)),
            n <= max,
        decreases cs@.len() - i,
    {
        assert(cs@[i as int] == digits[i - start]);
        if !digit(cs[i]) {
            return None;
        }
        let d = digit_of(cs[i]) as u64;
        let ghost k: int = i - start;
        assert(digits.take(k + 1).drop_last() =~= digits.take(k));
        assert(digits.take(k + 1).last() == digits[k]);
        let wide = n as u128 * 10 + d as u128;
        if wide > max as u128 {
            proof {
                if all_digits(digits) {
                    lemma_decimal_grows(digits, k + 1);
                }
            }
            return None;
        }
        n = wide as u64;
        i += 1;
    }
    assert(digits.take(digits.len() as int) =~= digits);
    Some(n)
}

/// Read a number no larger than `max` that is written with digits alone.
pub fn parse_digits(cs: &[char], max: u64) -> (r: Option<u64>)
    ensures
        match (r, digits_only(cs@, max as nat)) {
            (Some(n), Some(m)) => n == m,
            (None, None) => true,
            _ => false,
        },
{
    if cs.len() > 0 && cs[0] == '+' {
        assert(!is_digit(cs@[0]));
        None
    } else {
        parse_unsigned(cs, max)
    }
}

/// The shortest decimal notation of `n`.
pub open spec fn decimal_text(n: nat) -> Seq<char>
    decreases n,
{
    if n < 10 {
        seq![digit_char(n)]
    } else {
        decimal_text(n / 10).push(digit_char(n % 10))
    }
}

/// The decimal notation of a signed number.
pub open spec fn signed_text(n: int) -> Seq<char> {
    if n < 0 {
        seq!['-'] + decimal_text((-n) as nat)
    } else {
        decimal_text(n as nat)
    }
}

/// Write `n` in decimal.
pub fn number_text(n: u64) -> (r: String)
    ensures
        r@ == decimal_text(n as nat),
    decreases n,
{
    let last = ((n % 10) as u8 + 48) as char;
    let mut out = if n < 10 {
        String::new()
    } else {
        number_text(n / 10)
    };
    out.push(last);
    assert(n < 10 ==> out@ =~= decimal_text(n as nat));
    out
}

/// Write a signed number in decimal.
pub fn signed_number_text(n: i64) -> (r: String)
    ensures
        r@ == signed_text(n as int),
{
    if n < 0 {
        let magnitude = (-(n as i128)) as u64;
        let mut out = String::new();
        out.push('-');
        out.append(number_text(magnitude).as_str());
        assert(out@ =~= signed_text(n as int));
        out
    } else {
        number_text(n as u64)
    }
}

// ---------------------------------------------------------------------------
// White space and case

/// The characters with the Unicode property `White_Space`.
pub open spec fn is_space(c: char) -> bool {
    let n = c as u32;
    ||| 0x09 <= n <= 0x0D
    ||| n == 0x20
    ||| n == 0x85
    ||| n == 0xA0
    ||| n == 0x1680
    ||| 0x2000 <= n <= 0x200A
    ||| n == 0x2028
    ||| n == 0x2029
    ||| n == 0x202F
    ||| n == 0x205F
    ||| n == 0x3000
}

/// Whether `c` is white space.
pub fn space(c: char) -> (r: bool)
    ensures
        r == is_space(c),
{
    let n = c as u32;
    (0x09 <= n && n <= 0x0D) || n == 0x20 || n == 0x85 || n == 0xA0 || n == 0x1680 || (0x2000 <= n
        && n <= 0x200A) || n == 0x2028 || n == 0x2029 || n == 0x202F || n == 0x205F || n == 0x3000
}

/// `s` without its leading white space.
pub open spec fn trimmed_start(s: Seq<char>) -> Seq<char>
    decreases s.len(),
{
    if s.len() > 0 && is_space(s[0]) {
        trimmed_start(s.drop_first())
    } else {
        s
    }
}

/// `s` without its trailing white space.
pub open spec fn trimmed_end(s: Seq<char>) -> Seq<char>
    decreases s.len(),
{
    if s.len() > 0 && is_space(s.last()) {
        trimmed_end(s.drop_last())
    } else {
        s
    }
}

/// `s` without the white space at either end.
pub open spec fn trimmed(s: Seq<char>) -> Seq<char> {
    trimmed_end(trimmed_start(s))
}

/// The characters of `cs` without the white space at either end.
pub fn trim(cs: &[char]) -> (r: &[char])
    ensures
        r@ == trimmed(cs@),
{
    let mut from: usize = 0;
    assert(cs@.skip(0) =~= cs@);
    while from < cs.len() && space(cs[from])
        invariant
            from <= cs@.len(),
            trimmed_start(cs@) == trimmed_start(cs@.skip(from as int)),
        decreases cs@.len() - from,
    {
        assert(cs@.skip(from as int).drop_first() =~= cs@.skip(from + 1));
        from += 1;
    }
    let ghost head = cs@.skip(from as int);
    let mut to: usize = cs.len();
    assert(cs@.subrange(from as int, to as int) =~= head);
    while to > from && space(cs[to - 1])
        invariant
            from <= to <= cs@.len(),
            trimmed_end(head) == trimmed_end(cs@.subrange(from as int, to as int)),
        decreases to,
    {
        assert(cs@.subrange(from as int, to as int).drop_last() =~= cs@.subrange(
            from as int,
            to - 1,
        ));
        to -= 1;
    }
    vstd::slice::slice_subrange(cs, from, to)
}

/// `c` in lower case if it is an ASCII letter.
pub open spec fn lower_char(c: char) -> char {
    if 'A' <= c && c <= 'Z' {
        (c as u8 + 32) as u8 as char
    } else {
        c
    }
}

/// `s` with its ASCII letters in lower case.
pub open spec fn lower_text(s: Seq<char>) -> Seq<char> {
    Seq::new(s.len(), |i: int| lower_char(s[i]))
}

/// The characters with the ASCII letters in lower case.
pub fn lower(cs: &[char]) -> (r: Vec<char>)
    ensures
        r@ == lower_text(cs@),
{
    let mut out: Vec<char> = Vec::new();
    let mut i: usize = 0;
    while i < cs.len()
        invariant
            i <= cs@.len(),
            out@ == lower_text(cs@).take(i as int),
        decreases cs@.len() - i,
    {
        let c = cs[i];
        if c >= 'A' && c <= 'Z' {
            out.push((c as u8 + 32) as char);
        } else {
            out.push(c);
        }
        i += 1;
        assert(out@ =~= lower_text(cs@).take(i as int));
    }
    assert(lower_text(cs@).take(cs@.len() as int) =~= lower_text(cs@));
    out
}

/// The text with its ASCII letters in lower case.
pub fn lowered(s: &str) -> (r: String)
    ensures
        r@ == lower_text(s@),
{
    let cs = chars_of(s);
    string_of(&lower(&cs))
}

// ---------------------------------------------------------------------------
// Splitting

/// Whether `c` stands at `i`.
pub open spec fn stands(s: Seq<char>, i: int, c: char) -> bool {
    0 <= i < s.len() && s[i] == c
}

/// The position of the first `sep` in `s`, or the length of `s`.
pub open spec fn find(s: Seq<char>, sep: char) -> int
    decreases s.len(),
{
    if s.len() == 0 || s[0] == sep {
        0
    } else {
        1 + find(s.drop_first(), sep)
    }
}

/// The pieces of `s` between occurrences of `sep`; always at least one.
pub open spec fn pieces(s: Seq<char>, sep: char) -> Seq<Seq<char>>
    decreases s.len(),
{
    let i = find(s, sep);
    if 0 <= i < s.len() {
        seq![s.take(i)] + pieces(s.skip(i + 1), sep)
    } else {
        seq![s]
    }
}

/// What `find` gives: the separator stands there and nowhere before.
pub proof fn lemma_find(s: Seq<char>, sep: char)
    ensures
        0 <= find(s, sep) <= s.len(),
        find(s, sep) < s.len() ==> s[find(s, sep)] == sep,
        forall|j: int| 0 <= j < find(s, sep) ==> #[trigger] s[j] != sep,
    decreases s.len(),
{
    if s.len() != 0 && s[0] != sep {
        lemma_find(s.drop_first(), sep);
        assert forall|j: int| 0 <= j < find(s, sep) implies #[trigger] s[j] != sep by {
            if j > 0 {
                assert(s[j] == s.drop_first()[j - 1]);
            }
        }
    }
}

/// The position of the first `sep` at or after `from`, or the length.
pub fn find_from(cs: &[char], sep: char, from: usize) -> (r: usize)
    requires
        from <= cs@.len(),
    ensures
        r == from + find(cs@.skip(from as int), sep),
        from <= r <= cs@.len(),
        r < cs@.len() ==> cs@[r as int] == sep,
{
    let mut i: usize = from;
    while i < cs.len() && cs[i] != sep
        invariant
            from <= i <= cs@.len(),
            from + find(cs@.skip(from as int), sep) == i + find(cs@.skip(i as int), sep),
        decreases cs@.len() - i,
    {
        assert(cs@.skip(i as int).drop_first() =~= cs@.skip(i + 1));
        i += 1;
    }
    i
}

/// Split at every occurrence of `sep`.
pub fn split(cs: &[char], sep: char) -> (r: Vec<String>)
    ensures
        texts(r@) == pieces(cs@, sep),
{
    let mut out: Vec<String> = Vec::new();
    let mut from: usize = 0;
    assert(cs@.skip(0) =~= cs@);
    assert(texts(out@) =~= Seq::<Seq<char>>::empty());
    assert(Seq::<Seq<char>>::empty() + pieces(cs@, sep) =~= pieces(cs@, sep));
    loop
        invariant
            from <= cs@.len(),
            texts(out@) + pieces(cs@.skip(from as int), sep) == pieces(cs@, sep),
        decreases cs@.len() - from,
    {
        let to = find_from(cs, sep, from);
        let ghost rest = cs@.skip(from as int);
        let ghost done = texts(out@);
        out.push(substring_of(cs, from, to));
        assert(texts(out@) =~= done.push(cs@.subrange(from as int, to as int)));
        assert(rest.take(to - from) =~= cs@.subrange(from as int, to as int));
        if to == cs.len() {
            assert(rest.take(to - from) =~= rest);
            assert(texts(out@) =~= done + seq![rest]);
            return out;
        }
        assert(rest.skip(to - from + 1) =~= cs@.skip(to + 1));
        assert(texts(out@) + pieces(cs@.skip(to + 1), sep) =~= done + (seq![rest.take(to - from)]
            + pieces(rest.skip(to - from + 1), sep)));
        from = to + 1;
    }
}

/// The pieces of two texts with a separator between are the pieces of both.
pub proof fn lemma_pieces_join(a: Seq<char>, b: Seq<char>, sep: char)
    ensures
        pieces(a + seq![sep] + b, sep) == pieces(a, sep) + pieces(b, sep),
    decreases a.len(),
{
    let s = a + seq![sep] + b;
    let i = find(a, sep);
    lemma_find(a, sep);
    lemma_find(s, sep);
    let m = find(s, sep);
    assert(s[a.len() as int] == sep);
    assert(forall|j: int| 0 <= j < a.len() ==> #[trigger] s[j] == a[j]);
    if m < i {
        assert(a[m] == s[m]);
    } else if i < m {
        assert(s[i] == sep);
    }
    if i < a.len() {
        lemma_pieces_join(a.skip(i + 1), b, sep);
        assert(s.take(i) =~= a.take(i));
        assert(s.skip(i + 1) =~= a.skip(i + 1) + seq![sep] + b);
        assert(seq![a.take(i)] + (pieces(a.skip(i + 1), sep) + pieces(b, sep)) =~= pieces(a, sep)
            + pieces(b, sep));
    } else {
        assert(s.take(i) =~= a);
        assert(s.skip(i + 1) =~= b);
    }
}

} // verus!
