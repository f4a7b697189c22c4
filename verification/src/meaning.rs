//! What keys mean: the words of a key spec, the values that records have
//! under a key, and the order these values stand in.

use vstd::prelude::*;

use crate::csv;
use crate::datetime;
use crate::double;
use crate::double::Double;
use crate::extract;
use crate::extract::{Content, Format, Rules};
use crate::json;
use crate::json::JsonValue;
use crate::keyorder;
use crate::keyspec;
use crate::keyspec::{ColRef, Key};
use crate::order;
use crate::reading;
use crate::render;
use crate::text;
use crate::value;
use crate::value::{KeyType, MissingOrder, Part};

verus! {

// ---------------------------------------------------------------------------
// Key specs

/// The words for a type.
pub open spec fn names_type(w: Seq<char>, ty: KeyType) -> bool {
    match ty {
        KeyType::Str => w == "str"@ || w == "string"@,
        KeyType::Num => w == "num"@ || w == "number"@,
        KeyType::Date => w == "date"@ || w == "datetime"@ || w == "time"@,
    }
}

proof fn lemma_words()
    ensures
        "str"@.len() == 3 && "string"@.len() == 6 && "num"@.len() == 3 && "number"@.len() == 6,
        "date"@.len() == 4 && "datetime"@.len() == 8 && "time"@.len() == 4,
        "asc"@.len() == 3 && "ascending"@.len() == 9 && "desc"@.len() == 4,
        "descending"@.len() == 10 && "ci"@.len() == 2,
        "str"@ != "num"@ && "str"@ != "asc"@ && "num"@ != "asc"@ && "string"@ != "number"@,
        "date"@ != "time"@ && "date"@ != "desc"@ && "time"@ != "desc"@,
{
    reveal_strlit("str");
    reveal_strlit("string");
    reveal_strlit("num");
    reveal_strlit("number");
    reveal_strlit("date");
    reveal_strlit("datetime");
    reveal_strlit("time");
    reveal_strlit("asc");
    reveal_strlit("ascending");
    reveal_strlit("desc");
    reveal_strlit("descending");
    reveal_strlit("ci");
    assert("str"@[0] == 's' && "num"@[0] == 'n' && "asc"@[0] == 'a');
    assert("string"@[0] == 's' && "number"@[0] == 'n');
    assert("date"@[1] == 'a' && "time"@[1] == 'i' && "desc"@[1] == 'e');
}

/// Each type has its names, and no text names two.
pub proof fn law_types_have_names(w: Seq<char>, ty: KeyType)
    ensures
        value::key_type(w) == Some(ty) <==> names_type(w, ty),
{
    lemma_words();
}

/// Whether `w` is the name of a type.
pub open spec fn is_type(w: Seq<char>) -> bool {
    names_type(w, KeyType::Str) || names_type(w, KeyType::Num) || names_type(w, KeyType::Date)
}

/// Whether `w` says which way to sort.
pub open spec fn is_direction(w: Seq<char>) -> bool {
    w == "asc"@ || w == "ascending"@ || w == "desc"@ || w == "descending"@
}

/// Whether the last word that says which way to sort says downwards.
pub open spec fn downwards(words: Seq<Seq<char>>) -> bool
    decreases words.len(),
{
    if words.len() == 0 {
        false
    } else if is_direction(words.last()) {
        words.last() == "desc"@ || words.last() == "descending"@
    } else {
        downwards(words.drop_last())
    }
}

/// Whether every word is known, and one type at most is named.
pub open spec fn are_modifiers(words: Seq<Seq<char>>) -> bool {
    &&& forall|i: int|
        0 <= i < words.len() ==> is_type(#[trigger] words[i]) || is_direction(words[i]) || words[i]
            == "ci"@
    &&& forall|i: int, j: int|
        0 <= i < j < words.len() ==> !(is_type(#[trigger] words[i]) && is_type(
            #[trigger] words[j],
        ))
}

/// Whether a type is named among the words.
pub open spec fn named(words: Seq<Seq<char>>, ty: KeyType) -> bool {
    exists|i: int| 0 <= i < words.len() && names_type(#[trigger] words[i], ty)
}

proof fn lemma_modifiers(spec: Seq<char>, words: Seq<Seq<char>>)
    ensures
        ({
            let r = keyspec::all_modified(spec, keyspec::unmodified(), words);
            &&& r is Ok <==> are_modifiers(words)
            &&& r matches Ok(m) ==> {
                &&& m.ci <==> words.contains("ci"@)
                &&& m.desc == downwards(words)
                &&& m.ty is None ==> forall|ty: KeyType| !#[trigger] named(words, ty)
                &&& m.ty matches Some(ty) ==> named(words, ty)
            }
        }),
    decreases words.len(),
{
    lemma_words();
    let m0 = keyspec::unmodified();
    if words.len() > 0 {
        let init = words.drop_last();
        let w = words.last();
        let n = words.len() - 1;
        lemma_modifiers(spec, init);
        assert(words =~= init + seq![w]);
        keyspec::lemma_modified_in_turn(spec, m0, init, seq![w]);
        assert(seq![w].drop_first() =~= Seq::<Seq<char>>::empty());
        reveal_with_fuel(keyspec::all_modified, 2);
        assert forall|i: int| 0 <= i < init.len() implies init[i] == #[trigger] words[i] by {}
        if are_modifiers(words) {
            assert forall|i: int| 0 <= i < init.len() implies is_type(#[trigger] init[i])
                || is_direction(init[i]) || init[i] == "ci"@ by {
                assert(words[i] == init[i]);
            }
            assert forall|i: int, j: int| 0 <= i < j < init.len() implies !(is_type(
                #[trigger] init[i],
            ) && is_type(#[trigger] init[j])) by {
                assert(words[i] == init[i] && words[j] == init[j]);
            }
            assert(are_modifiers(init));
            assert(words[n] == w);
        }
        if let Ok(m) = keyspec::all_modified(spec, m0, init) {
            assert(words[n] == w);
            law_types_have_names(w, KeyType::Str);
            law_types_have_names(w, KeyType::Num);
            law_types_have_names(w, KeyType::Date);
            assert forall|ty: KeyType| named(init, ty) implies #[trigger] named(words, ty) by {
                let i = choose|i: int| 0 <= i < init.len() && names_type(#[trigger] init[i], ty);
                assert(words[i] == init[i]);
            }
            assert forall|ty: KeyType| #[trigger] named(words, ty) implies named(init, ty)
                || names_type(w, ty) by {
                let i = choose|i: int| 0 <= i < words.len() && names_type(#[trigger] words[i], ty);
                if i < n {
                    assert(words[i] == init[i]);
                }
            }
            assert(names_type(w, KeyType::Str) ==> named(words, KeyType::Str));
            assert(names_type(w, KeyType::Num) ==> named(words, KeyType::Num));
            assert(names_type(w, KeyType::Date) ==> named(words, KeyType::Date));
            assert(words.contains("ci"@) <==> init.contains("ci"@) || w == "ci"@) by {
                if words.contains("ci"@) {
                    let i = words.index_of("ci"@);
                    if i < n {
                        assert(init[i] == "ci"@);
                    }
                }
                if init.contains("ci"@) {
                    let i = init.index_of("ci"@);
                    assert(words[i] == "ci"@);
                }
            }
            if m.ty is Some {
                let ty = m.ty->Some_0;
                let i = choose|i: int| 0 <= i < init.len() && names_type(#[trigger] init[i], ty);
                assert(is_type(words[i]));
                if is_type(w) {
                    assert(!are_modifiers(words)) by {
                        assert(is_type(words[i]) && is_type(words[n]));
                    }
                }
            }
            let r = keyspec::all_modified(spec, m0, words);
            assert(r == keyspec::modified(spec, m, w));
            if r is Ok && is_type(w) {
                assert(m.ty is None);
                assert forall|i: int, j: int| 0 <= i < j < words.len() implies !(is_type(
                    #[trigger] words[i],
                ) && is_type(#[trigger] words[j])) by {
                    assert(words[i] == init[i]);
                    if is_type(words[i]) {
                        assert(!named(init, KeyType::Str) && !named(init, KeyType::Num) && !named(
                            init,
                            KeyType::Date,
                        ));
                    }
                }
                assert(are_modifiers(words));
            } else if r is Ok {
                assert forall|i: int, j: int| 0 <= i < j < words.len() implies !(is_type(
                    #[trigger] words[i],
                ) && is_type(#[trigger] words[j])) by {
                    if j < n {
                        assert(words[i] == init[i] && words[j] == init[j]);
                    }
                }
                assert(are_modifiers(words));
            }
        }
    } else {
        assert(downwards(words) == false);
    }
}

/// A selector and words behind it, with colons between.
pub open spec fn spec_text(field: Seq<char>, words: Seq<Seq<char>>) -> Seq<char>
    decreases words.len(),
{
    if words.len() == 0 {
        field
    } else {
        spec_text(field, words.drop_last()) + seq![':'] + words.last()
    }
}

proof fn lemma_no_sep(s: Seq<char>, sep: char)
    requires
        !s.contains(sep),
    ensures
        text::pieces(s, sep) == seq![s],
{
    text::lemma_find(s, sep);
    if text::find(s, sep) < s.len() {
        assert(s[text::find(s, sep)] == sep);
    }
}

proof fn lemma_spec_pieces(field: Seq<char>, words: Seq<Seq<char>>)
    requires
        !field.contains(':'),
        forall|i: int| 0 <= i < words.len() ==> !(#[trigger] words[i]).contains(':'),
    ensures
        text::pieces(spec_text(field, words), ':') == seq![field] + words,
    decreases words.len(),
{
    if words.len() == 0 {
        lemma_no_sep(field, ':');
        assert(seq![field] + words =~= seq![field]);
    } else {
        let init = words.drop_last();
        assert forall|i: int| 0 <= i < init.len() implies !(#[trigger] init[i]).contains(':') by {
            assert(words[i] == init[i]);
        }
        lemma_spec_pieces(field, init);
        assert(!words[words.len() - 1].contains(':'));
        lemma_no_sep(words.last(), ':');
        text::lemma_pieces_join(spec_text(field, init), words.last(), ':');
        assert(seq![field] + init + seq![words.last()] =~= seq![field] + words);
    }
}

/// A key spec says its selector, then in any order its type, `str` unless one
/// is named, whether case counts, and the direction, up unless the last word
/// for it says down. It is refused exactly where a word is not known, two
/// types are named, the selector is empty, or `ci` stands with another type
/// than `str`.
pub proof fn law_specs_say_what_their_words_say(field: Seq<char>, words: Seq<Seq<char>>)
    requires
        !field.contains(':'),
        forall|i: int| 0 <= i < words.len() ==> !(#[trigger] words[i]).contains(':'),
    ensures
        ({
            let r = keyspec::specified(spec_text(field, words));
            &&& r is Ok <==> {
                &&& field.len() > 0
                &&& are_modifiers(words)
                &&& words.contains("ci"@) ==> !named(words, KeyType::Num) && !named(
                    words,
                    KeyType::Date,
                )
            }
            &&& r matches Ok(key) ==> {
                &&& key.field == field
                &&& key.ci <==> words.contains("ci"@)
                &&& key.desc <==> downwards(words)
                &&& named(words, KeyType::Num) <==> key.ty == KeyType::Num
                &&& named(words, KeyType::Date) <==> key.ty == KeyType::Date
            }
        }),
{
    let s = spec_text(field, words);
    lemma_spec_pieces(field, words);
    assert((seq![field] + words).drop_first() =~= words);
    assert((seq![field] + words)[0] == field);
    lemma_modifiers(s, words);
    lemma_words();
    if let Ok(m) = keyspec::all_modified(s, keyspec::unmodified(), words) {
        lemma_one_type(words, KeyType::Str, KeyType::Num);
        lemma_one_type(words, KeyType::Str, KeyType::Date);
        lemma_one_type(words, KeyType::Num, KeyType::Date);
        if m.ty is None {
            assert(!named(words, KeyType::Num) && !named(words, KeyType::Date));
        }
    }
}

proof fn lemma_one_type(words: Seq<Seq<char>>, a: KeyType, b: KeyType)
    requires
        are_modifiers(words),
        a != b,
    ensures
        !(named(words, a) && named(words, b)),
{
    lemma_words();
    if named(words, a) && named(words, b) {
        let i = choose|i: int| 0 <= i < words.len() && names_type(#[trigger] words[i], a);
        let j = choose|j: int| 0 <= j < words.len() && names_type(#[trigger] words[j], b);
        assert(is_type(words[i]) && is_type(words[j]));
    }
}

/// A number that names no column is the column with that number, counted
/// from one; zero is none. A header makes no difference to that unless it
/// has the name.
pub proof fn law_columns_are_counted_from_one(n: nat, header: Seq<Seq<char>>)
    requires
        n <= usize::MAX,
        !header.contains(text::decimal_text(n)),
    ensures
        n > 0 ==> keyspec::column(text::decimal_text(n), header) == Ok::<ColRef, Seq<char>>(
            ColRef::Index((n - 1) as usize),
        ),
        n > 0 ==> keyspec::column_number(text::decimal_text(n)) == Ok::<ColRef, Seq<char>>(
            ColRef::Index((n - 1) as usize),
        ),
        n == 0 ==> keyspec::column(text::decimal_text(n), header) is Err && keyspec::column_number(
            text::decimal_text(n),
        ) is Err,
{
    reading::law_written_numbers_read_back(n, usize::MAX as nat);
    lemma_no_position(header, text::decimal_text(n));
}

/// A selector that is neither a name of the header nor a number is refused,
/// and without a header one that is no number is.
pub proof fn law_other_columns_are_refused(field: Seq<char>, header: Seq<Seq<char>>)
    requires
        !reading::is_figures(field),
    ensures
        !header.contains(field) ==> keyspec::column(field, header) is Err,
        !(field.len() > 0 && field[0] == '+' && reading::is_figures(field.skip(1)))
            ==> keyspec::column_number(field) is Err,
{
    reading::law_numbers_are_digits(field, usize::MAX as nat);
    if !header.contains(field) {
        lemma_no_position(header, field);
    }
}

proof fn lemma_no_position(list: Seq<Seq<char>>, name: Seq<char>)
    requires
        !list.contains(name),
    ensures
        keyspec::position(list, name) is None,
    decreases list.len(),
{
    if list.len() > 0 {
        assert(list[0] != name);
        assert(!list.drop_first().contains(name)) by {
            if list.drop_first().contains(name) {
                let i = list.drop_first().index_of(name);
                assert(list[i + 1] == name);
            }
        }
        lemma_no_position(list.drop_first(), name);
    }
}

// ---------------------------------------------------------------------------
// Values

/// The part that a text has under a type, if it has one: itself, folded where
/// case does not count, or the number or the instant it writes within white
/// space. A NaN is no number.
pub open spec fn text_part(t: Seq<char>, ty: KeyType, ci: bool) -> Option<Part> {
    match ty {
        KeyType::Str => Some(
            Part::Str(if ci {
                text::lower_text(t)
            } else {
                t
            }),
        ),
        KeyType::Num => match double::reading(text::trimmed(t)) {
            Some(n) => if n.magnitude() > double::INFINITE {
                None
            } else {
                Some(Part::Num(n))
            },
            None => None,
        },
        KeyType::Date => match datetime::instant(text::trimmed(t)) {
            Ok(ms) => Some(Part::Date(ms as i64)),
            Err(_) => None,
        },
    }
}

/// The message that a value of a field could not be used for a reason.
pub open spec fn blames(e: Seq<char>, field: Seq<char>) -> bool {
    exists|why: Seq<char>| e == #[trigger] ("field '"@ + field + "': "@ + why)
}

/// What becomes of a value that is there: its part where it has one; where
/// it has none, a missing part if that is forgiven, and else an error that
/// names the field.
pub open spec fn comes_to(
    r: Result<Part, Seq<char>>,
    p: Option<Part>,
    field: Seq<char>,
    lenient: bool,
) -> bool {
    match p {
        Some(part) => r == Ok::<Part, Seq<char>>(part),
        None => if lenient {
            r == Ok::<Part, Seq<char>>(Part::Missing)
        } else {
            r matches Err(e) && blames(e, field)
        },
    }
}

/// A CSV field: missing where there is no such column or nothing in it, and
/// else what its text comes to.
pub proof fn law_csv_values(rules: Rules, fields: Seq<Seq<char>>, i: int, col: usize)
    requires
        0 <= i < rules.keys.len(),
        rules.cols[i] == ColRef::Index(col),
        rules.keys[i].ci ==> rules.keys[i].ty == KeyType::Str,
    ensures
        ({
            let key = rules.keys[i];
            let r = extract::part(rules, Content::Csv(fields), i);
            if col >= fields.len() || fields[col as int].len() == 0 {
                r == Ok::<Part, Seq<char>>(Part::Missing)
            } else {
                comes_to(
                    r,
                    text_part(fields[col as int], key.ty, key.ci),
                    key.field,
                    rules.lenient,
                )
            }
        }),
{
    let key = rules.keys[i];
    if !(col >= fields.len() || fields[col as int].len() == 0) {
        let t = fields[col as int];
        let r = value::typed(extract::folded(t, key), key.ty);
        if let Err(e) = r {
            assert(blames("field '"@ + key.field + "': "@ + e, key.field));
        }
    }
}

/// The part that a JSON value has under a type, if it has one. Text is as it
/// is in CSV. Numbers are themselves under `num`, seconds since 1970 under
/// `date`, and under `str`, like the two truth values, what JSON writes.
pub open spec fn json_value_part(v: JsonValue, ty: KeyType, ci: bool) -> Option<Part> {
    match v {
        JsonValue::Str(t) => text_part(t, ty, ci),
        JsonValue::Num(n) => match ty {
            KeyType::Num => Some(Part::Num(n)),
            KeyType::Str => Some(Part::Str(render::json_number_text(n))),
            KeyType::Date => match double::milliseconds(n) {
                Some(ms) => Some(Part::Date(ms as i64)),
                None => None,
            },
        },
        JsonValue::Bool(b) => if ty == KeyType::Str {
            Some(
                Part::Str(if b {
                    seq!['t', 'r', 'u', 'e']
                } else {
                    seq!['f', 'a', 'l', 's', 'e']
                }),
            )
        } else {
            None
        },
        _ => None,
    }
}

/// A JSON value: missing where the path leads nowhere or to a `null`, and
/// else what the value comes to.
pub proof fn law_json_values(rules: Rules, doc: JsonValue, i: int)
    requires
        0 <= i < rules.keys.len(),
        rules.keys[i].ci ==> rules.keys[i].ty == KeyType::Str,
    ensures
        ({
            let key = rules.keys[i];
            let r = extract::part(rules, Content::Json(doc), i);
            match json::found(doc, text::pieces(key.field, '.')) {
                None => r == Ok::<Part, Seq<char>>(Part::Missing),
                Some(v) => if v is Null {
                    r == Ok::<Part, Seq<char>>(Part::Missing)
                } else {
                    comes_to(r, json_value_part(v, key.ty, key.ci), key.field, rules.lenient)
                },
            }
        }),
{
    reveal_strlit("true");
    reveal_strlit("false");
    assert("true"@ =~= seq!['t', 'r', 'u', 'e']);
    assert("false"@ =~= seq!['f', 'a', 'l', 's', 'e']);
    let key = rules.keys[i];
    if let Some(v) = json::found(doc, text::pieces(key.field, '.')) {
        if !(v is Null) {
            let r = extract::json_part(key, v);
            if let Err(e) = r {
                assert(blames("field '"@ + key.field + "': "@ + e, key.field));
            }
        }
    }
}

/// A text is the same key part in a CSV field and in a JSON string, under
/// every type; and under `num` so is the JSON number that it writes.
pub proof fn law_texts_mean_the_same_in_both_formats(
    csv_rules: Rules,
    json_rules: Rules,
    fields: Seq<Seq<char>>,
    col: usize,
    doc: JsonValue,
    i: int,
)
    requires
        0 <= i < csv_rules.keys.len(),
        0 <= i < json_rules.keys.len(),
        csv_rules.keys[i] == json_rules.keys[i],
        csv_rules.lenient == json_rules.lenient,
        csv_rules.keys[i].ci ==> csv_rules.keys[i].ty == KeyType::Str,
        csv_rules.cols[i] == ColRef::Index(col),
        col < fields.len(),
        fields[col as int].len() > 0,
    ensures
        ({
            let t = fields[col as int];
            let p = extract::part(csv_rules, Content::Csv(fields), i);
            let q = extract::part(json_rules, Content::Json(doc), i);
            let v = json::found(doc, text::pieces(json_rules.keys[i].field, '.'));
            &&& v == Some(JsonValue::Str(t)) ==> p == q
            &&& v matches Some(JsonValue::Num(n)) ==> json_rules.keys[i].ty == KeyType::Num
                && double::reading(text::trimmed(t)) == Some(n) && !n.is_nan() ==> p == q
                && p == Ok::<Part, Seq<char>>(Part::Num(n))
        }),
{
}

/// Whether two lists of keys differ in their directions at most.
pub open spec fn same_but_direction(a: Seq<Key>, b: Seq<Key>) -> bool {
    a.len() == b.len() && forall|i: int|
        0 <= i < a.len() ==> {
            &&& (#[trigger] a[i]).field == b[i].field
            &&& a[i].ty == b[i].ty
            &&& a[i].ci == b[i].ci
        }
}

/// Whether two sets of rules differ in how parts are ordered at most: the
/// directions of the keys, where missing parts go, and whether all is turned
/// around.
pub open spec fn same_but_order(a: Rules, b: Rules) -> bool {
    &&& a.format == b.format
    &&& same_but_direction(a.keys, b.keys)
    &&& a.cols == b.cols
    &&& a.delim == b.delim
    &&& a.lenient == b.lenient
}

/// The values of a record do not depend on how they are to be ordered.
pub proof fn law_order_changes_no_value(a: Rules, b: Rules, raw: Seq<u8>)
    requires
        same_but_order(a, b),
    ensures
        extract::record_parts(a, raw) == extract::record_parts(b, raw),
{
    if let Ok(c) = extract::content(a, raw) {
        lemma_same_parts(a, b, c, a.keys.len());
    }
}

proof fn lemma_same_parts(a: Rules, b: Rules, c: Content, n: nat)
    requires
        same_but_order(a, b),
        n <= a.keys.len(),
    ensures
        extract::parts(a, c, n) == extract::parts(b, c, n),
    decreases n,
{
    if n > 0 {
        lemma_same_parts(a, b, c, (n - 1) as nat);
        assert(a.keys[n - 1].field == b.keys[n - 1].field);
        assert(extract::part(a, c, n - 1) == extract::part(b, c, n - 1));
    }
}

/// The values of a record are the parts of its keys, one by one, each by its
/// own key; or the first error among them.
pub proof fn law_parts_stand_side_by_side(rules: Rules, raw: Seq<u8>)
    requires
        rules.keys.len() > 0,
        extract::content(rules, raw) is Ok,
    ensures
        ({
            let c = extract::content(rules, raw)->Ok_0;
            let n = rules.keys.len() as int;
            match extract::record_parts(rules, raw) {
                Ok(ps) => ps.len() == n && forall|i: int|
                    0 <= i < n ==> #[trigger] extract::part(rules, c, i) == Ok::<Part, Seq<char>>(
                        ps[i],
                    ),
                Err(e) => exists|i: int|
                    {
                        &&& 0 <= i < n
                        &&& #[trigger] extract::part(rules, c, i) == Err::<Part, Seq<char>>(e)
                        &&& forall|j: int| 0 <= j < i ==> #[trigger] extract::part(rules, c, j) is Ok
                    },
            }
        }),
{
    let c = extract::content(rules, raw)->Ok_0;
    lemma_parts_each(rules, c, rules.keys.len());
}

proof fn lemma_parts_each(rules: Rules, c: Content, n: nat)
    ensures
        match extract::parts(rules, c, n) {
            Ok(ps) => ps.len() == n && forall|i: int|
                0 <= i < n ==> #[trigger] extract::part(rules, c, i) == Ok::<Part, Seq<char>>(
                    ps[i],
                ),
            Err(e) => exists|i: int|
                {
                    &&& 0 <= i < n
                    &&& #[trigger] extract::part(rules, c, i) == Err::<Part, Seq<char>>(e)
                    &&& forall|j: int| 0 <= j < i ==> #[trigger] extract::part(rules, c, j) is Ok
                },
        },
    decreases n,
{
    if n > 0 {
        lemma_parts_each(rules, c, (n - 1) as nat);
    }
}

/// What a record is taken apart into: the fields of a CSV record; the JSON
/// document that a line is, which has to be valid UTF-8 and valid JSON.
pub proof fn law_records_are_taken_apart(rules: Rules, raw: Seq<u8>)
    ensures
        rules.format == Format::Csv ==> extract::content(rules, raw) == Ok::<Content, Seq<char>>(
            Content::Csv(csv::fields(raw, rules.delim)),
        ),
        rules.format == Format::Jsonl && vstd::utf8::valid_utf8(raw) ==> (match json::document(
            vstd::utf8::decode_utf8(raw),
        ) {
            Ok(v) => extract::content(rules, raw) == Ok::<Content, Seq<char>>(Content::Json(v)),
            Err(_) => extract::content(rules, raw) is Err,
        }),
        rules.format == Format::Jsonl && !vstd::utf8::valid_utf8(raw) ==> extract::content(
            rules,
            raw,
        ) is Err,
        rules.keys.len() > 0 && extract::content(rules, raw) is Err ==> extract::record_key(
            rules,
            raw,
        ) is Err,
{
}

/// Without a key every record has one, and records compare as whole texts.
pub proof fn law_whole_records_compare(rules: Rules, a: Seq<u8>, b: Seq<u8>)
    requires
        rules.keys.len() == 0,
        vstd::utf8::valid_utf8(a),
        vstd::utf8::valid_utf8(b),
    ensures
        extract::record_key(rules, a) is Ok,
        extract::record_key(rules, b) is Ok,
        ({
            let ka = extract::record_key(rules, a)->Ok_0;
            let kb = extract::record_key(rules, b)->Ok_0;
            &&& ka == kb <==> a == b
            &&& !rules.reverse ==> (order::bytes_lt(ka, kb) <==> order::bytes_lt(a, b))
            &&& rules.reverse ==> (order::bytes_lt(ka, kb) <==> order::bytes_lt(b, a))
        }),
{
    extract::law_keys_compare_as_values(rules, a, b);
    vstd::utf8::decode_utf8_encode_utf8(a);
    vstd::utf8::decode_utf8_encode_utf8(b);
    let pa = seq![Part::Str(vstd::utf8::decode_utf8(a))];
    let pb = seq![Part::Str(vstd::utf8::decode_utf8(b))];
    assert(extract::record_parts(rules, a) == Ok::<Seq<Part>, Seq<char>>(pa));
    assert(extract::record_parts(rules, b) == Ok::<Seq<Part>, Seq<char>>(pb));
    assert(keyorder::same_values(pa, pb) <==> pa[0] == pb[0]);
    order::lemma_irreflexive(a);
    reveal_with_fuel(keyorder::parts_before, 2);
}

// ---------------------------------------------------------------------------
// Order

/// Bytes stand before others where they are a proper beginning of them, or
/// have the smaller byte at the first place where both differ.
pub proof fn law_bytes_stand_in_dictionary_order(a: Seq<u8>, b: Seq<u8>)
    ensures
        order::bytes_lt(a, b) <==> {
            ||| a.len() < b.len() && a == b.take(a.len() as int)
            ||| exists|i: int|
                {
                    &&& 0 <= i < a.len() && i < b.len()
                    &&& a.take(i) == #[trigger] b.take(i)
                    &&& a[i] < b[i]
                }
        },
{
    order::lemma_shared(a, b);
    let n = order::shared(a, b);
    assert(a.take(n) =~= b.take(n));
    if a.len() < b.len() && a == b.take(a.len() as int) {
        assert forall|j: int| 0 <= j < a.len() implies #[trigger] a[j] == b[j] by {
            assert(b.take(a.len() as int)[j] == b[j]);
        }
        order::lemma_shared_is(a, b, a.len() as int);
    }
    if exists|i: int|
        {
            &&& 0 <= i < a.len() && i < b.len()
            &&& a.take(i) == #[trigger] b.take(i)
            &&& a[i] < b[i]
        } {
        let i = choose|i: int|
            {
                &&& 0 <= i < a.len() && i < b.len()
                &&& a.take(i) == #[trigger] b.take(i)
                &&& a[i] < b[i]
            };
        assert forall|j: int| 0 <= j < i implies #[trigger] a[j] == b[j] by {
            assert(a.take(i)[j] == b.take(i)[j]);
        }
        order::lemma_shared_is(a, b, i);
    }
    if order::bytes_lt(a, b) && n == a.len() {
        assert(a.take(n) =~= a);
    }
}

/// Whether two parts are of the same value; both zeros are one number.
pub open spec fn alike(p: Part, q: Part) -> bool {
    match (p, q) {
        (Part::Missing, Part::Missing) => true,
        (Part::Str(s), Part::Str(t)) => s == t,
        (Part::Date(s), Part::Date(t)) => s == t,
        (Part::Num(s), Part::Num(t)) => s.place() == t.place(),
        _ => false,
    }
}

/// Whether a part comes before another: a missing one first or last, as it
/// is placed; present ones by their values, downwards if so asked: texts by
/// their bytes, dates by their instants, numbers by where they lie.
pub open spec fn comes_before(p: Part, q: Part, desc: bool, missing: MissingOrder) -> bool {
    match (p, q) {
        (Part::Missing, Part::Missing) => false,
        (Part::Missing, _) => missing == MissingOrder::First,
        (_, Part::Missing) => missing == MissingOrder::Last,
        (Part::Str(s), Part::Str(t)) => if desc {
            order::bytes_lt(vstd::utf8::encode_utf8(t), vstd::utf8::encode_utf8(s))
        } else {
            order::bytes_lt(vstd::utf8::encode_utf8(s), vstd::utf8::encode_utf8(t))
        },
        (Part::Date(s), Part::Date(t)) => if desc {
            t < s
        } else {
            s < t
        },
        (Part::Num(s), Part::Num(t)) => if desc {
            t.place() < s.place()
        } else {
            s.place() < t.place()
        },
        _ => false,
    }
}

/// Records compare by the first key under which their values differ: as that
/// key is directed and missing parts are placed, and the other way round
/// under `reverse`. Keys are the same exactly where no value differs.
pub proof fn law_first_difference_decides(rules: Rules, a: Seq<u8>, b: Seq<u8>, i: int)
    requires
        extract::record_parts(rules, a) is Ok,
        extract::record_parts(rules, b) is Ok,
        0 <= i < rules.keys.len(),
        forall|j: int|
            0 <= j < i ==> alike(
                #[trigger] extract::record_parts(rules, a)->Ok_0[j],
                extract::record_parts(rules, b)->Ok_0[j],
            ),
    ensures
        ({
            let p = extract::record_parts(rules, a)->Ok_0[i];
            let q = extract::record_parts(rules, b)->Ok_0[i];
            let ka = extract::record_key(rules, a)->Ok_0;
            let kb = extract::record_key(rules, b)->Ok_0;
            let desc = rules.keys[i].desc;
            &&& extract::record_key(rules, a) is Ok && extract::record_key(rules, b) is Ok
            &&& !alike(p, q) ==> ka != kb && (order::bytes_lt(ka, kb) <==> (if rules.reverse {
                comes_before(q, p, desc, rules.missing)
            } else {
                comes_before(p, q, desc, rules.missing)
            }))
            &&& alike(p, q) && i == rules.keys.len() - 1 ==> ka == kb
        }),
{
    let pa = extract::record_parts(rules, a)->Ok_0;
    let pb = extract::record_parts(rules, b)->Ok_0;
    let d = extract::directions(rules.keys);
    extract::law_keys_compare_as_values(rules, a, b);
    extract::lemma_record_parts_comparable(rules, a, b);
    extract::lemma_record_parts_comparable(rules, b, a);
    assert forall|j: int| 0 <= j < i implies keyorder::same_value(
        #[trigger] pa[j],
        #[trigger] pb[j],
    ) by {
        assert(alike(pa[j], pb[j]));
    }
    assert(keyorder::comparable(pa[i], pb[i]));
    if alike(pa[i], pb[i]) {
        if i == rules.keys.len() - 1 {
            assert(keyorder::same_values(pa, pb)) by {
                assert forall|j: int| 0 <= j < pa.len() implies keyorder::same_value(
                    #[trigger] pa[j],
                    #[trigger] pb[j],
                ) by {
                    if j < i {
                        assert(alike(pa[j], pb[j]));
                    }
                }
            }
        }
    } else {
        lemma_decides(pa, pb, d, rules.missing, i);
        lemma_decides(pb, pa, d, rules.missing, i);
        assert(!keyorder::same_value(pa[i], pb[i]));
        assert(!keyorder::same_values(pa, pb));
    }
}

proof fn lemma_decides(
    a: Seq<Part>,
    b: Seq<Part>,
    d: Seq<bool>,
    missing: MissingOrder,
    i: int,
)
    requires
        a.len() == b.len() == d.len(),
        0 <= i < a.len(),
        forall|j: int| 0 <= j < i ==> keyorder::same_value(#[trigger] a[j], #[trigger] b[j]),
        !keyorder::same_value(a[i], b[i]),
    ensures
        keyorder::parts_before(a, b, d, missing) == keyorder::part_before(a[i], b[i], d[i], missing),
    decreases i,
{
    if i > 0 {
        assert(keyorder::same_value(a[0], b[0]));
        let x = a.drop_first();
        let y = b.drop_first();
        assert forall|j: int| 0 <= j < i - 1 implies keyorder::same_value(
            #[trigger] x[j],
            #[trigger] y[j],
        ) by {
            assert(keyorder::same_value(a[j + 1], b[j + 1]));
        }
        lemma_decides(x, y, d.drop_first(), missing, i - 1);
    }
}

/// Whether two characters are the same letter of ASCII, or the same
/// character.
pub open spec fn same_letter(c: char, d: char) -> bool {
    ||| c == d
    ||| 'A' <= c && c <= 'Z' && d as int == c as int + 32
    ||| 'A' <= d && d <= 'Z' && c as int == d as int + 32
}

/// Under a key for which case does not count, texts that differ in the case
/// of ASCII letters only have the same part, in whatever direction the key
/// sorts; and no others do.
pub proof fn law_case_does_not_count(rules: Rules, a: Seq<Seq<char>>, b: Seq<Seq<char>>, i: int)
    requires
        0 <= i < rules.keys.len(),
        rules.keys[i].ci && rules.keys[i].ty == KeyType::Str,
        ({
            let ColRef::Index(col) = rules.cols[i];
            &&& col < a.len() && a[col as int].len() > 0
            &&& col < b.len() && b[col as int].len() > 0
        }),
    ensures
        ({
            let ColRef::Index(col) = rules.cols[i];
            let s = a[col as int];
            let t = b[col as int];
            extract::part(rules, Content::Csv(a), i) == extract::part(rules, Content::Csv(b), i)
                <==> s.len() == t.len() && forall|k: int|
                0 <= k < s.len() ==> same_letter(#[trigger] s[k], t[k])
        }),
{
    let ColRef::Index(col) = rules.cols[i];
    let s = a[col as int];
    let t = b[col as int];
    law_csv_values(rules, a, i, col);
    law_csv_values(rules, b, i, col);
    let x = text::lower_text(s);
    let y = text::lower_text(t);
    if s.len() == t.len() && forall|k: int|
        0 <= k < s.len() ==> same_letter(#[trigger] s[k], t[k]) {
        assert forall|k: int| 0 <= k < s.len() implies x[k] == y[k] by {
            lemma_same_letter(s[k], t[k]);
        }
        assert(x =~= y);
    }
    if x == y {
        assert(x.len() == s.len() && y.len() == t.len());
        assert forall|k: int| 0 <= k < s.len() implies same_letter(#[trigger] s[k], t[k]) by {
            assert(x[k] == y[k]);
            lemma_same_letter(s[k], t[k]);
        }
    }
}

proof fn lemma_same_letter(c: char, d: char)
    ensures
        same_letter(c, d) <==> text::lower_char(c) == text::lower_char(d),
{
}

// ---------------------------------------------------------------------------
// Messages

/// A text as messages show it: in double quotes, as it is where it is plain.
pub proof fn law_values_are_shown(t: Seq<char>)
    requires
        forall|i: int|
            0 <= i < t.len() ==> ' ' <= #[trigger] t[i] && t[i] <= '~' && t[i] != '"' && t[i]
                != '\'' && t[i] != '\\',
    ensures
        text::shown_text(t) == seq!['"'] + t + seq!['"'],
{
}

/// What is said of a text that is no number: it is shown without the white
/// space around it, or it is a NaN.
pub proof fn law_numbers_are_refused(t: Seq<char>)
    ensures
        match double::reading(text::trimmed(t)) {
            None => value::number(t) == Err::<Double, Seq<char>>(
                "cannot parse "@ + text::shown_text(text::trimmed(t)) + " as a number"@,
            ),
            Some(n) => if n.is_nan() {
                value::number(t) == Err::<Double, Seq<char>>("NaN is not sortable"@)
            } else {
                value::number(t) == Ok::<Double, Seq<char>>(n)
            },
        },
{
}

/// What is said of a JSON value that has no part under a type names both.
pub proof fn law_mismatches_are_named(key: Key, v: JsonValue)
    requires
        v is Arr || v is Obj || (v is Bool && key.ty != KeyType::Str),
    ensures
        extract::json_part(key, v) == Err::<Part, Seq<char>>(
            "cannot read a JSON "@ + (if v is Arr {
                "array"@
            } else if v is Obj {
                "object"@
            } else {
                "boolean"@
            }) + " as "@ + (match key.ty {
                KeyType::Str => "str"@,
                KeyType::Num => "num"@,
                KeyType::Date => "date"@,
            }),
        ),
{
}

} // verus!
