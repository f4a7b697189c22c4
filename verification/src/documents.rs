//! What JSON documents mean, told by how their values are written down.

use vstd::prelude::*;

use crate::double;
use crate::double::Double;
use crate::json;
use crate::json::JsonValue;
use crate::numbers;
use crate::numbers::{Decimal, Power};
use crate::reading;
use crate::text;

verus! {

/// A value as it is written, with the white space inside it.
pub enum Tree {
    Null,
    Bool(bool),
    Num(Decimal),
    /// A text, and how each of its characters is spelled.
    Str(Seq<char>, Seq<Seq<char>>),
    /// White space where there are no items, and the items.
    Arr(Seq<char>, Seq<Slot>),
    Obj(Seq<char>, Seq<Entry>),
}

/// An item of an array, with the white space on either side.
pub struct Slot {
    pub before: Seq<char>,
    pub tree: Tree,
    pub after: Seq<char>,
}

/// A member of an object, with the white space around its parts.
pub struct Entry {
    pub before: Seq<char>,
    pub key: Seq<char>,
    pub spelling: Seq<Seq<char>>,
    pub behind_key: Seq<char>,
    pub behind_colon: Seq<char>,
    pub tree: Tree,
    pub after: Seq<char>,
}

/// Whether a text is white space: blanks, tabs and line ends.
pub open spec fn is_gap(g: Seq<char>) -> bool {
    forall|i: int|
        0 <= i < g.len() ==> #[trigger] g[i] == ' ' || g[i] == '\t' || g[i] == '\n' || g[i] == '\r'
}

/// Whether a number is written as JSON has it: a minus sign or none, digits
/// that begin with a zero only where that is all, digits behind the point if
/// there is one.
pub open spec fn is_numeral(x: Decimal) -> bool {
    &&& numbers::is_decimal(x)
    &&& x.sign is None || x.sign == Some('-')
    &&& x.whole.len() > 0
    &&& x.whole[0] == '0' ==> x.whole.len() == 1
    &&& x.frac matches Some(f) ==> f.len() > 0
}

/// Whether a spelling spells a text.
pub open spec fn spells_text(t: Seq<char>, spelling: Seq<Seq<char>>) -> bool {
    &&& spelling.len() == t.len()
    &&& forall|k: int| 0 <= k < t.len() ==> json::spells(#[trigger] spelling[k], t[k])
}

/// The text of a string.
pub open spec fn string_text(spelling: Seq<Seq<char>>) -> Seq<char> {
    seq!['"'] + json::spelled(spelling) + seq!['"']
}

/// Whether a value is written as it has to be, at most `room` arrays and
/// objects inside each other.
pub open spec fn is_tree(tree: Tree, room: int) -> bool
    decreases tree,
{
    match tree {
        Tree::Null => room >= 0,
        Tree::Bool(_) => room >= 0,
        Tree::Num(n) => room >= 0 && is_numeral(n),
        Tree::Str(t, spelling) => room >= 0 && spells_text(t, spelling),
        Tree::Arr(gap, slots) => room >= 0 && is_gap(gap) && forall|i: int|
            0 <= i < slots.len() ==> {
                &&& is_gap((#[trigger] slots[i]).before)
                &&& is_gap(slots[i].after)
                &&& is_tree(slots[i].tree, room - 1)
            },
        Tree::Obj(gap, entries) => room >= 0 && is_gap(gap) && forall|i: int|
            0 <= i < entries.len() ==> {
                &&& is_gap((#[trigger] entries[i]).before)
                &&& is_gap(entries[i].after)
                &&& is_gap(entries[i].behind_key)
                &&& is_gap(entries[i].behind_colon)
                &&& spells_text(entries[i].key, entries[i].spelling)
                &&& is_tree(entries[i].tree, room - 1)
            },
    }
}

/// The text of a value.
pub open spec fn tree_text(tree: Tree) -> Seq<char>
    decreases tree, 0int,
{
    match tree {
        Tree::Null => seq!['n', 'u', 'l', 'l'],
        Tree::Bool(b) => if b {
            seq!['t', 'r', 'u', 'e']
        } else {
            seq!['f', 'a', 'l', 's', 'e']
        },
        Tree::Num(n) => numbers::decimal_text(n),
        Tree::Str(t, spelling) => string_text(spelling),
        Tree::Arr(gap, slots) => if slots.len() == 0 {
            seq!['['] + gap + seq![']']
        } else {
            seq!['['] + slots[0].before + slots_text(slots)
        },
        Tree::Obj(gap, entries) => if entries.len() == 0 {
            seq!['{'] + gap + seq!['}']
        } else {
            seq!['{'] + entries[0].before + entries_text(entries)
        },
    }
}

/// The text of the items of an array from the first one on, with what closes
/// the array.
pub open spec fn slots_text(slots: Seq<Slot>) -> Seq<char>
    decreases slots, 1int,
{
    if slots.len() == 0 {
        Seq::empty()
    } else {
        tree_text(slots[0].tree) + slots[0].after + (if slots.len() == 1 {
            seq![']']
        } else {
            seq![','] + slots[1].before + slots_text(slots.drop_first())
        })
    }
}

/// The text of a member of an object, without white space before or behind.
pub open spec fn entry_text(e: Entry) -> Seq<char>
    decreases e, 1int,
{
    string_text(e.spelling) + e.behind_key + seq![':'] + e.behind_colon + tree_text(e.tree)
}

/// The text of the members of an object from the first one on, with what
/// closes the object.
pub open spec fn entries_text(entries: Seq<Entry>) -> Seq<char>
    decreases entries, 1int,
{
    if entries.len() == 0 {
        Seq::empty()
    } else {
        entry_text(entries[0]) + entries[0].after + (if entries.len() == 1 {
            seq!['}']
        } else {
            seq![','] + entries[1].before + entries_text(entries.drop_first())
        })
    }
}

/// The number that is written.
pub open spec fn numeral_value(x: Decimal) -> Double {
    double::reading(numbers::decimal_text(x))->Some_0
}

/// The value that is written.
pub open spec fn tree_value(tree: Tree) -> JsonValue
    decreases tree,
{
    match tree {
        Tree::Null => JsonValue::Null,
        Tree::Bool(b) => JsonValue::Bool(b),
        Tree::Num(n) => JsonValue::Num(numeral_value(n)),
        Tree::Str(t, spelling) => JsonValue::Str(t),
        Tree::Arr(gap, slots) => JsonValue::Arr(
            Seq::new(
                slots.len(),
                |i: int|
                    if 0 <= i < slots.len() {
                        tree_value(slots[i].tree)
                    } else {
                        JsonValue::Null
                    },
            ),
        ),
        Tree::Obj(gap, entries) => JsonValue::Obj(
            Seq::new(
                entries.len(),
                |i: int|
                    if 0 <= i < entries.len() {
                        (entries[i].key, tree_value(entries[i].tree))
                    } else {
                        (Seq::empty(), JsonValue::Null)
                    },
            ),
        ),
    }
}

// ---------------------------------------------------------------------------
// Reading

/// Whether `t` stands at `i`.
spec fn here(s: Seq<char>, i: int, t: Seq<char>) -> bool {
    0 <= i && i + t.len() <= s.len() && s.subrange(i, i + t.len()) == t
}

proof fn lemma_here(s: Seq<char>, i: int, t: Seq<char>, k: int)
    requires
        here(s, i, t),
        0 <= k < t.len(),
    ensures
        s[i + k] == t[k],
{
    assert(s.subrange(i, i + t.len())[k] == s[i + k]);
}

proof fn lemma_here_split(s: Seq<char>, i: int, a: Seq<char>, b: Seq<char>)
    requires
        here(s, i, a + b),
    ensures
        here(s, i, a),
        here(s, i + a.len(), b),
{
    let t = a + b;
    assert forall|k: int| 0 <= k < t.len() implies s[i + k] == #[trigger] t[k] by {
        lemma_here(s, i, t, k);
    }
    assert(s.subrange(i, i + a.len()) =~= a) by {
        assert forall|k: int| 0 <= k < a.len() implies s[i + k] == a[k] by {
            assert(t[k] == a[k]);
        }
    }
    assert(s.subrange(i + a.len(), i + a.len() + b.len()) =~= b) by {
        assert forall|k: int| 0 <= k < b.len() implies s[i + a.len() + k] == b[k] by {
            assert(t[a.len() + k] == b[k]);
        }
    }
}

proof fn lemma_gap(s: Seq<char>, i: int, g: Seq<char>)
    requires
        here(s, i, g),
        is_gap(g),
        i + g.len() < s.len() ==> !json::is_blank(s[i + g.len()]),
    ensures
        json::skip_blanks(s, i) == i + g.len(),
    decreases g.len(),
{
    if g.len() > 0 {
        lemma_here(s, i, g, 0);
        let head = seq![g[0]];
        let rest = g.drop_first();
        assert(head + rest =~= g);
        lemma_here_split(s, i, head, rest);
        assert forall|k: int| 0 <= k < rest.len() implies #[trigger] rest[k] == ' ' || rest[k]
            == '\t' || rest[k] == '\n' || rest[k] == '\r' by {
            assert(rest[k] == g[k + 1]);
        }
        lemma_gap(s, i + 1, rest);
    }
}

/// Whether no number goes on at `j`.
spec fn stops(s: Seq<char>, j: int) -> bool {
    j < s.len() ==> !text::is_digit(s[j]) && s[j] != '.' && s[j] != 'e' && s[j] != 'E'
}

proof fn lemma_digits_here(s: Seq<char>, i: int, d: Seq<char>)
    requires
        here(s, i, d),
        text::all_digits(d),
        i + d.len() < s.len() ==> !text::is_digit(s[i + d.len()]),
    ensures
        text::digits_end(s, i) == i + d.len(),
{
    assert forall|k: int| i <= k < i + d.len() implies text::is_digit(#[trigger] s[k]) by {
        lemma_here(s, i, d, k - i);
        assert(text::is_digit(d[k - i]));
    }
    numbers::lemma_run(s, i, i + d.len());
}

proof fn lemma_power_end(s: Seq<char>, c: int, x: Decimal)
    requires
        x.exp matches Some(p) ==> numbers::is_power(p),
        here(s, c, numbers::exp_text(x.exp)),
        stops(s, c + numbers::exp_text(x.exp).len()),
    ensures
        ({
            let j = c + numbers::exp_text(x.exp).len();
            if text::stands(s, c, 'e') || text::stands(s, c, 'E') {
                let d = if text::stands(s, c + 1, '+') || text::stands(s, c + 1, '-') {
                    c + 2
                } else {
                    c + 1
                };
                json::digit_at(s, d) && text::digits_end(s, d) == j
            } else {
                c == j
            }
        }),
        c < s.len() ==> !text::is_digit(s[c]) && s[c] != '.',
{
    let e = numbers::exp_text(x.exp);
    if let Some(p) = x.exp {
        let sg = numbers::sign_text(p.sign);
        assert(e =~= seq![p.letter] + (sg + p.digits));
        lemma_here_split(s, c, seq![p.letter], sg + p.digits);
        lemma_here_split(s, c + 1, sg, p.digits);
        lemma_here(s, c, seq![p.letter], 0);
        let d = c + 1 + sg.len();
        lemma_here(s, d, p.digits, 0);
        assert(text::is_digit(p.digits[0]));
        if p.sign is Some {
            lemma_here(s, c + 1, sg, 0);
        }
        lemma_digits_here(s, d, p.digits);
    } else {
        assert(e.len() == 0);
    }
}

proof fn lemma_numeral(s: Seq<char>, i: int, x: Decimal)
    requires
        is_numeral(x),
        here(s, i, numbers::decimal_text(x)),
        stops(s, i + numbers::decimal_text(x).len()),
    ensures
        json::number(s, i) == Ok::<(JsonValue, int), Seq<char>>(
            (JsonValue::Num(numeral_value(x)), i + numbers::decimal_text(x).len()),
        ),
        json::digit_at(s, i) || text::stands(s, i, '-'),
{
    let t = numbers::decimal_text(x);
    let sg = numbers::sign_text(x.sign);
    let f = numbers::frac_text(x.frac);
    let e = numbers::exp_text(x.exp);
    let j = i + t.len();
    numbers::law_decimals_are_read(x);
    assert(t =~= sg + (x.whole + (f + e)));
    lemma_here_split(s, i, sg, x.whole + (f + e));
    let a = i + sg.len();
    lemma_here_split(s, a, x.whole, f + e);
    let b = a + x.whole.len();
    lemma_here_split(s, b, f, e);
    let c = b + f.len();
    if sg.len() > 0 {
        lemma_here(s, i, sg, 0);
    }
    lemma_here(s, a, x.whole, 0);
    assert(text::is_digit(x.whole[0]));
    lemma_power_end(s, c, x);
    if let Some(d) = x.frac {
        lemma_here_split(s, b, seq!['.'], d);
        lemma_here(s, b, seq!['.'], 0);
        lemma_here(s, b + 1, d, 0);
        assert(text::is_digit(d[0]));
        lemma_digits_here(s, b + 1, d);
    }
    lemma_digits_here(s, a, x.whole);
    assert(json::number_end(s, i) == Ok::<int, Seq<char>>(j));
    assert(s.subrange(i, j) == t);
}

proof fn lemma_string_here(s: Seq<char>, i: int, t: Seq<char>, spelling: Seq<Seq<char>>)
    requires
        spells_text(t, spelling),
        here(s, i, string_text(spelling)),
    ensures
        json::string(s, i) == Ok::<(Seq<char>, int), Seq<char>>(
            (t, i + string_text(spelling).len()),
        ),
        text::stands(s, i, '"'),
{
    let w = json::spelled(spelling);
    let q = seq!['"'];
    assert(string_text(spelling) =~= q + (w + q));
    lemma_here_split(s, i, q, w + q);
    lemma_here_split(s, i + 1, w, q);
    lemma_here(s, i, q, 0);
    lemma_here(s, i + 1 + w.len(), q, 0);
    json::lemma_spelled_reads(s, i + 1, Seq::empty(), spelling, t);
    assert(Seq::<char>::empty() + t =~= t);
}

/// A value begins with a character that is neither white space nor closes or
/// separates anything.
proof fn lemma_tree_start(tree: Tree, room: int)
    requires
        is_tree(tree, room),
    ensures
        tree_text(tree).len() > 0,
        ({
            let c = tree_text(tree)[0];
            !json::is_blank(c) && c != ']' && c != '}' && c != ','
        }),
{
    if let Tree::Num(x) = tree {
        let t = numbers::decimal_text(x);
        assert(text::is_digit(x.whole[0]));
        if x.sign is Some {
            assert(t[0] == '-');
        } else {
            assert(t[0] == x.whole[0]);
        }
    }
}

/// A value is read, and reading ends behind it.
proof fn lemma_tree_reads(s: Seq<char>, i: int, tree: Tree, depth: int)
    requires
        0 <= depth,
        is_tree(tree, json::MAX_DEPTH - depth),
        here(s, i, tree_text(tree)),
        stops(s, i + tree_text(tree).len()),
    ensures
        json::value(s, i, depth) == Ok::<(JsonValue, int), Seq<char>>(
            (tree_value(tree), i + tree_text(tree).len()),
        ),
    decreases tree, 0int,
{
    let t = tree_text(tree);
    let j = i + t.len();
    lemma_tree_start(tree, json::MAX_DEPTH - depth);
    lemma_here(s, i, t, 0);
    match tree {
        Tree::Null => {
            reveal_strlit("null");
            assert("null"@ =~= t);
        },
        Tree::Bool(b) => {
            reveal_strlit("true");
            reveal_strlit("false");
            assert(b ==> "true"@ =~= t);
            assert(!b ==> "false"@ =~= t);
        },
        Tree::Num(x) => {
            lemma_numeral(s, i, x);
            assert(s[i] == '-' || text::is_digit(s[i]));
        },
        Tree::Str(text, spelling) => {
            lemma_string_here(s, i, text, spelling);
        },
        Tree::Arr(gap, slots) => {
            lemma_array_reads(s, i, gap, slots, depth);
        },
        Tree::Obj(gap, entries) => {
            lemma_object_reads(s, i, gap, entries, depth);
        },
    }
}

proof fn lemma_array_reads(s: Seq<char>, i: int, gap: Seq<char>, slots: Seq<Slot>, depth: int)
    requires
        0 <= depth <= json::MAX_DEPTH,
        is_gap(gap),
        good_slots(slots, json::MAX_DEPTH - depth),
        here(s, i, tree_text(Tree::Arr(gap, slots))),
    ensures
        json::value(s, i, depth) == Ok::<(JsonValue, int), Seq<char>>(
            (
                tree_value(Tree::Arr(gap, slots)),
                i + tree_text(Tree::Arr(gap, slots)).len(),
            ),
        ),
    decreases slots, 2int,
{
    let tree = Tree::Arr(gap, slots);
    let t = tree_text(tree);
    let open = seq!['['];
    if slots.len() == 0 {
        assert(t =~= open + (gap + seq![']']));
        lemma_here_split(s, i, open, gap + seq![']']);
        lemma_here_split(s, i + 1, gap, seq![']']);
        lemma_here(s, i, open, 0);
        lemma_here(s, i + 1 + gap.len(), seq![']'], 0);
        lemma_gap(s, i + 1, gap);
        assert(tree_value(tree)->Arr_0 =~= Seq::<JsonValue>::empty());
    } else {
        let g = slots[0].before;
        assert(is_gap(slots[0].before));
        assert(t =~= open + (g + slots_text(slots)));
        lemma_here_split(s, i, open, g + slots_text(slots));
        lemma_here_split(s, i + 1, g, slots_text(slots));
        lemma_here(s, i, open, 0);
        let k = i + 1 + g.len();
        lemma_slots_start(slots, json::MAX_DEPTH - depth);
        lemma_here(s, k, slots_text(slots), 0);
        lemma_gap(s, i + 1, g);
        lemma_slots_read(s, k, slots, depth, Seq::empty());
        assert(tree_value(tree)->Arr_0 =~= Seq::<JsonValue>::empty() + slot_values(slots));
    }
}

proof fn lemma_object_reads(s: Seq<char>, i: int, gap: Seq<char>, entries: Seq<Entry>, depth: int)
    requires
        0 <= depth <= json::MAX_DEPTH,
        is_gap(gap),
        good_entries(entries, json::MAX_DEPTH - depth),
        here(s, i, tree_text(Tree::Obj(gap, entries))),
    ensures
        json::value(s, i, depth) == Ok::<(JsonValue, int), Seq<char>>(
            (
                tree_value(Tree::Obj(gap, entries)),
                i + tree_text(Tree::Obj(gap, entries)).len(),
            ),
        ),
    decreases entries, 2int,
{
    let tree = Tree::Obj(gap, entries);
    let t = tree_text(tree);
    let open = seq!['{'];
    if entries.len() == 0 {
        assert(t =~= open + (gap + seq!['}']));
        lemma_here_split(s, i, open, gap + seq!['}']);
        lemma_here_split(s, i + 1, gap, seq!['}']);
        lemma_here(s, i, open, 0);
        lemma_here(s, i + 1 + gap.len(), seq!['}'], 0);
        lemma_gap(s, i + 1, gap);
        assert(tree_value(tree)->Obj_0 =~= Seq::<(Seq<char>, JsonValue)>::empty());
    } else {
        let g = entries[0].before;
        assert(is_gap(entries[0].before));
        assert(t =~= open + (g + entries_text(entries)));
        lemma_here_split(s, i, open, g + entries_text(entries));
        lemma_here_split(s, i + 1, g, entries_text(entries));
        lemma_here(s, i, open, 0);
        let k = i + 1 + g.len();
        lemma_entries_front(entries);
        lemma_here(s, k, entries_text(entries), 0);
        lemma_gap(s, i + 1, g);
        lemma_entries_read(s, k, entries, depth, Seq::empty());
        assert(tree_value(tree)->Obj_0 =~= Seq::<(Seq<char>, JsonValue)>::empty() + entry_values(
            entries,
        ));
    }
}

/// What stands behind the first member of an object.
spec fn behind_first(entries: Seq<Entry>) -> Seq<char> {
    if entries.len() == 1 {
        seq!['}']
    } else {
        seq![','] + entries[1].before + entries_text(entries.drop_first())
    }
}

/// The first member of an object, and what stands behind it.
proof fn lemma_entries_front(entries: Seq<Entry>)
    requires
        entries.len() > 0,
    ensures
        ({
            let x = entries[0];
            entries_text(entries) == string_text(x.spelling) + (x.behind_key + (seq![':'] + (
            x.behind_colon + (tree_text(x.tree) + (x.after + behind_first(entries))))))
        }),
        entries_text(entries).len() > 0,
        entries_text(entries)[0] == '"',
{
    let x = entries[0];
    let e = entry_text(x);
    assert(e == string_text(x.spelling) + x.behind_key + seq![':'] + x.behind_colon + tree_text(
        x.tree,
    ));
    assert(entries_text(entries) == e + x.after + behind_first(entries));
    assert(entries_text(entries) =~= string_text(x.spelling) + (x.behind_key + (seq![':'] + (
    x.behind_colon + (tree_text(x.tree) + (x.after + behind_first(entries)))))));
}

/// The values of items.
spec fn slot_values(slots: Seq<Slot>) -> Seq<JsonValue> {
    Seq::new(slots.len(), |i: int| tree_value(slots[i].tree))
}

/// The names and values of members.
spec fn entry_values(entries: Seq<Entry>) -> Seq<(Seq<char>, JsonValue)> {
    Seq::new(entries.len(), |i: int| (entries[i].key, tree_value(entries[i].tree)))
}

spec fn good_slots(slots: Seq<Slot>, room: int) -> bool {
    forall|i: int|
        0 <= i < slots.len() ==> {
            &&& is_gap((#[trigger] slots[i]).before)
            &&& is_gap(slots[i].after)
            &&& is_tree(slots[i].tree, room - 1)
        }
}

spec fn good_entries(entries: Seq<Entry>, room: int) -> bool {
    forall|i: int|
        0 <= i < entries.len() ==> {
            &&& is_gap((#[trigger] entries[i]).before)
            &&& is_gap(entries[i].after)
            &&& is_gap(entries[i].behind_key)
            &&& is_gap(entries[i].behind_colon)
            &&& spells_text(entries[i].key, entries[i].spelling)
            &&& is_tree(entries[i].tree, room - 1)
        }
}

proof fn lemma_slots_start(slots: Seq<Slot>, room: int)
    requires
        slots.len() > 0,
        good_slots(slots, room),
    ensures
        slots_text(slots).len() > 0,
        ({
            let c = slots_text(slots)[0];
            !json::is_blank(c) && c != ']' && c != '}' && c != ','
        }),
{
    assert(is_tree(slots[0].tree, room - 1));
    lemma_tree_start(slots[0].tree, room - 1);
}

proof fn lemma_slots_read(
    s: Seq<char>,
    i: int,
    slots: Seq<Slot>,
    depth: int,
    done: Seq<JsonValue>,
)
    requires
        0 <= depth <= json::MAX_DEPTH,
        slots.len() > 0,
        good_slots(slots, json::MAX_DEPTH - depth),
        here(s, i, slots_text(slots)),
    ensures
        json::items(s, i, depth, done) == Ok::<(JsonValue, int), Seq<char>>(
            (JsonValue::Arr(done + slot_values(slots)), i + slots_text(slots).len()),
        ),
    decreases slots, 1int,
{
    let x = slots[0];
    let room = json::MAX_DEPTH - depth;
    let t = tree_text(x.tree);
    let more = slots.drop_first();
    let rest = if slots.len() == 1 {
        seq![']']
    } else {
        seq![','] + slots[1].before + slots_text(more)
    };
    assert(is_gap(slots[0].after) && is_tree(slots[0].tree, room - 1));
    assert(slots_text(slots) =~= t + (x.after + rest));
    lemma_here_split(s, i, t, x.after + rest);
    let j = i + t.len();
    lemma_here_split(s, j, x.after, rest);
    let k = j + x.after.len();
    lemma_here(s, k, rest, 0);
    lemma_gap(s, j, x.after);
    assert(stops(s, j)) by {
        if x.after.len() > 0 {
            lemma_here(s, j, x.after, 0);
        }
    }
    lemma_tree_start(x.tree, room - 1);
    lemma_tree_reads(s, i, x.tree, depth + 1);
    let all = done.push(tree_value(x.tree));
    if slots.len() == 1 {
        assert(done + slot_values(slots) =~= all);
    } else {
        let g = slots[1].before;
        assert(is_gap(slots[1].before));
        assert(rest =~= seq![','] + (g + slots_text(more)));
        lemma_here_split(s, k, seq![','], g + slots_text(more));
        lemma_here_split(s, k + 1, g, slots_text(more));
        let m = k + 1 + g.len();
        assert(good_slots(more, room)) by {
            assert forall|n: int| 0 <= n < more.len() implies {
                &&& is_gap((#[trigger] more[n]).before)
                &&& is_gap(more[n].after)
                &&& is_tree(more[n].tree, room - 1)
            } by {
                assert(more[n] == slots[n + 1]);
            }
        }
        lemma_slots_start(more, room);
        lemma_here(s, m, slots_text(more), 0);
        lemma_gap(s, k + 1, g);
        lemma_slots_read(s, m, more, depth, all);
        assert(all + slot_values(more) =~= done + slot_values(slots)) by {
            assert forall|n: int| 0 < n < slots.len() implies slot_values(slots)[n] == slot_values(
                more,
            )[n - 1] by {
                assert(more[n - 1] == slots[n]);
            }
        }
    }
}

proof fn lemma_entries_read(
    s: Seq<char>,
    i: int,
    entries: Seq<Entry>,
    depth: int,
    done: Seq<(Seq<char>, JsonValue)>,
)
    requires
        0 <= depth <= json::MAX_DEPTH,
        entries.len() > 0,
        good_entries(entries, json::MAX_DEPTH - depth),
        here(s, i, entries_text(entries)),
    ensures
        json::members(s, i, depth, done) == Ok::<(JsonValue, int), Seq<char>>(
            (JsonValue::Obj(done + entry_values(entries)), i + entries_text(entries).len()),
        ),
    decreases entries, 1int,
{
    let x = entries[0];
    let room = json::MAX_DEPTH - depth;
    let q = string_text(x.spelling);
    let t = tree_text(x.tree);
    let more = entries.drop_first();
    let rest = behind_first(entries);
    assert(is_gap(entries[0].after) && is_tree(entries[0].tree, room - 1));
    let t4 = x.after + rest;
    let t3 = t + t4;
    let t2 = seq![':'] + (x.behind_colon + t3);
    let t1 = x.behind_key + t2;
    lemma_entries_front(entries);
    lemma_here_split(s, i, q, t1);
    let a = i + q.len();
    lemma_here_split(s, a, x.behind_key, t2);
    let b = a + x.behind_key.len();
    lemma_here_split(s, b, seq![':'], x.behind_colon + t3);
    lemma_here(s, b, seq![':'], 0);
    lemma_here_split(s, b + 1, x.behind_colon, t3);
    let c = b + 1 + x.behind_colon.len();
    lemma_here_split(s, c, t, t4);
    let j = c + t.len();
    lemma_here_split(s, j, x.after, rest);
    let k = j + x.after.len();
    lemma_here(s, k, rest, 0);
    lemma_string_here(s, i, x.key, x.spelling);
    lemma_gap(s, a, x.behind_key);
    lemma_tree_start(x.tree, room - 1);
    lemma_here(s, c, t, 0);
    lemma_gap(s, b + 1, x.behind_colon);
    lemma_gap(s, j, x.after);
    assert(stops(s, j)) by {
        if x.after.len() > 0 {
            lemma_here(s, j, x.after, 0);
        }
    }
    lemma_tree_reads(s, c, x.tree, depth + 1);
    let all = done.push((x.key, tree_value(x.tree)));
    if entries.len() == 1 {
        assert(done + entry_values(entries) =~= all);
    } else {
        let g = entries[1].before;
        assert(is_gap(entries[1].before));
        assert(rest =~= seq![','] + (g + entries_text(more)));
        lemma_here_split(s, k, seq![','], g + entries_text(more));
        lemma_here_split(s, k + 1, g, entries_text(more));
        let m = k + 1 + g.len();
        assert(good_entries(more, room)) by {
            assert forall|n: int| 0 <= n < more.len() implies {
                &&& is_gap((#[trigger] more[n]).before)
                &&& is_gap(more[n].after)
                &&& is_gap(more[n].behind_key)
                &&& is_gap(more[n].behind_colon)
                &&& spells_text(more[n].key, more[n].spelling)
                &&& is_tree(more[n].tree, room - 1)
            } by {
                assert(more[n] == entries[n + 1]);
            }
        }
        lemma_entries_front(more);
        lemma_here(s, m, entries_text(more), 0);
        lemma_gap(s, k + 1, g);
        lemma_entries_read(s, m, more, depth, all);
        assert(all + entry_values(more) =~= done + entry_values(entries)) by {
            assert forall|n: int| 0 < n < entries.len() implies entry_values(entries)[n]
                == entry_values(more)[n - 1] by {
                assert(more[n - 1] == entries[n]);
            }
        }
    }
}

/// A document is the value that is written in it, whatever white space stands
/// around the value and inside it, however its texts are spelled, up to 128
/// arrays and objects inside each other.
pub proof fn law_documents_mean_what_they_write(before: Seq<char>, tree: Tree, after: Seq<char>)
    requires
        is_gap(before),
        is_gap(after),
        is_tree(tree, 128),
    ensures
        json::document(before + tree_text(tree) + after) == Ok::<JsonValue, Seq<char>>(
            tree_value(tree),
        ),
{
    let t = tree_text(tree);
    let s = before + t + after;
    let i = before.len() as int;
    let j = i + t.len();
    assert(s.subrange(0, i) =~= before);
    assert(s.subrange(i, j) =~= t);
    assert(s.subrange(j, s.len() as int) =~= after);
    lemma_tree_start(tree, 128);
    lemma_here(s, i, t, 0);
    lemma_gap(s, 0, before);
    assert(stops(s, j)) by {
        if after.len() > 0 {
            lemma_here(s, j, after, 0);
        }
    }
    lemma_tree_reads(s, i, tree, 0);
    lemma_gap(s, j, after);
}

// ---------------------------------------------------------------------------
// Spelling and paths

/// The one-letter escapes and what they stand for.
pub proof fn law_escapes(c: char)
    ensures
        json::escape('"') == Some('"') && json::escape('\\') == Some('\\') && json::escape('/')
            == Some('/'),
        json::escape('b') == Some('\u{8}') && json::escape('f') == Some('\u{c}'),
        json::escape('n') == Some('\n') && json::escape('r') == Some('\r') && json::escape('t')
            == Some('\t'),
        json::escape(c) is Some ==> seq!['"', '\\', '/', 'b', 'f', 'n', 'r', 't'].contains(c),
{
    let list = seq!['"', '\\', '/', 'b', 'f', 'n', 'r', 't'];
    assert(list[0] == '"' && list[1] == '\\' && list[2] == '/' && list[3] == 'b' && list[4] == 'f'
        && list[5] == 'n' && list[6] == 'r' && list[7] == 't');
}

/// The sixteen digits in either case.
pub open spec fn hex_digits(upper: bool) -> Seq<char> {
    if upper {
        "0123456789ABCDEF"@
    } else {
        "0123456789abcdef"@
    }
}

/// A hexadecimal digit stands for its place among them, and four of them for
/// a number, the first one counting most.
pub proof fn law_hex_digits(k: int, upper: bool, s: Seq<char>, i: int)
    requires
        0 <= k < 16,
    ensures
        json::is_hex(hex_digits(upper)[k]),
        json::hex_value(hex_digits(upper)[k]) == k,
        json::hex_number(s, i) == ((json::hex_value(s[i]) * 16 + json::hex_value(s[i + 1])) * 16
            + json::hex_value(s[i + 2])) * 16 + json::hex_value(s[i + 3]),
{
    reveal_strlit("0123456789ABCDEF");
    reveal_strlit("0123456789abcdef");
    let c = hex_digits(upper)[k];
    if k < 10 {
        assert(c as int == 48 + k);
    } else if upper {
        assert(c as int == 55 + k);
    } else {
        assert(c as int == 87 + k);
    }
}

/// Nothing else is a hexadecimal digit.
pub proof fn law_only_hex_digits(c: char)
    ensures
        json::is_hex(c) ==> hex_digits(true).contains(c) || hex_digits(false).contains(c),
{
    reveal_strlit("0123456789ABCDEF");
    reveal_strlit("0123456789abcdef");
    let n = c as int;
    if json::is_hex(c) {
        if n < 58 {
            assert(hex_digits(true)[n - 48] as int == n);
            assert(hex_digits(true)[n - 48] == c);
        } else if n < 71 {
            assert(hex_digits(true)[n - 55] as int == n);
            assert(hex_digits(true)[n - 55] == c);
        } else {
            assert(hex_digits(false)[n - 87] as int == n);
            assert(hex_digits(false)[n - 87] == c);
        }
    }
}

/// A segment of a path leads from an array to the item it counts to, from
/// zero on, and from an array nowhere if it is no number or counts too far.
pub proof fn law_items_are_counted_from_zero(list: Seq<JsonValue>, n: nat, segment: Seq<char>)
    requires
        n <= usize::MAX,
    ensures
        json::hop(JsonValue::Arr(list), text::decimal_text(n)) == (if n < list.len() {
            Some(list[n as int])
        } else {
            None
        }),
        !reading::is_figures(segment) ==> json::hop(JsonValue::Arr(list), segment) is None,
{
    reading::law_written_numbers_read_back(n, usize::MAX as nat);
    reading::law_numbers_are_digits(segment, usize::MAX as nat);
}

/// A segment leads from an object nowhere if no member has its name, and from
/// any value that is neither an array nor an object it leads nowhere.
pub proof fn law_paths_end(list: Seq<(Seq<char>, JsonValue)>, v: JsonValue, segment: Seq<char>)
    ensures
        (forall|i: int| 0 <= i < list.len() ==> (#[trigger] list[i]).0 != segment) ==> json::hop(
            JsonValue::Obj(list),
            segment,
        ) is None,
        !(v is Obj) && !(v is Arr) ==> json::hop(v, segment) is None,
        json::found(v, Seq::empty()) == Some(v),
        !segment.contains('.') ==> json::found(v, text::pieces(segment, '.')) == json::hop(
            v,
            segment,
        ),
{
    if forall|i: int| 0 <= i < list.len() ==> (#[trigger] list[i]).0 != segment {
        lemma_no_member(list, segment);
    }
    if !segment.contains('.') {
        text::lemma_find(segment, '.');
        if text::find(segment, '.') < segment.len() {
            assert(segment[text::find(segment, '.')] == '.');
        }
        assert(text::pieces(segment, '.') == seq![segment]);
        assert(seq![segment].drop_first() =~= Seq::<Seq<char>>::empty());
        reveal_with_fuel(json::found, 2);
    }
}

proof fn lemma_no_member(list: Seq<(Seq<char>, JsonValue)>, key: Seq<char>)
    requires
        forall|i: int| 0 <= i < list.len() ==> (#[trigger] list[i]).0 != key,
    ensures
        json::member(list, key) is None,
    decreases list.len(),
{
    if list.len() > 0 {
        assert(list[0].0 != key);
        let rest = list.drop_first();
        assert forall|i: int| 0 <= i < rest.len() implies (#[trigger] rest[i]).0 != key by {
            assert(list[i + 1].0 != key);
        }
        lemma_no_member(rest, key);
    }
}

// ---------------------------------------------------------------------------
// Nothing else is a document

proof fn lemma_gap_back(s: Seq<char>, i: int) -> (g: Seq<char>)
    requires
        0 <= i <= s.len(),
    ensures
        i <= json::skip_blanks(s, i) <= s.len(),
        g == s.subrange(i, json::skip_blanks(s, i)),
        is_gap(g),
    decreases s.len() - i,
{
    if i < s.len() && json::is_blank(s[i]) {
        let h = lemma_gap_back(s, i + 1);
        let k = json::skip_blanks(s, i + 1);
        let g = s.subrange(i, k);
        assert forall|n: int| 0 <= n < g.len() implies #[trigger] g[n] == ' ' || g[n] == '\t' || g[n]
            == '\n' || g[n] == '\r' by {
            if n > 0 {
                assert(h[n - 1] == g[n]);
            }
        }
        g
    } else {
        s.subrange(i, i)
    }
}

proof fn lemma_escape_back(s: Seq<char>, i: int)
    requires
        0 <= i,
        text::stands(s, i, '\\'),
        text::stands(s, i + 1, 'u'),
        json::unicode_escape(s, i + 2) is Ok,
    ensures
        ({
            let (c, j) = json::unicode_escape(s, i + 2)->Ok_0;
            &&& i < j <= s.len()
            &&& json::spells(s.subrange(i, j), c)
        }),
{
    let (c, j) = json::unicode_escape(s, i + 2)->Ok_0;
    let x = s.subrange(i, j);
    let hi = json::hex_number(s, i + 2);
    assert(x[0] == s[i] && x[1] == s[i + 1] && x[2] == s[i + 2] && x[3] == s[i + 3]);
    assert(x[4] == s[i + 4] && x[5] == s[i + 5]);
    assert(json::hex_number(x, 2) == hi);
    if j == i + 12 {
        assert(x[6] == s[i + 6] && x[7] == s[i + 7] && x[8] == s[i + 8] && x[9] == s[i + 9]);
        assert(x[10] == s[i + 10] && x[11] == s[i + 11]);
        assert(json::hex_number(x, 8) == json::hex_number(s, i + 8));
    }
}

proof fn lemma_string_back(s: Seq<char>, i: int, done: Seq<char>) -> (r: (
    Seq<char>,
    Seq<Seq<char>>,
))
    requires
        0 <= i,
        json::string_rest(s, i, done) is Ok,
    ensures
        ({
            let (full, j) = json::string_rest(s, i, done)->Ok_0;
            &&& i < j <= s.len()
            &&& full == done + r.0
            &&& spells_text(r.0, r.1)
            &&& s.subrange(i, j) == json::spelled(r.1) + seq!['"']
        }),
    decreases s.len() - i,
{
    let (full, j) = json::string_rest(s, i, done)->Ok_0;
    let none = Seq::<char>::empty();
    if s[i] == '"' {
        let r = (none, Seq::<Seq<char>>::empty());
        assert(done + none =~= done);
        assert(s.subrange(i, j) =~= json::spelled(r.1) + seq!['"']);
        r
    } else {
        let (c, k) = if s[i] == '\\' {
            if text::stands(s, i + 1, 'u') {
                lemma_escape_back(s, i);
                json::unicode_escape(s, i + 2)->Ok_0
            } else {
                (json::escape(s[i + 1])->Some_0, i + 2)
            }
        } else {
            (s[i], i + 1)
        };
        let x = s.subrange(i, k);
        assert(x[0] == s[i]);
        assert(json::spells(x, c)) by {
            if k == i + 1 {
                assert(x =~= seq![c]);
            } else if k == i + 2 && !text::stands(s, i + 1, 'u') {
                assert(x[1] == s[i + 1]);
            }
        }
        let (t, sp) = lemma_string_back(s, k, done.push(c));
        let parts = seq![x] + sp;
        let all = seq![c] + t;
        assert(parts.drop_first() =~= sp);
        assert(json::spelled(parts) == x + json::spelled(sp));
        assert(done.push(c) + t =~= done + all);
        assert(s.subrange(i, j) =~= x + s.subrange(k, j));
        assert(x + (json::spelled(sp) + seq!['"']) =~= json::spelled(parts) + seq!['"']);
        assert forall|n: int| 0 <= n < all.len() implies json::spells(
            #[trigger] parts[n],
            all[n],
        ) by {
            if n > 0 {
                assert(json::spells(sp[n - 1], t[n - 1]));
            }
        }
        (all, parts)
    }
}

proof fn lemma_text_back(s: Seq<char>, i: int) -> (spelling: Seq<Seq<char>>)
    requires
        0 <= i,
        json::string(s, i) is Ok,
    ensures
        ({
            let (t, j) = json::string(s, i)->Ok_0;
            &&& i < j <= s.len()
            &&& spells_text(t, spelling)
            &&& s.subrange(i, j) == string_text(spelling)
        }),
{
    let (full, j) = json::string(s, i)->Ok_0;
    let (t, spelling) = lemma_string_back(s, i + 1, Seq::empty());
    assert(Seq::<char>::empty() + t =~= t);
    assert(s.subrange(i, j) =~= seq!['"'] + s.subrange(i + 1, j));
    assert(string_text(spelling) =~= seq!['"'] + (json::spelled(spelling) + seq!['"']));
    spelling
}

proof fn lemma_digits_back(s: Seq<char>, i: int) -> (d: Seq<char>)
    requires
        json::digit_at(s, i),
    ensures
        i < text::digits_end(s, i) <= s.len(),
        d == s.subrange(i, text::digits_end(s, i)),
        d.len() > 0 && text::all_digits(d),
{
    text::lemma_digits_end(s, i);
    assert(text::digits_end(s, i) == text::digits_end(s, i + 1));
    text::lemma_digits_end(s, i + 1);
    let d = s.subrange(i, text::digits_end(s, i));
    assert forall|k: int| 0 <= k < d.len() implies text::is_digit(#[trigger] d[k]) by {
        assert(d[k] == s[i + k]);
    }
    d
}

proof fn lemma_power_back(s: Seq<char>, c: int, d: int) -> (p: Power)
    requires
        text::stands(s, c, 'e') || text::stands(s, c, 'E'),
        d == (if text::stands(s, c + 1, '+') || text::stands(s, c + 1, '-') {
            c + 2
        } else {
            c + 1
        }),
        json::digit_at(s, d),
    ensures
        numbers::is_power(p),
        c < text::digits_end(s, d) <= s.len(),
        numbers::power_text(p) == s.subrange(c, text::digits_end(s, d)),
{
    let digits = lemma_digits_back(s, d);
    let sign = if d == c + 2 {
        Some(s[c + 1])
    } else {
        None
    };
    let p = Power { letter: s[c], sign, digits };
    assert(numbers::power_text(p) =~= s.subrange(c, text::digits_end(s, d)));
    p
}

/// The pieces of a number one after the other.
proof fn lemma_numeral_pieces(s: Seq<char>, i: int, a: int, b: int, c: int, j: int, x: Decimal)
    requires
        0 <= i <= a <= b <= c <= j <= s.len(),
        numbers::sign_text(x.sign) == s.subrange(i, a),
        x.whole == s.subrange(a, b),
        numbers::frac_text(x.frac) == s.subrange(b, c),
        numbers::exp_text(x.exp) == s.subrange(c, j),
    ensures
        numbers::decimal_text(x) == s.subrange(i, j),
{
    assert(x.whole + numbers::frac_text(x.frac) + numbers::exp_text(x.exp) =~= s.subrange(a, j));
    assert(s.subrange(i, a) + s.subrange(a, j) =~= s.subrange(i, j));
}

proof fn lemma_numeral_back(s: Seq<char>, i: int) -> (x: Decimal)
    requires
        0 <= i,
        json::number_end(s, i) is Ok,
    ensures
        i < json::number_end(s, i)->Ok_0 <= s.len(),
        is_numeral(x),
        numbers::decimal_text(x) == s.subrange(i, json::number_end(s, i)->Ok_0),
{
    let j = json::number_end(s, i)->Ok_0;
    let signed = text::stands(s, i, '-');
    let a = if signed {
        i + 1
    } else {
        i
    };
    let run = lemma_digits_back(s, a);
    let b = if s[a] == '0' {
        a + 1
    } else {
        text::digits_end(s, a)
    };
    let lead = s.subrange(a, b);
    assert(lead =~= run.take(b - a));
    assert(lead[0] == s[a]);
    assert forall|k: int| 0 <= k < lead.len() implies text::is_digit(#[trigger] lead[k]) by {
        assert(lead[k] == run[k]);
    }
    let pointed = text::stands(s, b, '.');
    let frac = if pointed {
        let f = lemma_digits_back(s, b + 1);
        Some(f)
    } else {
        None
    };
    let c = if pointed {
        text::digits_end(s, b + 1)
    } else {
        b
    };
    let powered = text::stands(s, c, 'e') || text::stands(s, c, 'E');
    let d = if text::stands(s, c + 1, '+') || text::stands(s, c + 1, '-') {
        c + 2
    } else {
        c + 1
    };
    let exp = if powered {
        let p = lemma_power_back(s, c, d);
        Some(p)
    } else {
        None
    };
    let sign = if signed {
        Some('-')
    } else {
        None
    };
    let x = Decimal { sign, whole: lead, frac, exp };
    assert(numbers::exp_text(exp) =~= s.subrange(c, j));
    assert(numbers::frac_text(frac) =~= s.subrange(b, c));
    assert(numbers::sign_text(sign) =~= s.subrange(i, a));
    lemma_numeral_pieces(s, i, a, b, c, j, x);
    x
}

proof fn lemma_first_gap(slots: Seq<Slot>, g: Seq<char>, room: int) -> (r: Seq<Slot>)
    requires
        slots.len() > 0,
        is_gap(g),
        good_slots(slots, room),
    ensures
        r.len() == slots.len(),
        r[0].before == g,
        good_slots(r, room),
        slots_text(r) == slots_text(slots),
        slot_values(r) == slot_values(slots),
{
    let r = slots.update(0, Slot { before: g, ..slots[0] });
    assert(r.drop_first() =~= slots.drop_first());
    assert forall|i: int| 0 <= i < r.len() implies {
        &&& is_gap((#[trigger] r[i]).before)
        &&& is_gap(r[i].after)
        &&& is_tree(r[i].tree, room - 1)
    } by {
        assert(is_gap(slots[i].after) && is_tree(slots[i].tree, room - 1));
    }
    assert(slot_values(r) =~= slot_values(slots)) by {
        assert forall|i: int| 0 <= i < r.len() implies slot_values(r)[i] == slot_values(
            slots,
        )[i] by {
            assert(r[i].tree == slots[i].tree);
        }
    }
    r
}

proof fn lemma_first_gap_entry(entries: Seq<Entry>, g: Seq<char>, room: int) -> (r: Seq<Entry>)
    requires
        entries.len() > 0,
        is_gap(g),
        good_entries(entries, room),
    ensures
        r.len() == entries.len(),
        r[0].before == g,
        good_entries(r, room),
        entries_text(r) == entries_text(entries),
        entry_values(r) == entry_values(entries),
{
    let r = entries.update(0, Entry { before: g, ..entries[0] });
    assert(r.drop_first() =~= entries.drop_first());
    lemma_entries_front(r);
    lemma_entries_front(entries);
    assert(behind_first(r) == behind_first(entries));
    assert forall|i: int| 0 <= i < r.len() implies {
        &&& is_gap((#[trigger] r[i]).before)
        &&& is_gap(r[i].after)
        &&& is_gap(r[i].behind_key)
        &&& is_gap(r[i].behind_colon)
        &&& spells_text(r[i].key, r[i].spelling)
        &&& is_tree(r[i].tree, room - 1)
    } by {
        assert(is_gap(entries[i].after));
    }
    assert(entry_values(r) =~= entry_values(entries)) by {
        assert forall|i: int| 0 <= i < r.len() implies entry_values(r)[i] == entry_values(
            entries,
        )[i] by {
            assert(r[i].tree == entries[i].tree && r[i].key == entries[i].key);
        }
    }
    r
}

proof fn lemma_tree_back(s: Seq<char>, i: int, depth: int) -> (tree: Tree)
    requires
        0 <= depth,
        json::value(s, i, depth) is Ok,
    ensures
        ({
            let (v, j) = json::value(s, i, depth)->Ok_0;
            &&& 0 <= i < j <= s.len()
            &&& is_tree(tree, json::MAX_DEPTH - depth)
            &&& tree_text(tree) == s.subrange(i, j)
            &&& tree_value(tree) == v
        }),
    decreases s.len() - i, 0int,
{
    let (v, j) = json::value(s, i, depth)->Ok_0;
    if s[i] == '{' {
        lemma_object_back(s, i, depth)
    } else if s[i] == '[' {
        lemma_array_back(s, i, depth)
    } else if s[i] == '"' {
        let spelling = lemma_text_back(s, i);
        Tree::Str(json::string(s, i)->Ok_0.0, spelling)
    } else if s[i] == 't' {
        reveal_strlit("true");
        assert("true"@ =~= seq!['t', 'r', 'u', 'e']);
        Tree::Bool(true)
    } else if s[i] == 'f' {
        reveal_strlit("false");
        assert("false"@ =~= seq!['f', 'a', 'l', 's', 'e']);
        Tree::Bool(false)
    } else if s[i] == 'n' {
        reveal_strlit("null");
        assert("null"@ =~= seq!['n', 'u', 'l', 'l']);
        Tree::Null
    } else {
        let x = lemma_numeral_back(s, i);
        Tree::Num(x)
    }
}

proof fn lemma_array_back(s: Seq<char>, i: int, depth: int) -> (tree: Tree)
    requires
        0 <= depth,
        text::stands(s, i, '['),
        json::value(s, i, depth) is Ok,
    ensures
        ({
            let (v, j) = json::value(s, i, depth)->Ok_0;
            &&& 0 <= i < j <= s.len()
            &&& is_tree(tree, json::MAX_DEPTH - depth)
            &&& tree_text(tree) == s.subrange(i, j)
            &&& tree_value(tree) == v
        }),
    decreases s.len() - i - 1, 3int,
{
    let (v, j) = json::value(s, i, depth)->Ok_0;
    let g = lemma_gap_back(s, i + 1);
    let k = json::skip_blanks(s, i + 1);
    if text::stands(s, k, ']') {
        let tree = Tree::Arr(g, Seq::empty());
        assert(tree_text(tree) =~= s.subrange(i, j));
        assert(tree_value(tree)->Arr_0 =~= Seq::<JsonValue>::empty());
        tree
    } else {
        let found = lemma_items_back(s, k, depth, Seq::empty());
        let slots = lemma_first_gap(found, g, json::MAX_DEPTH - depth);
        lemma_array_tree(slots, json::MAX_DEPTH - depth);
        assert(seq!['['] + g + s.subrange(k, j) =~= s.subrange(i, j));
        assert(Seq::<JsonValue>::empty() + slot_values(slots) =~= slot_values(slots));
        Tree::Arr(Seq::empty(), slots)
    }
}

proof fn lemma_object_back(s: Seq<char>, i: int, depth: int) -> (tree: Tree)
    requires
        0 <= depth,
        text::stands(s, i, '{'),
        json::value(s, i, depth) is Ok,
    ensures
        ({
            let (v, j) = json::value(s, i, depth)->Ok_0;
            &&& 0 <= i < j <= s.len()
            &&& is_tree(tree, json::MAX_DEPTH - depth)
            &&& tree_text(tree) == s.subrange(i, j)
            &&& tree_value(tree) == v
        }),
    decreases s.len() - i - 1, 3int,
{
    let (v, j) = json::value(s, i, depth)->Ok_0;
    let g = lemma_gap_back(s, i + 1);
    let k = json::skip_blanks(s, i + 1);
    if text::stands(s, k, '}') {
        let tree = Tree::Obj(g, Seq::empty());
        assert(tree_text(tree) =~= s.subrange(i, j));
        assert(tree_value(tree)->Obj_0 =~= Seq::<(Seq<char>, JsonValue)>::empty());
        tree
    } else {
        let found = lemma_members_back(s, k, depth, Seq::empty());
        let entries = lemma_first_gap_entry(found, g, json::MAX_DEPTH - depth);
        lemma_object_tree(entries, json::MAX_DEPTH - depth);
        assert(seq!['{'] + g + s.subrange(k, j) =~= s.subrange(i, j));
        assert(Seq::<(Seq<char>, JsonValue)>::empty() + entry_values(entries) =~= entry_values(
            entries,
        ));
        Tree::Obj(Seq::empty(), entries)
    }
}

proof fn lemma_object_tree(entries: Seq<Entry>, room: int)
    requires
        entries.len() > 0,
        room >= 0,
        good_entries(entries, room),
    ensures
        ({
            let tree = Tree::Obj(Seq::empty(), entries);
            &&& is_tree(tree, room)
            &&& tree_text(tree) == seq!['{'] + entries[0].before + entries_text(entries)
            &&& tree_value(tree) == JsonValue::Obj(entry_values(entries))
        }),
{
    let tree = Tree::Obj(Seq::empty(), entries);
    assert(tree_value(tree)->Obj_0 =~= entry_values(entries));
}

proof fn lemma_array_tree(slots: Seq<Slot>, room: int)
    requires
        slots.len() > 0,
        room >= 0,
        good_slots(slots, room),
    ensures
        ({
            let tree = Tree::Arr(Seq::empty(), slots);
            &&& is_tree(tree, room)
            &&& tree_text(tree) == seq!['['] + slots[0].before + slots_text(slots)
            &&& tree_value(tree) == JsonValue::Arr(slot_values(slots))
        }),
{
    let tree = Tree::Arr(Seq::empty(), slots);
    assert(tree_value(tree)->Arr_0 =~= slot_values(slots));
}

/// The first item that is left, and how reading goes on behind it.
proof fn lemma_item_back(s: Seq<char>, i: int, depth: int, done: Seq<JsonValue>) -> (r: (
    Slot,
    int,
))
    requires
        0 <= depth,
        json::items(s, i, depth, done) is Ok,
    ensures
        ({
            let (x, k) = r;
            let all = done.push(tree_value(x.tree));
            &&& 0 <= i < k < s.len()
            &&& good_slots(seq![x], json::MAX_DEPTH - depth)
            &&& tree_text(x.tree) + x.after == s.subrange(i, k)
            &&& s[k] == ',' ==> json::items(s, i, depth, done) == json::items(
                s,
                json::skip_blanks(s, k + 1),
                depth,
                all,
            )
            &&& s[k] != ',' ==> s[k] == ']' && json::items(s, i, depth, done) == Ok::<
                (JsonValue, int),
                Seq<char>,
            >((JsonValue::Arr(all), k + 1))
        }),
    decreases s.len() - i, 1int,
{
    let tree = lemma_tree_back(s, i, depth + 1);
    let j = json::value(s, i, depth + 1)->Ok_0.1;
    let after = lemma_gap_back(s, j);
    let k = json::skip_blanks(s, j);
    let x = Slot { before: Seq::empty(), tree, after };
    assert(s.subrange(i, j) + s.subrange(j, k) =~= s.subrange(i, k));
    (x, k)
}

proof fn lemma_items_back(s: Seq<char>, i: int, depth: int, done: Seq<JsonValue>) -> (slots: Seq<
    Slot,
>)
    requires
        0 <= depth,
        json::items(s, i, depth, done) is Ok,
    ensures
        ({
            let (v, j) = json::items(s, i, depth, done)->Ok_0;
            &&& 0 <= i < j <= s.len()
            &&& slots.len() > 0
            &&& good_slots(slots, json::MAX_DEPTH - depth)
            &&& slots_text(slots) == s.subrange(i, j)
            &&& v == JsonValue::Arr(done + slot_values(slots))
        }),
    decreases s.len() - i, 2int,
{
    let room = json::MAX_DEPTH - depth;
    let end = json::items(s, i, depth, done)->Ok_0.1;
    let (x, k) = lemma_item_back(s, i, depth, done);
    let all = done.push(tree_value(x.tree));
    if s[k] == ',' {
        let g = lemma_gap_back(s, k + 1);
        let m = json::skip_blanks(s, k + 1);
        let found = lemma_items_back(s, m, depth, all);
        let more = lemma_first_gap(found, g, room);
        let rest = seq![','] + g + slots_text(more);
        assert(rest =~= s.subrange(k, end));
        assert(s.subrange(i, k) + s.subrange(k, end) =~= s.subrange(i, end));
        lemma_slot_ahead(x, more, room, done);
        seq![x] + more
    } else {
        let rest = seq![']'];
        assert(rest =~= s.subrange(k, end));
        assert(s.subrange(i, k) + s.subrange(k, end) =~= s.subrange(i, end));
        lemma_slot_alone(x, done);
        seq![x]
    }
}

proof fn lemma_slot_alone(x: Slot, done: Seq<JsonValue>)
    ensures
        slots_text(seq![x]) == tree_text(x.tree) + x.after + seq![']'],
        done + slot_values(seq![x]) == done.push(tree_value(x.tree)),
{
    assert(done + slot_values(seq![x]) =~= done.push(tree_value(x.tree)));
}

proof fn lemma_slot_ahead(x: Slot, more: Seq<Slot>, room: int, done: Seq<JsonValue>)
    requires
        good_slots(seq![x], room),
        good_slots(more, room),
        more.len() > 0,
    ensures
        good_slots(seq![x] + more, room),
        slots_text(seq![x] + more) == tree_text(x.tree) + x.after + (seq![','] + more[0].before
            + slots_text(more)),
        done + slot_values(seq![x] + more) == done.push(tree_value(x.tree)) + slot_values(more),
{
    let slots = seq![x] + more;
    assert(slots.drop_first() =~= more);
    assert(slots[1] == more[0]);
    assert(seq![x][0] == x);
    assert forall|n: int| 0 <= n < slots.len() implies {
        &&& is_gap((#[trigger] slots[n]).before)
        &&& is_gap(slots[n].after)
        &&& is_tree(slots[n].tree, room - 1)
    } by {
        if n > 0 {
            assert(slots[n] == more[n - 1]);
        } else {
            assert(slots[0] == seq![x][0]);
        }
    }
    assert(done.push(tree_value(x.tree)) + slot_values(more) =~= done + slot_values(slots)) by {
        assert forall|n: int| 0 < n < slots.len() implies slot_values(slots)[n] == slot_values(
            more,
        )[n - 1] by {
            assert(more[n - 1] == slots[n]);
        }
    }
}

/// A member and the white space behind it.
spec fn member_text(x: Entry) -> Seq<char> {
    string_text(x.spelling) + (x.behind_key + (seq![':'] + (x.behind_colon + (tree_text(x.tree)
        + x.after))))
}

/// The first member that is left, and how reading goes on behind it.
proof fn lemma_member_back(
    s: Seq<char>,
    i: int,
    depth: int,
    done: Seq<(Seq<char>, JsonValue)>,
) -> (r: (Entry, int))
    requires
        0 <= i,
        0 <= depth,
        json::members(s, i, depth, done) is Ok,
    ensures
        ({
            let (x, k) = r;
            let all = done.push((x.key, tree_value(x.tree)));
            &&& i < k < s.len()
            &&& good_entries(seq![x], json::MAX_DEPTH - depth)
            &&& member_text(x) == s.subrange(i, k)
            &&& s[k] == ',' ==> json::members(s, i, depth, done) == json::members(
                s,
                json::skip_blanks(s, k + 1),
                depth,
                all,
            )
            &&& s[k] != ',' ==> s[k] == '}' && json::members(s, i, depth, done) == Ok::<
                (JsonValue, int),
                Seq<char>,
            >((JsonValue::Obj(all), k + 1))
        }),
    decreases s.len() - i, 1int,
{
    let spelling = lemma_text_back(s, i);
    let (key, a) = json::string(s, i)->Ok_0;
    let behind_key = lemma_gap_back(s, a);
    let b = json::skip_blanks(s, a);
    let behind_colon = lemma_gap_back(s, b + 1);
    let c = json::skip_blanks(s, b + 1);
    let tree = lemma_tree_back(s, c, depth + 1);
    let j = json::value(s, c, depth + 1)->Ok_0.1;
    let after = lemma_gap_back(s, j);
    let k = json::skip_blanks(s, j);
    let x = Entry {
        before: Seq::empty(),
        key,
        spelling,
        behind_key,
        behind_colon,
        tree,
        after,
    };
    let none = Seq::<char>::empty();
    assert(none =~= s.subrange(k, k));
    lemma_members_text(s, i, a, b, c, j, k, k, x, none);
    assert(x.after + none =~= x.after);
    (x, k)
}

/// More text behind a member.
proof fn lemma_member_text(x: Entry, rest: Seq<char>)
    ensures
        string_text(x.spelling) + (x.behind_key + (seq![':'] + (x.behind_colon + (tree_text(x.tree)
            + (x.after + rest))))) == member_text(x) + rest,
{
    assert(string_text(x.spelling) + (x.behind_key + (seq![':'] + (x.behind_colon + (tree_text(
        x.tree,
    ) + (x.after + rest))))) =~= member_text(x) + rest);
}

proof fn lemma_members_back(
    s: Seq<char>,
    i: int,
    depth: int,
    done: Seq<(Seq<char>, JsonValue)>,
) -> (entries: Seq<Entry>)
    requires
        0 <= i,
        0 <= depth,
        json::members(s, i, depth, done) is Ok,
    ensures
        ({
            let (v, j) = json::members(s, i, depth, done)->Ok_0;
            &&& 0 <= i < j <= s.len()
            &&& entries.len() > 0
            &&& good_entries(entries, json::MAX_DEPTH - depth)
            &&& entries_text(entries) == s.subrange(i, j)
            &&& v == JsonValue::Obj(done + entry_values(entries))
        }),
    decreases s.len() - i, 2int,
{
    let room = json::MAX_DEPTH - depth;
    let end = json::members(s, i, depth, done)->Ok_0.1;
    let (x, k) = lemma_member_back(s, i, depth, done);
    let all = done.push((x.key, tree_value(x.tree)));
    if s[k] == ',' {
        let g = lemma_gap_back(s, k + 1);
        let m = json::skip_blanks(s, k + 1);
        let found = lemma_members_back(s, m, depth, all);
        let more = lemma_first_gap_entry(found, g, room);
        let rest = seq![','] + g + entries_text(more);
        assert(rest =~= s.subrange(k, end));
        lemma_member_text(x, rest);
        assert(s.subrange(i, k) + s.subrange(k, end) =~= s.subrange(i, end));
        lemma_entry_ahead(x, more, room, done);
        seq![x] + more
    } else {
        let rest = seq!['}'];
        assert(rest =~= s.subrange(k, end));
        lemma_member_text(x, rest);
        assert(s.subrange(i, k) + s.subrange(k, end) =~= s.subrange(i, end));
        lemma_entry_alone(x, room, done);
        seq![x]
    }
}

proof fn lemma_entry_alone(x: Entry, room: int, done: Seq<(Seq<char>, JsonValue)>)
    requires
        good_entries(seq![x], room),
    ensures
        entries_text(seq![x]) == string_text(x.spelling) + (x.behind_key + (seq![':'] + (
        x.behind_colon + (tree_text(x.tree) + (x.after + seq!['}']))))),
        done + entry_values(seq![x]) == done.push((x.key, tree_value(x.tree))),
{
    lemma_entries_front(seq![x]);
    assert(done + entry_values(seq![x]) =~= done.push((x.key, tree_value(x.tree))));
}

proof fn lemma_entry_ahead(
    x: Entry,
    more: Seq<Entry>,
    room: int,
    done: Seq<(Seq<char>, JsonValue)>,
)
    requires
        good_entries(seq![x], room),
        good_entries(more, room),
        more.len() > 0,
    ensures
        good_entries(seq![x] + more, room),
        entries_text(seq![x] + more) == string_text(x.spelling) + (x.behind_key + (seq![':'] + (
        x.behind_colon + (tree_text(x.tree) + (x.after + (seq![','] + more[0].before
            + entries_text(more))))))),
        done + entry_values(seq![x] + more) == done.push((x.key, tree_value(x.tree)))
            + entry_values(more),
{
    let entries = seq![x] + more;
    assert(entries.drop_first() =~= more);
    assert(entries[1] == more[0]);
    lemma_entries_front(entries);
    assert(seq![x][0] == x);
    assert forall|n: int| 0 <= n < entries.len() implies {
        &&& is_gap((#[trigger] entries[n]).before)
        &&& is_gap(entries[n].after)
        &&& is_gap(entries[n].behind_key)
        &&& is_gap(entries[n].behind_colon)
        &&& spells_text(entries[n].key, entries[n].spelling)
        &&& is_tree(entries[n].tree, room - 1)
    } by {
        if n > 0 {
            assert(entries[n] == more[n - 1]);
        } else {
            assert(entries[0] == seq![x][0]);
        }
    }
    assert(done.push((x.key, tree_value(x.tree))) + entry_values(more) =~= done + entry_values(
        entries,
    )) by {
        assert forall|n: int| 0 < n < entries.len() implies entry_values(entries)[n]
            == entry_values(more)[n - 1] by {
            assert(more[n - 1] == entries[n]);
        }
    }
}

proof fn lemma_members_text(
    s: Seq<char>,
    i: int,
    a: int,
    b: int,
    c: int,
    j: int,
    k: int,
    end: int,
    x: Entry,
    rest: Seq<char>,
)
    requires
        0 <= i <= a <= b < c <= j <= k <= end <= s.len(),
        string_text(x.spelling) == s.subrange(i, a),
        x.behind_key == s.subrange(a, b),
        s[b] == ':',
        x.behind_colon == s.subrange(b + 1, c),
        tree_text(x.tree) == s.subrange(c, j),
        x.after == s.subrange(j, k),
        rest =~= s.subrange(k, end),
    ensures
        string_text(x.spelling) + (x.behind_key + (seq![':'] + (x.behind_colon + (tree_text(x.tree)
            + (x.after + rest))))) == s.subrange(i, end),
{
    assert(x.after + rest =~= s.subrange(j, end));
    assert(tree_text(x.tree) + s.subrange(j, end) =~= s.subrange(c, end));
    assert(x.behind_colon + s.subrange(c, end) =~= s.subrange(b + 1, end));
    assert(seq![':'] + s.subrange(b + 1, end) =~= s.subrange(b, end));
    assert(x.behind_key + s.subrange(b, end) =~= s.subrange(a, end));
    assert(string_text(x.spelling) + s.subrange(a, end) =~= s.subrange(i, end));
}

/// Whether `s` is the text of a value with white space around it, and the
/// value is `v`.
pub open spec fn writes(s: Seq<char>, before: Seq<char>, tree: Tree, after: Seq<char>) -> bool {
    &&& is_gap(before) && is_gap(after)
    &&& is_tree(tree, 128)
    &&& s == before + tree_text(tree) + after
}

/// Nothing else is a document: every text that is accepted is a value written
/// as it has to be, with white space around it, and is taken for that value.
pub proof fn law_only_documents_are_accepted(s: Seq<char>)
    requires
        json::document(s) is Ok,
    ensures
        exists|before: Seq<char>, tree: Tree, after: Seq<char>| #[trigger]
            writes(s, before, tree, after) && json::document(s) == Ok::<JsonValue, Seq<char>>(
                tree_value(tree),
            ),
{
    let before = lemma_gap_back(s, 0);
    let i = json::skip_blanks(s, 0);
    let tree = lemma_tree_back(s, i, 0);
    let j = json::value(s, i, 0)->Ok_0.1;
    let after = lemma_gap_back(s, j);
    assert(s =~= before + tree_text(tree) + after);
    assert(writes(s, before, tree, after));
}

/// The offset in a message counts bytes of UTF-8, not characters.
pub proof fn law_offsets_count_bytes(msg: Seq<char>, a: Seq<char>, b: Seq<char>)
    ensures
        json::fail(msg, a + b, a.len() as int) == msg + " at byte "@ + text::decimal_text(
            vstd::utf8::encode_utf8(a).len(),
        ),
{
    assert((a + b).take(a.len() as int) =~= a);
}

} // verus!
