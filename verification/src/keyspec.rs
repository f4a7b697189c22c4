//! `--key` specification parsing: `field[:type][:flag...]`.
//!
//! The field part names a CSV header, a 1-based CSV column index, or a
//! dot-separated JSONL path (`user.address.city`, `items.0.sku`). The
//! optional type is `str` (default), `num` or `date`; flags are `desc`
//! (descending), `asc` and `ci` (ASCII case-insensitive, `str` keys only).

use vstd::prelude::*;

use crate::text;
use crate::value;
use crate::value::KeyType;

verus! {

/// One parsed `--key` specification, before column/path resolution.
#[derive(Debug, PartialEq)]
pub struct KeySpec {
    /// The raw field selector as written by the user.
    pub field: String,
    pub ty: KeyType,
    pub desc: bool,
    pub ci: bool,
}

/// What a key specification says, as a mathematical value.
pub struct Key {
    pub field: Seq<char>,
    pub ty: KeyType,
    pub desc: bool,
    pub ci: bool,
}

impl View for KeySpec {
    type V = Key;

    open spec fn view(&self) -> Key {
        Key { field: self.field@, ty: self.ty, desc: self.desc, ci: self.ci }
    }
}

/// What the key specifications of a list say.
pub open spec fn keys(list: Seq<KeySpec>) -> Seq<Key> {
    Seq::new(list.len(), |i: int| list[i]@)
}

impl Clone for KeySpec {
    fn clone(&self) -> (r: Self)
        ensures
            r@ == self@,
    {
        KeySpec {
            field: text::owned(self.field.as_str()),
            ty: self.ty,
            desc: self.desc,
            ci: self.ci,
        }
    }
}

impl KeySpec {
    /// The field selector split into JSONL path segments.
    pub fn path(&self) -> (r: Vec<String>)
        ensures
            text::texts(r@) == text::pieces(self.field@, '.'),
    {
        let cs = text::chars_of(self.field.as_str());
        text::split(&cs, '.')
    }
}

// ---------------------------------------------------------------------------
// Parsing

/// What the modifiers read so far say: a type if any, and the two flags.
pub struct Modifiers {
    pub ty: Option<KeyType>,
    pub desc: bool,
    pub ci: bool,
}

/// The words `desc` and `descending`.
pub open spec fn is_desc(part: Seq<char>) -> bool {
    part == "desc"@ || part == "descending"@
}

/// The words `asc` and `ascending`.
pub open spec fn is_asc(part: Seq<char>) -> bool {
    part == "asc"@ || part == "ascending"@
}

/// One more modifier: a flag, or a type where none was given before.
pub open spec fn modified(spec: Seq<char>, m: Modifiers, part: Seq<char>) -> Result<
    Modifiers,
    Seq<char>,
> {
    if is_desc(part) {
        Ok(Modifiers { desc: true, ..m })
    } else if is_asc(part) {
        Ok(Modifiers { desc: false, ..m })
    } else if part == "ci"@ {
        Ok(Modifiers { ci: true, ..m })
    } else {
        match (value::key_type(part), m.ty) {
            (None, _) => Err(
                "key spec '"@ + spec + "': unknown modifier '"@ + part
                    + "' (expected a type: str, num, date; or a flag: desc, asc, ci)"@,
            ),
            (Some(ty), Some(old)) => Err(
                "key spec '"@ + spec + "': conflicting types '"@ + value::short_name(old)
                    + "' and '"@ + value::short_name(ty) + "'"@,
            ),
            (Some(ty), None) => Ok(Modifiers { ty: Some(ty), ..m }),
        }
    }
}

/// The modifiers `parts` one after the other.
pub open spec fn all_modified(spec: Seq<char>, m: Modifiers, parts: Seq<Seq<char>>) -> Result<
    Modifiers,
    Seq<char>,
>
    decreases parts.len(),
{
    if parts.len() == 0 {
        Ok(m)
    } else {
        match modified(spec, m, parts[0]) {
            Err(e) => Err(e),
            Ok(next) => all_modified(spec, next, parts.drop_first()),
        }
    }
}

/// No modifiers: ascending, case-sensitive, no type.
pub open spec fn unmodified() -> Modifiers {
    Modifiers { ty: None, desc: false, ci: false }
}

/// The key that a field and its modifiers make; `str` unless a type is
/// given, and `ci` on such keys only.
pub open spec fn key(spec: Seq<char>, field: Seq<char>, m: Modifiers) -> Result<Key, Seq<char>> {
    let ty = match m.ty {
        Some(ty) => ty,
        None => KeyType::Str,
    };
    if m.ci && ty != KeyType::Str {
        Err(
            "key spec '"@ + spec + "': 'ci' only applies to str keys, not "@ + value::short_name(
                ty,
            ),
        )
    } else {
        Ok(Key { field, ty, desc: m.desc, ci: m.ci })
    }
}

/// The key that a `--key` argument specifies.
pub open spec fn specified(spec: Seq<char>) -> Result<Key, Seq<char>> {
    let parts = text::pieces(spec, ':');
    if parts[0].len() == 0 {
        Err("key spec '"@ + spec + "': empty field selector"@)
    } else {
        match all_modified(spec, unmodified(), parts.drop_first()) {
            Err(e) => Err(e),
            Ok(m) => key(spec, parts[0], m),
        }
    }
}

proof fn lemma_some_piece(s: Seq<char>, sep: char)
    ensures
        text::pieces(s, sep).len() > 0,
{
}

/// Parse one `--key` argument. The first `:`-separated segment is the field
/// selector; every following segment must be a type or a flag, in any order,
/// with at most one type.
pub fn parse_keyspec(spec: &str) -> (r: Result<KeySpec, String>)
    ensures
        match (r, specified(spec@)) {
            (Ok(a), Ok(b)) => a@ == b,
            (Err(a), Err(b)) => a@ == b,
            _ => false,
        },
{
    let cs = text::chars_of(spec);
    let parts = text::split(&cs, ':');
    let ghost all = text::texts(parts@);
    proof {
        lemma_some_piece(spec@, ':');
        assert(all.len() == parts@.len());
        assert(all[0] == parts@[0]@);
    }
    let first = text::chars_of(parts[0].as_str());
    if first.len() == 0 {
        return Err(text::join3("key spec '", spec, "': empty field selector"));
    }
    let mut ty: Option<KeyType> = None;
    let mut desc: bool = false;
    let mut ci: bool = false;
    let mut i: usize = 1;
    assert(all.skip(1) =~= all.drop_first());
    while i < parts.len()
        invariant
            1 <= i <= parts@.len(),
            all == text::texts(parts@),
            all_modified(spec@, unmodified(), all.drop_first()) == all_modified(
                spec@,
                (Modifiers { ty, desc, ci }),
                all.skip(i as int),
            ),
            specified(spec@) == (match all_modified(spec@, unmodified(), all.drop_first()) {
                Err(e) => Err(e),
                Ok(m) => key(spec@, all[0], m),
            }),
        decreases parts@.len() - i,
    {
        let part = parts[i].as_str();
        assert(all.skip(i as int)[0] == part@);
        assert(all.skip(i as int).drop_first() =~= all.skip(i + 1));
        if text::same_text(part, "desc") || text::same_text(part, "descending") {
            desc = true;
        } else if text::same_text(part, "asc") || text::same_text(part, "ascending") {
            desc = false;
        } else if text::same_text(part, "ci") {
            ci = true;
        } else {
            let parsed = match KeyType::from_name(part) {
                Ok(t) => t,
                Err(_e) => {
                    return Err(bad_modifier(spec, part));
                },
            };
            if let Some(existing) = ty {
                let head = text::join3("key spec '", spec, "': conflicting types '");
                return Err(
                    text::join5(head.as_str(), existing.name(), "' and '", parsed.name(), "'"),
                );
            }
            ty = Some(parsed);
        }
        i += 1;
    }
    let ghost m = Modifiers { ty, desc, ci };
    assert(all_modified(spec@, m, all.skip(i as int)) == Ok::<Modifiers, Seq<char>>(m));
    let ty = match ty {
        Some(t) => t,
        None => KeyType::Str,
    };
    if ci && ty != KeyType::Str {
        return Err(
            text::join4("key spec '", spec, "': 'ci' only applies to str keys, not ", ty.name()),
        );
    }
    Ok(KeySpec { field: text::string_of(&first), ty, desc, ci })
}

/// What is wrong with a modifier that is no type and no flag.
fn bad_modifier(spec: &str, part: &str) -> (r: String)
    ensures
        r@ == "key spec '"@ + spec@ + "': unknown modifier '"@ + part@
            + "' (expected a type: str, num, date; or a flag: desc, asc, ci)"@,
{
    text::join5(
        "key spec '",
        spec,
        "': unknown modifier '",
        part,
        "' (expected a type: str, num, date; or a flag: desc, asc, ci)",
    )
}

// ---------------------------------------------------------------------------
// Columns

/// How a key spec addresses a CSV column once the header is known.
#[derive(Debug, Clone, Copy, PartialEq, Eq, Structural)]
pub enum ColRef {
    /// 0-based column index.
    Index(usize),
}

/// Where `name` stands first in `list`, if anywhere.
pub open spec fn position(list: Seq<Seq<char>>, name: Seq<char>) -> Option<int>
    decreases list.len(),
{
    if list.len() == 0 {
        None
    } else if list[0] == name {
        Some(0)
    } else {
        match position(list.drop_first(), name) {
            Some(i) => Some(i + 1),
            None => None,
        }
    }
}

/// The column with the 1-based number `n`.
pub open spec fn numbered(n: nat, field: Seq<char>) -> Result<ColRef, Seq<char>> {
    if n == 0 {
        Err("key field '"@ + field + "': columns are numbered from 1"@)
    } else {
        Ok(ColRef::Index((n - 1) as usize))
    }
}

/// The column that a selector means under a header: the first one of that
/// exact name, else the one with that 1-based number if it is all digits.
pub open spec fn column(field: Seq<char>, header: Seq<Seq<char>>) -> Result<ColRef, Seq<char>> {
    match position(header, field) {
        Some(i) => Ok(ColRef::Index(i as usize)),
        None => match text::digits_only(field, usize::MAX as nat) {
            Some(n) => numbered(n, field),
            None => Err(
                "key field '"@ + field + "' not found in header ("@ + text::joined(header, ", "@)
                    + ")"@,
            ),
        },
    }
}

/// The column that a selector means without a header.
pub open spec fn column_number(field: Seq<char>) -> Result<ColRef, Seq<char>> {
    match text::unsigned(field, usize::MAX as nat) {
        Some(n) => numbered(n, field),
        None => Err(
            "key field '"@ + field
                + "': with --no-header, keys must be 1-based column numbers"@,
        ),
    }
}

/// Whether `r` is the column that `c` says, or its error.
pub open spec fn is_column(r: Result<ColRef, String>, c: Result<ColRef, Seq<char>>) -> bool {
    match (r, c) {
        (Ok(a), Ok(b)) => a == b,
        (Err(a), Err(b)) => a@ == b,
        _ => false,
    }
}

/// Resolve a key spec's field selector against a CSV header row. Exact
/// header names win; a selector that matches no header but is all digits is
/// taken as a 1-based column index.
pub fn resolve_csv_column(field: &str, header: &[String]) -> (r: Result<ColRef, String>)
    ensures
        is_column(r, column(field@, text::texts(header@))),
{
    let mut i: usize = 0;
    let ghost all = text::texts(header@);
    assert(all.skip(0) =~= all);
    while i < header.len()
        invariant
            i <= header@.len(),
            all == text::texts(header@),
            position(all, field@) == (match position(all.skip(i as int), field@) {
                Some(k) => Some(k + i),
                None => None,
            }),
        decreases header@.len() - i,
    {
        assert(all.skip(i as int).drop_first() =~= all.skip(i + 1));
        if text::same_text(header[i].as_str(), field) {
            return Ok(ColRef::Index(i));
        }
        i += 1;
    }
    let cs = text::chars_of(field);
    if let Some(n) = text::parse_digits(&cs, usize::MAX as u64) {
        return index_col(n as usize, field);
    }
    let names = text::join_all(header, ", ");
    Err(text::join5("key field '", field, "' not found in header (", names.as_str(), ")"))
}

/// Resolve a selector for headerless CSV: it must be a 1-based index.
pub fn resolve_csv_index(field: &str) -> (r: Result<ColRef, String>)
    ensures
        is_column(r, column_number(field@)),
{
    let cs = text::chars_of(field);
    match text::parse_unsigned(&cs, usize::MAX as u64) {
        Some(n) => index_col(n as usize, field),
        None => Err(
            text::join3(
                "key field '",
                field,
                "': with --no-header, keys must be 1-based column numbers",
            ),
        ),
    }
}

/// The column with the 1-based number `n`.
fn index_col(n: usize, field: &str) -> (r: Result<ColRef, String>)
    ensures
        is_column(r, numbered(n as nat, field@)),
{
    if n == 0 {
        Err(text::join3("key field '", field, "': columns are numbered from 1"))
    } else {
        Ok(ColRef::Index(n - 1))
    }
}

// ---------------------------------------------------------------------------
// Laws

pub proof fn lemma_modified_in_turn(
    spec: Seq<char>,
    m: Modifiers,
    a: Seq<Seq<char>>,
    b: Seq<Seq<char>>,
)
    ensures
        all_modified(spec, m, a + b) == (match all_modified(spec, m, a) {
            Err(e) => Err(e),
            Ok(next) => all_modified(spec, next, b),
        }),
    decreases a.len(),
{
    if a.len() == 0 {
        assert(a + b =~= b);
    } else {
        assert((a + b).drop_first() =~= a.drop_first() + b);
        match modified(spec, m, a[0]) {
            Err(e) => {},
            Ok(next) => lemma_modified_in_turn(spec, next, a.drop_first(), b),
        }
    }
}

/// Modifiers may stand in any order: swapping two neighbours changes nothing,
/// unless one says `asc` and the other `desc`, where the later one wins.
pub proof fn law_modifiers_commute(
    spec: Seq<char>,
    before: Seq<Seq<char>>,
    x: Seq<char>,
    y: Seq<char>,
    after: Seq<Seq<char>>,
)
    requires
        all_modified(spec, unmodified(), before + seq![x, y] + after) is Ok,
        !(is_desc(x) && is_asc(y)),
        !(is_asc(x) && is_desc(y)),
    ensures
        all_modified(spec, unmodified(), before + seq![y, x] + after) == all_modified(
            spec,
            unmodified(),
            before + seq![x, y] + after,
        ),
{
    reveal_strlit("desc");
    reveal_strlit("descending");
    reveal_strlit("asc");
    reveal_strlit("ascending");
    let m = unmodified();
    lemma_modified_in_turn(spec, m, before + seq![x, y], after);
    lemma_modified_in_turn(spec, m, before + seq![y, x], after);
    lemma_modified_in_turn(spec, m, before, seq![x, y]);
    lemma_modified_in_turn(spec, m, before, seq![y, x]);
    let n = all_modified(spec, m, before)->Ok_0;
    assert(seq![x, y].drop_first() =~= seq![y]);
    assert(seq![y, x].drop_first() =~= seq![x]);
    assert(seq![x].drop_first() =~= Seq::<Seq<char>>::empty());
    assert(seq![y].drop_first() =~= Seq::<Seq<char>>::empty());
    reveal_with_fuel(all_modified, 3);
}

/// An exact header name always wins over the numeric interpretation.
pub proof fn law_header_names_win(field: Seq<char>, header: Seq<Seq<char>>, i: int)
    requires
        0 <= i < header.len() <= usize::MAX,
        header[i] == field,
        forall|j: int| 0 <= j < i ==> #[trigger] header[j] != field,
    ensures
        column(field, header) == Ok::<ColRef, Seq<char>>(ColRef::Index(i as usize)),
{
    lemma_position(header, field, i);
}

proof fn lemma_position(list: Seq<Seq<char>>, name: Seq<char>, i: int)
    requires
        0 <= i < list.len(),
        list[i] == name,
        forall|j: int| 0 <= j < i ==> #[trigger] list[j] != name,
    ensures
        position(list, name) == Some(i),
    decreases i,
{
    if i > 0 {
        assert(list[0] != name);
        let rest = list.drop_first();
        assert forall|j: int| 0 <= j < i - 1 implies #[trigger] rest[j] != name by {
            assert(list[j + 1] != name);
        }
        lemma_position(rest, name, i - 1);
    }
}

} // verus!
