//! What CSV records mean, told by the values that are written in them.

use vstd::prelude::*;

use crate::csv;
use crate::csv::{FieldState, Step};
use crate::text;

verus! {

/// A value as it may stand in a record: in quotes, with its own quotes
/// doubled, or plainly.
pub open spec fn field_text(value: Seq<u8>, quoted: bool) -> Seq<u8> {
    if quoted {
        seq![0x22u8] + csv::doubled(value) + seq![0x22u8]
    } else {
        value
    }
}

/// Whether a value can stand plainly: it does not begin with a quote, and
/// holds neither the delimiter nor a line feed.
pub open spec fn is_plain(value: Seq<u8>, delim: u8) -> bool {
    &&& value.len() > 0 ==> value[0] != 0x22
    &&& !value.contains(delim)
    &&& !value.contains(0x0Au8)
}

/// Doubling quotes puts a second quote behind each and changes nothing else.
pub proof fn law_quotes_are_doubled(a: Seq<u8>, b: u8)
    ensures
        csv::doubled(Seq::empty()) == Seq::<u8>::empty(),
        csv::doubled(a.push(b)) == csv::doubled(a) + (if b == 0x22 {
            seq![0x22u8, 0x22u8]
        } else {
            seq![b]
        }),
{
    assert(a.push(b).drop_last() =~= a);
    assert(csv::doubled(a.push(b)) =~= csv::doubled(a) + (if b == 0x22 {
        seq![0x22u8, 0x22u8]
    } else {
        seq![b]
    }));
}

/// Values with the delimiter between them, the ones marked in quotes.
pub open spec fn record_text(values: Seq<Seq<u8>>, quoted: Seq<bool>, delim: u8) -> Seq<u8>
    decreases values.len(),
{
    if values.len() == 0 {
        Seq::empty()
    } else if values.len() == 1 {
        field_text(values[0], quoted[0])
    } else {
        record_text(values.drop_last(), quoted.drop_last(), delim) + seq![delim] + field_text(
            values.last(),
            quoted.last(),
        )
    }
}

proof fn lemma_field(value: Seq<u8>, quoted: bool, delim: u8)
    requires
        delim != 0x22 && delim != 0x0A,
        !quoted ==> is_plain(value, delim),
    ensures
        csv::field_bytes(field_text(value, quoted), delim) == seq![value],
        csv::complete(field_text(value, quoted), delim),
{
    if quoted {
        csv::law_quoted_values_decode(value, delim);
        assert(field_text(value, quoted) =~= (seq![0x22u8] + csv::doubled(value)).push(0x22u8));
    } else {
        assert forall|k: int| 0 <= k < value.len() implies #[trigger] value[k] != delim by {
            assert(value[k] == delim ==> value.contains(delim));
        }
        csv::law_unquoted_values_are_literal(value, delim);
        assert forall|k: int| 0 <= k < value.len() implies !#[trigger] csv::ends_record(
            value,
            k,
            delim,
        ) by {
            assert(value[k] == 0x0A ==> value.contains(0x0Au8));
        }
    }
}

/// Complete records with a delimiter between are a complete record.
proof fn lemma_complete_joined(a: Seq<u8>, b: Seq<u8>, delim: u8)
    requires
        delim != 0x22 && delim != 0x0A,
        csv::complete(a, delim),
        csv::complete(b, delim),
    ensures
        csv::complete(a + seq![delim] + b, delim),
        csv::field_bytes(a + seq![delim] + b, delim) == csv::field_bytes(a, delim)
            + csv::field_bytes(b, delim),
{
    let p = a + seq![delim];
    let s = p + b;
    csv::law_delimiter_separates(a, b, delim);
    assert(p.drop_last() =~= a);
    csv::lemma_state_append(p, b, delim);
    assert forall|k: int| 0 <= k < s.len() implies !#[trigger] csv::ends_record(s, k, delim) by {
        if k < a.len() {
            csv::lemma_ends_record_prefix(s, a, k, delim);
        } else if k == a.len() {
            assert(s[k] == delim);
        } else {
            let j = k - p.len();
            assert(s.take(k) =~= p + b.take(j));
            csv::lemma_state_append(p, b.take(j), delim);
            assert(!csv::ends_record(b, j, delim));
        }
    }
}

/// A record gives back the values that are written in it, each of them, in
/// their order, whichever stand in quotes; and it ends nowhere inside.
pub proof fn law_values_read_back(values: Seq<Seq<u8>>, quoted: Seq<bool>, delim: u8)
    requires
        delim != 0x22 && delim != 0x0A,
        values.len() > 0,
        values.len() == quoted.len(),
        forall|i: int|
            0 <= i < values.len() && !quoted[i] ==> is_plain(#[trigger] values[i], delim),
    ensures
        csv::field_bytes(record_text(values, quoted, delim), delim) == values,
        csv::complete(record_text(values, quoted, delim), delim),
        csv::fields(record_text(values, quoted, delim), delim).len() == values.len(),
        forall|i: int|
            0 <= i < values.len() ==> #[trigger] csv::fields(
                record_text(values, quoted, delim),
                delim,
            )[i] == text::readable_text(values[i]),
    decreases values.len(),
{
    let n = values.len() - 1;
    let last = values.last();
    assert(values[n] == last);
    lemma_field(last, quoted.last(), delim);
    if n == 0 {
        assert(values =~= seq![last]);
    } else {
        let vs = values.drop_last();
        let qs = quoted.drop_last();
        assert forall|i: int| 0 <= i < vs.len() && !qs[i] implies is_plain(
            #[trigger] vs[i],
            delim,
        ) by {
            assert(values[i] == vs[i]);
        }
        law_values_read_back(vs, qs, delim);
        lemma_complete_joined(
            record_text(vs, qs, delim),
            field_text(last, quoted.last()),
            delim,
        );
        assert(vs + seq![last] =~= values);
    }
}

/// The text of a field that is valid UTF-8 is what it encodes.
pub proof fn law_fields_are_texts(t: Seq<char>)
    ensures
        text::readable_text(vstd::utf8::encode_utf8(t)) == t,
{
    vstd::utf8::encode_utf8_decode_utf8(t);
    vstd::utf8::encode_utf8_valid_utf8(t);
}

proof fn lemma_unquoted_tail(p: Seq<u8>, tail: Seq<u8>, delim: u8)
    requires
        csv::state_after(p, delim) == FieldState::Unquoted,
        csv::field_bytes(p, delim).len() == 1,
        !tail.contains(delim),
        !tail.contains(0x0Au8),
        csv::complete(p, delim),
    ensures
        csv::field_bytes(p + tail, delim) == seq![csv::field_bytes(p, delim)[0] + tail],
        csv::state_after(p + tail, delim) == FieldState::Unquoted,
        csv::complete(p + tail, delim),
    decreases tail.len(),
{
    let f = csv::field_bytes(p, delim);
    if tail.len() == 0 {
        assert(p + tail =~= p);
        assert(f[0] + tail =~= f[0]);
        assert(f =~= seq![f[0] + tail]);
    } else {
        let init = tail.drop_last();
        assert forall|b: u8| init.contains(b) implies tail.contains(b) by {
            let i = init.index_of(b);
            assert(tail[i] == b);
        }
        lemma_unquoted_tail(p, init, delim);
        let s = p + tail;
        assert(s.drop_last() =~= p + init);
        assert(tail[tail.len() - 1] != delim && tail[tail.len() - 1] != 0x0A);
        assert(csv::field_bytes(s, delim) =~= seq![f[0] + tail]) by {
            assert((f[0] + init).push(tail.last()) =~= f[0] + tail);
        }
        assert forall|k: int| 0 <= k < s.len() implies !#[trigger] csv::ends_record(
            s,
            k,
            delim,
        ) by {
            if k < s.len() - 1 {
                csv::lemma_ends_record_prefix(s, p + init, k, delim);
            }
        }
    }
}

/// What stands behind a closing quote belongs to the value as it is, quotes
/// among it, up to the delimiter.
pub proof fn law_text_behind_quotes_is_literal(value: Seq<u8>, tail: Seq<u8>, delim: u8)
    requires
        delim != 0x22 && delim != 0x0A,
        tail.len() > 0,
        is_plain(tail, delim),
    ensures
        csv::field_bytes(field_text(value, true) + tail, delim) == seq![value + tail],
        csv::complete(field_text(value, true) + tail, delim),
{
    let q = field_text(value, true);
    lemma_field(value, true, delim);
    csv::lemma_open_quote(value, delim);
    assert(q.drop_last() =~= seq![0x22u8] + csv::doubled(value));
    assert(csv::state_after(q, delim) == FieldState::AfterQuote);
    let p = q.push(tail[0]);
    let rest = tail.drop_first();
    assert(tail[0] != delim && tail[0] != 0x0A);
    assert(p.drop_last() =~= q);
    assert(csv::state_after(p, delim) == FieldState::Unquoted);
    assert(csv::field_bytes(p, delim) =~= seq![value.push(tail[0])]);
    assert forall|k: int| 0 <= k < p.len() implies !#[trigger] csv::ends_record(p, k, delim) by {
        if k < q.len() {
            csv::lemma_ends_record_prefix(p, q, k, delim);
        }
    }
    assert forall|b: u8| rest.contains(b) implies tail.contains(b) by {
        let i = rest.index_of(b);
        assert(tail[i + 1] == b);
    }
    lemma_unquoted_tail(p, rest, delim);
    assert(p + rest =~= q + tail);
    assert(value.push(tail[0]) + rest =~= value + tail);
}

/// A quote that is opened and never closed is an error that names the line
/// on which its record begins.
pub proof fn law_open_quotes_are_refused(
    values: Seq<Seq<u8>>,
    quoted: Seq<bool>,
    open: Seq<u8>,
    delim: u8,
    line: nat,
)
    requires
        delim != 0x22 && delim != 0x0A,
        values.len() > 0,
        values.len() == quoted.len(),
        forall|i: int|
            0 <= i < values.len() && !quoted[i] ==> is_plain(#[trigger] values[i], delim),
    ensures
        csv::csv_step(
            record_text(values, quoted, delim) + seq![delim] + (seq![0x22u8] + csv::doubled(open)),
            delim,
            line as int,
        ) == (Step::Fail {
            reason: "line "@ + text::decimal_text(line)
                + ": unterminated quoted field at end of input"@,
        }),
        csv::csv_step(seq![0x22u8] + csv::doubled(open), delim, line as int) == (Step::Fail {
            reason: "line "@ + text::decimal_text(line)
                + ": unterminated quoted field at end of input"@,
        }),
{
    let a = record_text(values, quoted, delim);
    let b = seq![0x22u8] + csv::doubled(open);
    law_values_read_back(values, quoted, delim);
    csv::lemma_open_quote(open, delim);
    csv::lemma_quoted_inside(open, delim);
    csv::lemma_record_end_skips(b, 0, b.len() as int, delim);
    let p = a + seq![delim];
    let s = p + b;
    assert(p.drop_last() =~= a);
    csv::lemma_state_append(p, b, delim);
    assert forall|k: int| 0 <= k < s.len() implies !#[trigger] csv::ends_record(s, k, delim) by {
        if k < a.len() {
            csv::lemma_ends_record_prefix(s, a, k, delim);
        } else if k == a.len() {
            assert(s[k] == delim);
        } else {
            let j = k - p.len();
            assert(s.take(k) =~= p + b.take(j));
            csv::lemma_state_append(p, b.take(j), delim);
            assert(!csv::ends_record(b, j, delim));
        }
    }
    csv::lemma_record_end_skips(s, 0, s.len() as int, delim);
}

} // verus!
