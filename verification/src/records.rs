//! What becomes of the records of an input, told by the bytes they stand in
//! and the bytes that are written.

use vstd::prelude::*;

use crate::arrange;
use crate::csv;
use crate::csv::Step;
use crate::extract;
use crate::extract::{Format, Rules};
use crate::guarantees;
use crate::keyspec;
use crate::keyspec::{ColRef, Key};
use crate::merge;
use crate::order;
use crate::sorter;
use crate::sorter::{CheckOutcome, Config, Stats};
use crate::spill::Item;
use crate::text;

verus! {

// ---------------------------------------------------------------------------
// Inputs

/// The records that are not blank.
pub open spec fn nonblank(records: Seq<Seq<u8>>) -> Seq<Seq<u8>>
    decreases records.len(),
{
    if records.len() == 0 {
        Seq::empty()
    } else if records[0].len() == 0 {
        nonblank(records.drop_first())
    } else {
        seq![records[0]] + nonblank(records.drop_first())
    }
}

/// Whether a record stands as it is before its end: a line feed, with a
/// carriage return before it or not. A CSV record has line feeds inside
/// quotes only, and a line of JSON has none.
pub open spec fn is_line(format: Format, delim: u8, raw: Seq<u8>, end: Seq<u8>) -> bool {
    &&& end == seq![0x0Du8, 0x0Au8] || (end == seq![0x0Au8] && !(raw.len() > 0 && raw.last()
        == 0x0D))
    &&& match format {
        Format::Csv => csv::complete(raw, delim),
        Format::Jsonl => !raw.contains(0x0Au8),
    }
}

/// Whether all records stand so.
pub open spec fn are_lines(
    format: Format,
    delim: u8,
    records: Seq<Seq<u8>>,
    ends: Seq<Seq<u8>>,
) -> bool {
    &&& records.len() == ends.len()
    &&& forall|i: int| 0 <= i < records.len() ==> is_line(format, delim, #[trigger] records[i], ends[i])
}

/// Whether every record that is not blank has a key.
pub open spec fn have_keys(rules: Rules, records: Seq<Seq<u8>>) -> bool {
    forall|i: int|
        0 <= i < records.len() && (#[trigger] records[i]).len() > 0 ==> extract::record_key(
            rules,
            records[i],
        ) is Ok
}

/// The key of a record.
#[verifier::opaque]
pub open spec fn key_of(rules: Rules, raw: Seq<u8>) -> Seq<u8> {
    extract::record_key(rules, raw)->Ok_0
}

/// How many line feeds there are.
pub open spec fn feeds(s: Seq<u8>) -> nat
    decreases s.len(),
{
    if s.len() == 0 {
        0
    } else {
        (if s[0] == 0x0A {
            1nat
        } else {
            0
        }) + feeds(s.drop_first())
    }
}

proof fn lemma_newlines_concat(a: Seq<u8>, b: Seq<u8>)
    ensures
        csv::newlines(a + b) == csv::newlines(a) + csv::newlines(b),
    decreases b.len(),
{
    if b.len() == 0 {
        assert(a + b =~= a);
    } else {
        assert((a + b).drop_last() =~= a + b.drop_last());
        lemma_newlines_concat(a, b.drop_last());
    }
}

proof fn lemma_feeds(s: Seq<u8>)
    ensures
        csv::newlines(s) == feeds(s),
    decreases s.len(),
{
    if s.len() > 0 {
        lemma_feeds(s.drop_first());
        let head = seq![s[0]];
        assert(head + s.drop_first() =~= s);
        lemma_newlines_concat(head, s.drop_first());
        assert(head.drop_last() =~= Seq::<u8>::empty());
        reveal_with_fuel(csv::newlines, 2);
    }
}

proof fn lemma_step_line(
    format: Format,
    delim: u8,
    raw: Seq<u8>,
    end: Seq<u8>,
    rest: Seq<u8>,
    line: int,
)
    requires
        is_line(format, delim, raw, end),
    ensures
        sorter::record_step(format, raw + end + rest, delim, line) == (Step::Record {
            bytes: raw,
            rest,
            next_line: line + csv::newlines(raw + end),
        }),
{
    let s = raw + end + rest;
    let crlf = seq![0x0Du8, 0x0Au8];
    lemma_newlines_concat(raw, end);
    assert(crlf.drop_last().drop_last() =~= Seq::<u8>::empty());
    assert(seq![0x0Au8].drop_last() =~= Seq::<u8>::empty());
    reveal_with_fuel(csv::newlines, 3);
    assert(csv::newlines(end) == 1);
    match format {
        Format::Csv => {
            if end == crlf {
                csv::law_crlf_records_read_back(raw, rest, delim, line);
            } else {
                csv::law_records_read_back(raw, rest, delim, line);
            }
        },
        Format::Jsonl => {
            let n = raw.len() as int + end.len() as int - 1;
            assert(s[n] == 0x0A);
            assert forall|k: int| 0 <= k < n implies #[trigger] s[k] != csv::NEWLINE by {
                if k < raw.len() {
                    assert(s[k] == raw[k]);
                }
            }
            guarantees::lemma_line_end_at(s, 0, n);
            assert(s.skip(n + 1) =~= rest);
            if end == crlf {
                assert(s.take(n) =~= raw.push(0x0Du8));
                assert(raw.push(0x0Du8).drop_last() =~= raw);
            } else {
                assert(s.take(n) =~= raw);
            }
            lemma_no_newlines(raw);
        },
    }
}

proof fn lemma_no_newlines(raw: Seq<u8>)
    requires
        !raw.contains(0x0Au8),
    ensures
        csv::newlines(raw) == 0,
    decreases raw.len(),
{
    if raw.len() > 0 {
        let init = raw.drop_last();
        assert(!init.contains(0x0Au8)) by {
            if init.contains(0x0Au8) {
                let i = init.index_of(0x0Au8);
                assert(raw[i] == 0x0Au8);
            }
        }
        assert(raw[raw.len() - 1] != 0x0Au8);
        lemma_no_newlines(init);
    }
}

/// The items that records come to, numbered from `n` on.
pub open spec fn items_of(rules: Rules, raws: Seq<Seq<u8>>, n: nat) -> Seq<Item> {
    Seq::new(
        raws.len(),
        |i: int| Item { key: key_of(rules, raws[i]), seq: (n + i) as u64, raw: raws[i] },
    )
}

proof fn lemma_lines_tail(
    format: Format,
    delim: u8,
    records: Seq<Seq<u8>>,
    ends: Seq<Seq<u8>>,
)
    requires
        records.len() > 0,
        are_lines(format, delim, records, ends),
    ensures
        are_lines(format, delim, records.drop_first(), ends.drop_first()),
{
    let r = records.drop_first();
    let e = ends.drop_first();
    assert forall|i: int| 0 <= i < r.len() implies is_line(format, delim, #[trigger] r[i], e[i]) by {
        assert(is_line(format, delim, records[i + 1], ends[i + 1]));
    }
}

/// What is loaded.
#[verifier::opaque]
spec fn read(rules: Rules, s: Seq<u8>, line: int, n: nat) -> Result<Seq<Item>, Seq<char>> {
    sorter::loaded(rules, s, line, n)
}

/// A record with a key is loaded, and then what follows it; a blank one is
/// passed over.
proof fn lemma_loaded_step(
    rules: Rules,
    raw: Seq<u8>,
    end: Seq<u8>,
    rest: Seq<u8>,
    line: int,
    n: nat,
)
    requires
        is_line(rules.format, rules.delim, raw, end),
        raw.len() > 0 ==> extract::record_key(rules, raw) is Ok,
    ensures
        ({
            let next = line + csv::newlines(raw + end);
            read(rules, raw + end + rest, line, n) == (if raw.len() == 0 {
                read(rules, rest, next, n)
            } else {
                before(
                    seq![Item { key: key_of(rules, raw), seq: n as u64, raw }],
                    read(rules, rest, next, n + 1),
                )
            })
        }),
{
    reveal(read);
    reveal(key_of);
    lemma_step_line(rules.format, rules.delim, raw, end, rest, line);
    sorter::lemma_step_shorter(rules.format, raw + end + rest, rules.delim, line);
}

proof fn lemma_items_front(rules: Rules, raw: Seq<u8>, more: Seq<Seq<u8>>, n: nat)
    ensures
        items_of(rules, seq![raw] + more, n) == seq![
            Item { key: key_of(rules, raw), seq: n as u64, raw },
        ] + items_of(rules, more, n + 1),
{
    let a = items_of(rules, seq![raw] + more, n);
    let b = seq![Item { key: key_of(rules, raw), seq: n as u64, raw }] + items_of(
        rules,
        more,
        n + 1,
    );
    assert forall|i: int| 0 <= i < a.len() implies a[i] == b[i] by {
        if i > 0 {
            assert((seq![raw] + more)[i] == more[i - 1]);
        }
    }
    assert(a =~= b);
}

proof fn lemma_keys_tail(rules: Rules, records: Seq<Seq<u8>>)
    requires
        records.len() > 0,
        have_keys(rules, records),
    ensures
        have_keys(rules, records.drop_first()),
{
    let rs = records.drop_first();
    assert forall|i: int|
        0 <= i < rs.len() && (#[trigger] rs[i]).len() > 0 implies extract::record_key(
        rules,
        rs[i],
    ) is Ok by {
        assert(records[i + 1] == rs[i]);
    }
}

/// Items before what is loaded after them, unless that fails.
spec fn before(items: Seq<Item>, r: Result<Seq<Item>, Seq<char>>) -> Result<Seq<Item>, Seq<char>> {
    match r {
        Err(e) => Err(e),
        Ok(more) => Ok(items + more),
    }
}

proof fn lemma_before(a: Seq<Item>, b: Seq<Item>, r: Result<Seq<Item>, Seq<char>>)
    ensures
        before(a, before(b, r)) == before(a + b, r),
        before(Seq::empty(), r) == r,
{
    if let Ok(more) = r {
        assert(a + (b + more) =~= a + b + more);
        assert(Seq::<Item>::empty() + more =~= more);
    }
}

/// Records with their ends are the first with its end, and the others.
proof fn lemma_ends_front(records: Seq<Seq<u8>>, ends: Seq<Seq<u8>>, tail: Seq<u8>)
    requires
        records.len() > 0,
        records.len() == ends.len(),
    ensures
        ({
            let sub = csv::with_ends(records.drop_first(), ends.drop_first());
            let head = csv::with_ends(records, ends);
            &&& head + tail == records[0] + ends[0] + (sub + tail)
            &&& csv::newlines(head) == csv::newlines(records[0] + ends[0]) + csv::newlines(sub)
        }),
{
    let sub = csv::with_ends(records.drop_first(), ends.drop_first());
    let head = csv::with_ends(records, ends);
    assert(head == records[0] + ends[0] + sub);
    assert(head + tail =~= records[0] + ends[0] + (sub + tail));
    lemma_newlines_concat(records[0] + ends[0], sub);
}

/// Whether the records stand in lines and have keys.
#[verifier::opaque]
spec fn fine(rules: Rules, records: Seq<Seq<u8>>, ends: Seq<Seq<u8>>) -> bool {
    are_lines(rules.format, rules.delim, records, ends) && have_keys(rules, records)
}

/// The first of records that are fine is loaded, and then the others.
proof fn lemma_loaded_first(
    rules: Rules,
    records: Seq<Seq<u8>>,
    ends: Seq<Seq<u8>>,
    tail: Seq<u8>,
    line: int,
    n: nat,
)
    requires
        records.len() > 0,
        fine(rules, records, ends),
    ensures
        fine(rules, records.drop_first(), ends.drop_first()),
        ({
            let raw = records[0];
            let rest = csv::with_ends(records.drop_first(), ends.drop_first()) + tail;
            let next = line + csv::newlines(raw + ends[0]);
            read(rules, csv::with_ends(records, ends) + tail, line, n) == (if raw.len() == 0 {
                read(rules, rest, next, n)
            } else {
                before(
                    seq![Item { key: key_of(rules, raw), seq: n as u64, raw }],
                    read(rules, rest, next, n + 1),
                )
            })
        }),
        csv::newlines(csv::with_ends(records, ends)) == csv::newlines(records[0] + ends[0])
            + csv::newlines(csv::with_ends(records.drop_first(), ends.drop_first())),
{
    reveal(fine);
    let sub = csv::with_ends(records.drop_first(), ends.drop_first());
    assert(is_line(rules.format, rules.delim, records[0], ends[0]));
    lemma_lines_tail(rules.format, rules.delim, records, ends);
    lemma_keys_tail(rules, records);
    lemma_ends_front(records, ends, tail);
    lemma_loaded_step(rules, records[0], ends[0], sub + tail, line, n);
}

/// Records that have keys are loaded one by one, and then what follows them.
proof fn lemma_loaded_fine(
    rules: Rules,
    records: Seq<Seq<u8>>,
    ends: Seq<Seq<u8>>,
    tail: Seq<u8>,
    line: int,
    n: nat,
)
    requires
        fine(rules, records, ends),
    ensures
        ({
            let head = csv::with_ends(records, ends);
            let some = nonblank(records);
            read(rules, head + tail, line, n) == before(
                items_of(rules, some, n),
                read(rules, tail, line + csv::newlines(head), n + some.len()),
            )
        }),
    decreases records.len(),
{
    let head = csv::with_ends(records, ends);
    if records.len() == 0 {
        assert(head + tail =~= tail);
        assert(items_of(rules, nonblank(records), n) =~= Seq::<Item>::empty());
        lemma_before(Seq::empty(), Seq::empty(), read(rules, tail, line, n));
    } else {
        let raw = records[0];
        let rs = records.drop_first();
        let es = ends.drop_first();
        let next = line + csv::newlines(raw + ends[0]);
        let end = next + csv::newlines(csv::with_ends(rs, es));
        let more = nonblank(rs);
        lemma_loaded_first(rules, records, ends, tail, line, n);
        if raw.len() == 0 {
            lemma_loaded_fine(rules, rs, es, tail, next, n);
            assert(nonblank(records) == more);
        } else {
            lemma_loaded_fine(rules, rs, es, tail, next, n + 1);
            let x = Item { key: key_of(rules, raw), seq: n as u64, raw };
            assert(nonblank(records) == seq![raw] + more);
            lemma_items_front(rules, raw, more, n);
            lemma_before(
                seq![x],
                items_of(rules, more, n + 1),
                read(rules, tail, end, n + 1 + more.len()),
            );
            assert((seq![raw] + more).len() == 1 + more.len());
        }
    }
}

proof fn lemma_loaded_lines(
    rules: Rules,
    records: Seq<Seq<u8>>,
    ends: Seq<Seq<u8>>,
    tail: Seq<u8>,
    line: int,
    n: nat,
)
    requires
        are_lines(rules.format, rules.delim, records, ends),
        have_keys(rules, records),
    ensures
        ({
            let head = csv::with_ends(records, ends);
            let some = nonblank(records);
            read(rules, head + tail, line, n) == before(
                items_of(rules, some, n),
                read(rules, tail, line + csv::newlines(head), n + some.len()),
            )
        }),
{
    reveal(fine);
    lemma_loaded_fine(rules, records, ends, tail, line, n);
}

proof fn lemma_nothing_loaded(rules: Rules, line: int, n: nat)
    ensures
        read(rules, Seq::empty(), line, n) == Ok::<Seq<Item>, Seq<char>>(Seq::empty()),
{
    reveal(read);
    csv::lemma_record_end(Seq::empty(), 0, rules.delim);
    assert(csv::record_end(Seq::empty(), 0, rules.delim) == 0);
    assert(csv::state_after(Seq::empty(), rules.delim) == csv::FieldState::Start);
}

/// No record of the input is lost, none is made up and none is changed: the
/// items loaded from records that have keys are these records, in their
/// order, without the blank ones, each with its own bytes, its own key and
/// its place among them.
pub proof fn law_every_record_is_loaded(
    rules: Rules,
    records: Seq<Seq<u8>>,
    ends: Seq<Seq<u8>>,
    line: int,
)
    requires
        are_lines(rules.format, rules.delim, records, ends),
        have_keys(rules, records),
    ensures
        ({
            let r = sorter::loaded(rules, csv::with_ends(records, ends), line, 0);
            let some = nonblank(records);
            &&& r is Ok
            &&& r->Ok_0.len() == some.len()
            &&& forall|i: int|
                0 <= i < some.len() ==> {
                    &&& (#[trigger] r->Ok_0[i]).raw == some[i]
                    &&& r->Ok_0[i].key == key_of(rules, some[i])
                    &&& r->Ok_0[i].seq == i as u64
                }
        }),
{
    let s = csv::with_ends(records, ends);
    lemma_loaded_lines(rules, records, ends, Seq::empty(), line, 0);
    assert(s + Seq::<u8>::empty() =~= s);
    lemma_nothing_loaded(rules, line + csv::newlines(s), nonblank(records).len());
    let items = items_of(rules, nonblank(records), 0);
    assert(items + Seq::<Item>::empty() =~= items);
    reveal(read);
}

/// A last record without a line end is a record like the others.
pub proof fn law_last_record_needs_no_end(
    rules: Rules,
    records: Seq<Seq<u8>>,
    ends: Seq<Seq<u8>>,
    raw: Seq<u8>,
    line: int,
)
    requires
        are_lines(rules.format, rules.delim, records, ends),
        have_keys(rules, records),
        is_line(rules.format, rules.delim, raw, seq![0x0Au8]),
        raw.len() > 0,
        extract::record_key(rules, raw) is Ok,
    ensures
        sorter::loaded(rules, csv::with_ends(records, ends) + raw, line, 0) == sorter::loaded(
            rules,
            csv::with_ends(records, ends) + (raw + seq![0x0Au8]),
            line,
            0,
        ),
{
    let head = csv::with_ends(records, ends);
    let nl = seq![0x0Au8];
    lemma_loaded_lines(rules, records, ends, raw, line, 0);
    lemma_loaded_lines(rules, records, ends, raw + nl, line, 0);
    let at = line + csv::newlines(head);
    let n = nonblank(records).len();
    assert(raw + nl =~= raw + nl + Seq::<u8>::empty());
    lemma_loaded_step(rules, raw, nl, Seq::empty(), at, n);
    lemma_nothing_loaded(rules, at + csv::newlines(raw + nl), n + 1);
    lemma_loaded_last(rules, raw, at, n);
    reveal(read);
}

proof fn lemma_loaded_last(rules: Rules, raw: Seq<u8>, line: int, n: nat)
    requires
        is_line(rules.format, rules.delim, raw, seq![0x0Au8]),
        raw.len() > 0,
        extract::record_key(rules, raw) is Ok,
    ensures
        read(rules, raw, line, n) == Ok::<Seq<Item>, Seq<char>>(
            seq![Item { key: key_of(rules, raw), seq: n as u64, raw }] + Seq::<Item>::empty(),
        ),
{
    lemma_step_last(rules.format, rules.delim, raw, line);
    let next = sorter::record_step(rules.format, raw, rules.delim, line)->next_line;
    lemma_nothing_loaded(rules, next, n + 1);
    reveal(read);
    reveal(key_of);
}

proof fn lemma_step_last(format: Format, delim: u8, raw: Seq<u8>, line: int)
    requires
        is_line(format, delim, raw, seq![0x0Au8]),
        raw.len() > 0,
    ensures
        ({
            let step = sorter::record_step(format, raw, delim, line);
            step is Record && step->bytes == raw && step->rest == Seq::<u8>::empty()
        }),
{
    match format {
        Format::Csv => {
            csv::law_last_record_reads_back(raw, delim, line);
        },
        Format::Jsonl => {
            sorter::lemma_line_end(raw, 0);
            let i = sorter::line_end(raw, 0);
            if i < raw.len() {
                assert(raw[i] == 0x0A);
                assert(raw.contains(0x0Au8));
            }
        },
    }
}

/// The first record that has no key is what is reported: where it stands,
/// and what is wrong with it. What follows it does not matter.
pub proof fn law_first_bad_record_is_reported(
    rules: Rules,
    records: Seq<Seq<u8>>,
    ends: Seq<Seq<u8>>,
    raw: Seq<u8>,
    end: Seq<u8>,
    tail: Seq<u8>,
    first: nat,
)
    requires
        are_lines(rules.format, rules.delim, records, ends),
        have_keys(rules, records),
        is_line(rules.format, rules.delim, raw, end),
        raw.len() > 0,
        extract::record_key(rules, raw) is Err,
    ensures
        ({
            let head = csv::with_ends(records, ends);
            let why = extract::record_key(rules, raw)->Err_0;
            let record = text::decimal_text(nonblank(records).len() + 1);
            let line = text::decimal_text(first + feeds(head));
            sorter::loaded(rules, head + (raw + end + tail), first as int, 0) == Err::<
                Seq<Item>,
                Seq<char>,
            >(
                match rules.format {
                    Format::Csv => "record "@ + record + " (line "@ + line + ")"@ + ": "@ + why,
                    Format::Jsonl => "line "@ + line + ": "@ + why,
                },
            )
        }),
{
    let head = csv::with_ends(records, ends);
    let s = raw + end + tail;
    lemma_loaded_lines(rules, records, ends, s, first as int, 0);
    lemma_feeds(head);
    reveal(read);
    lemma_step_line(rules.format, rules.delim, raw, end, tail, first as int + csv::newlines(head));
}

// ---------------------------------------------------------------------------
// Where the records begin

/// Under a header the first record is the header: it is none of the records
/// that are sorted, and each key is the column that its selector means in it.
pub proof fn law_header_is_the_first_record(cfg: Config, h: Seq<u8>, end: Seq<u8>, rest: Seq<u8>)
    requires
        cfg.format == Format::Csv,
        cfg.has_header,
        is_line(Format::Csv, cfg.delim, h, end),
    ensures
        ({
            let r = sorter::started(cfg, h + end + rest);
            let keys = keyspec::keys(cfg.specs@);
            let names = csv::fields(h, cfg.delim);
            &&& r is Ok <==> forall|i: int|
                0 <= i < keys.len() ==> keyspec::column((#[trigger] keys[i]).field, names) is Ok
            &&& r matches Ok(start) ==> {
                &&& start.header == Some(h)
                &&& start.rest == rest
                &&& start.line == 1 + feeds(h + end)
                &&& is_rules(start.rules, cfg)
                &&& start.rules.cols.len() == keys.len()
                &&& forall|i: int|
                    0 <= i < keys.len() ==> keyspec::column((#[trigger] keys[i]).field, names)
                        == Ok::<ColRef, Seq<char>>(start.rules.cols[i])
            }
        }),
{
    let keys = keyspec::keys(cfg.specs@);
    let names = csv::fields(h, cfg.delim);
    lemma_step_line(Format::Csv, cfg.delim, h, end, rest, 1);
    lemma_feeds(h + end);
    lemma_columns(keys, |field: Seq<char>| keyspec::column(field, names), keys.len());
    let which = |field: Seq<char>| keyspec::column(field, names);
    assert(forall|f: Seq<char>| #[trigger] which(f) == keyspec::column(f, names));
}

/// Whether the rules are what the configuration says of keys and records.
pub open spec fn is_rules(rules: Rules, cfg: Config) -> bool {
    &&& rules.format == cfg.format
    &&& rules.keys == keyspec::keys(cfg.specs@)
    &&& rules.delim == cfg.delim
    &&& rules.missing == cfg.missing
    &&& rules.lenient == cfg.lenient
    &&& rules.reverse == cfg.reverse
}

proof fn lemma_columns(
    keys: Seq<Key>,
    which: spec_fn(Seq<char>) -> Result<ColRef, Seq<char>>,
    n: nat,
)
    requires
        n <= keys.len(),
    ensures
        extract::columns(keys, which, n) is Ok <==> forall|i: int|
            0 <= i < n ==> which((#[trigger] keys[i]).field) is Ok,
        extract::columns(keys, which, n) matches Ok(cols) ==> cols.len() == n && forall|i: int|
            0 <= i < n ==> which((#[trigger] keys[i]).field) == Ok::<ColRef, Seq<char>>(cols[i]),
    decreases n,
{
    if n > 0 {
        lemma_columns(keys, which, (n - 1) as nat);
        let k = keys[n - 1];
    }
}

/// Without a header every record is one that is sorted, and the keys of CSV
/// are column numbers.
pub proof fn law_without_header_all_is_sorted(cfg: Config, s: Seq<u8>)
    requires
        cfg.format == Format::Jsonl || !cfg.has_header,
    ensures
        ({
            let r = sorter::started(cfg, s);
            let keys = keyspec::keys(cfg.specs@);
            &&& cfg.format == Format::Jsonl ==> r is Ok
            &&& cfg.format == Format::Csv ==> (r is Ok <==> forall|i: int|
                0 <= i < keys.len() ==> keyspec::column_number((#[trigger] keys[i]).field) is Ok)
            &&& r matches Ok(start) ==> {
                &&& start.header is None
                &&& start.rest == s
                &&& start.line == 1
                &&& is_rules(start.rules, cfg)
                &&& cfg.format == Format::Csv ==> start.rules.cols.len() == keys.len()
                    && forall|i: int|
                    0 <= i < keys.len() ==> keyspec::column_number((#[trigger] keys[i]).field)
                        == Ok::<ColRef, Seq<char>>(start.rules.cols[i])
            }
        }),
{
    let keys = keyspec::keys(cfg.specs@);
    let which = |field: Seq<char>| keyspec::column_number(field);
    lemma_columns(keys, which, keys.len());
    assert(forall|f: Seq<char>| #[trigger] which(f) == keyspec::column_number(f));
}

// ---------------------------------------------------------------------------
// What is written

/// Records with a line feed behind each.
pub open spec fn written(raws: Seq<Seq<u8>>) -> Seq<u8>
    decreases raws.len(),
{
    if raws.len() == 0 {
        Seq::empty()
    } else {
        raws[0] + seq![0x0Au8] + written(raws.drop_first())
    }
}

/// The records at the places `p`.
pub open spec fn picked(raws: Seq<Seq<u8>>, p: Seq<int>) -> Seq<Seq<u8>> {
    Seq::new(p.len(), |i: int| raws[p[i]])
}

/// Places of records, none of them twice.
pub open spec fn are_places(p: Seq<int>, n: nat) -> bool {
    &&& forall|i: int| 0 <= i < p.len() ==> 0 <= #[trigger] p[i] < n
    &&& forall|i: int, j: int| 0 <= i < j < p.len() ==> #[trigger] p[i] != #[trigger] p[j]
}

/// Every record once, by ascending key, and where keys are equal in the order
/// of the input.
pub open spec fn is_stable_order(rules: Rules, raws: Seq<Seq<u8>>, p: Seq<int>) -> bool {
    &&& p.len() == raws.len()
    &&& are_places(p, raws.len())
    &&& forall|i: int, j: int|
        0 <= i < j < p.len() ==> {
            let a = key_of(rules, raws[#[trigger] p[i]]);
            let b = key_of(rules, raws[#[trigger] p[j]]);
            order::bytes_lt(a, b) || (a == b && p[i] < p[j])
        }
}

/// The first record of each key, by ascending key.
pub open spec fn is_first_of_each(rules: Rules, raws: Seq<Seq<u8>>, p: Seq<int>) -> bool {
    &&& are_places(p, raws.len())
    &&& forall|i: int, j: int|
        0 <= i < j < p.len() ==> order::bytes_lt(
            key_of(rules, raws[#[trigger] p[i]]),
            key_of(rules, raws[#[trigger] p[j]]),
        )
    &&& forall|k: int| 0 <= k < raws.len() ==> #[trigger] stands_for(rules, raws, p, k)
}

/// Whether the record at `k`, or one before it with the same key, is among
/// those at the places `p`.
pub open spec fn stands_for(rules: Rules, raws: Seq<Seq<u8>>, p: Seq<int>, k: int) -> bool {
    exists|i: int|
        {
            &&& 0 <= i < p.len()
            &&& #[trigger] p[i] <= k
            &&& key_of(rules, raws[p[i]]) == key_of(rules, raws[k])
        }
}

/// The bytes of the records.
pub open spec fn total_bytes(raws: Seq<Seq<u8>>) -> nat
    decreases raws.len(),
{
    if raws.len() == 0 {
        0
    } else {
        raws[0].len() + total_bytes(raws.drop_first())
    }
}

proof fn lemma_item_places(
    rules: Rules,
    raws: Seq<Seq<u8>>,
    out: Seq<Item>,
) -> (p: Seq<int>)
    requires
        raws.len() <= u64::MAX,
        forall|x: Item| #[trigger] out.contains(x) ==> items_of(rules, raws, 0).contains(x),
    ensures
        p.len() == out.len(),
        forall|i: int|
            0 <= i < p.len() ==> {
                &&& 0 <= #[trigger] p[i] < raws.len()
                &&& out[i].raw == raws[p[i]]
                &&& out[i].key == key_of(rules, raws[p[i]])
                &&& out[i].seq == p[i]
            },
        sorter::lines(out) == written(picked(raws, p)),
    decreases out.len(),
{
    let items = items_of(rules, raws, 0);
    if out.len() == 0 {
        let p = Seq::<int>::empty();
        assert(picked(raws, p) =~= Seq::<Seq<u8>>::empty());
        p
    } else {
        let rest = out.drop_first();
        assert forall|x: Item| #[trigger] rest.contains(x) implies items.contains(x) by {
            let i = rest.index_of(x);
            assert(out[i + 1] == x);
            assert(out.contains(x));
        }
        let q = lemma_item_places(rules, raws, rest);
        assert(out.contains(out[0]));
        let k = items.index_of(out[0]);
        assert(items[k] == out[0]);
        let p = seq![k] + q;
        assert forall|i: int| 0 <= i < p.len() implies {
            &&& 0 <= #[trigger] p[i] < raws.len()
            &&& out[i].raw == raws[p[i]]
            &&& out[i].key == key_of(rules, raws[p[i]])
            &&& out[i].seq == p[i]
        } by {
            if i > 0 {
                assert(p[i] == q[i - 1]);
                assert(rest[i - 1] == out[i]);
            }
        }
        guarantees::lemma_lines_front(out);
        assert(picked(raws, p).drop_first() =~= picked(raws, q));
        assert(picked(raws, p)[0] == raws[k]);
        p
    }
}

proof fn lemma_items_distinct(rules: Rules, raws: Seq<Seq<u8>>)
    requires
        raws.len() <= u64::MAX,
    ensures
        arrange::distinct(items_of(rules, raws, 0)),
{
}

/// Sorting records puts them all in stable order, or with `unique` the first
/// of each key.
proof fn lemma_order_of(rules: Rules, raws: Seq<Seq<u8>>, unique: bool) -> (p: Seq<int>)
    requires
        raws.len() <= u64::MAX,
    ensures
        ({
            let out = sorter::kept(arrange::arranged(items_of(rules, raws, 0)), unique);
            &&& p.len() == out.len()
            &&& sorter::lines(out) == written(picked(raws, p))
            &&& unique ==> is_first_of_each(rules, raws, p)
            &&& !unique ==> is_stable_order(rules, raws, p)
        }),
{
    let items = items_of(rules, raws, 0);
    let list = arrange::arranged(items);
    let out = sorter::kept(list, unique);
    lemma_items_distinct(rules, raws);
    guarantees::law_sort_is_stable(items);
    guarantees::lemma_arranged_distinct(items);
    guarantees::lemma_kept(items, unique);
    items.to_multiset_ensures();
    list.to_multiset_ensures();
    assert forall|x: Item| #[trigger] out.contains(x) implies items.contains(x) by {}
    let p = lemma_item_places(rules, raws, out);
    if unique {
        guarantees::law_unique_keeps_the_first(items);
        assert forall|i: int, j: int| 0 <= i < j < p.len() implies order::bytes_lt(
            key_of(rules, raws[#[trigger] p[i]]),
            key_of(rules, raws[#[trigger] p[j]]),
        ) by {
            assert(order::bytes_lt(out[i].key, out[j].key));
        }
        assert forall|i: int, j: int| 0 <= i < j < p.len() implies #[trigger] p[i]
            != #[trigger] p[j] by {
            assert(order::bytes_lt(out[i].key, out[j].key));
            order::lemma_irreflexive(out[i].key);
        }
        assert forall|k: int| 0 <= k < raws.len() implies #[trigger] stands_for(
            rules,
            raws,
            p,
            k,
        ) by {
            let x = items[k];
            assert(items.contains(x));
            assert(guarantees::represented(out, x));
            let i = choose|i: int|
                0 <= i < out.len() && (#[trigger] out[i]).key == x.key && out[i].seq <= x.seq;
            assert(p[i] <= k);
        }
        assert(is_first_of_each(rules, raws, p));
    } else {
        assert(list.len() == items.len());
        assert forall|i: int, j: int| 0 <= i < j < p.len() implies {
            let a = key_of(rules, raws[#[trigger] p[i]]);
            let b = key_of(rules, raws[#[trigger] p[j]]);
            order::bytes_lt(a, b) || (a == b && p[i] < p[j])
        } by {
            assert(order::bytes_le(list[i].key, list[j].key));
        }
        assert forall|i: int, j: int| 0 <= i < j < p.len() implies #[trigger] p[i]
            != #[trigger] p[j] by {
            assert(list[i].seq != list[j].seq);
        }
        assert(p.len() == raws.len());
        assert(is_stable_order(rules, raws, p));
    }
    p
}

proof fn lemma_bytes_of(rules: Rules, raws: Seq<Seq<u8>>, n: nat)
    ensures
        sorter::raw_bytes(items_of(rules, raws, n)) == total_bytes(raws),
    decreases raws.len(),
{
    if raws.len() == 0 {
    } else {
        let items = items_of(rules, raws, n);
        let init = raws.drop_last();
        assert(items.drop_last() =~= items_of(rules, init, n));
        lemma_bytes_of(rules, init, n);
        lemma_total_back(raws);
    }
}

proof fn lemma_total_back(raws: Seq<Seq<u8>>)
    requires
        raws.len() > 0,
    ensures
        total_bytes(raws) == total_bytes(raws.drop_last()) + raws.last().len(),
    decreases raws.len(),
{
    if raws.len() > 1 {
        lemma_total_back(raws.drop_first());
        assert(raws.drop_first().drop_last() =~= raws.drop_last().drop_first());
    } else {
        assert(raws.drop_first() =~= Seq::<Seq<u8>>::empty());
        assert(raws.drop_last() =~= Seq::<Seq<u8>>::empty());
    }
}

proof fn lemma_nonblank_bound(records: Seq<Seq<u8>>, ends: Seq<Seq<u8>>)
    requires
        records.len() == ends.len(),
    ensures
        nonblank(records).len() <= csv::with_ends(records, ends).len(),
    decreases records.len(),
{
    if records.len() > 0 {
        lemma_nonblank_bound(records.drop_first(), ends.drop_first());
    }
}

/// What a sort that succeeds has written and counted.
proof fn lemma_sorted(
    cfg: Config,
    s: Seq<u8>,
    items: Seq<Item>,
    stats: Stats,
    before: Seq<u8>,
    after: Seq<u8>,
    steady: (bool, bool, bool),
)
    requires
        sorter::started(cfg, s) is Ok,
        ({
            let start = sorter::started(cfg, s)->Ok_0;
            read(start.rules, start.rest, start.line, 0) == Ok::<Seq<Item>, Seq<char>>(items)
        }),
        sorter::is_sorted(
            Ok(stats),
            cfg,
            s,
            before,
            after,
            steady.0,
            steady.1,
            steady.2,
        ),
    ensures
        ({
            let start = sorter::started(cfg, s)->Ok_0;
            let out = sorter::kept(arrange::arranged(items), cfg.unique);
            &&& after == before + (sorter::header_line(start.header) + sorter::lines(out))
            &&& stats.records_in == items.len()
            &&& stats.bytes_in == sorter::raw_bytes(items)
            &&& stats.records_out == sorter::header_count(start.header) + out.len()
            &&& stats.runs_spilled == sorter::run_count(items, cfg.mem_limit)
            &&& stats.merge_passes == sorter::merge_count(
                sorter::run_count(items, cfg.mem_limit),
                cfg.fan_in,
            )
        }),
{
    reveal(read);
}

/// A sort that succeeds writes the header, if there is one, on top, and below
/// it every record of the input that is not blank, byte for byte, once each,
/// by ascending key, and where keys are equal in the order of the input. With
/// `unique` it writes of the records with one key the first and no other. It
/// counts the records it read, their bytes, and the lines it wrote.
pub proof fn law_sort_writes_every_record_in_order(
    cfg: Config,
    s: Seq<u8>,
    records: Seq<Seq<u8>>,
    ends: Seq<Seq<u8>>,
    stats: Stats,
    before: Seq<u8>,
    after: Seq<u8>,
    steady: (bool, bool, bool),
)
    requires
        s.len() < u64::MAX,
        sorter::started(cfg, s) is Ok,
        sorter::started(cfg, s)->Ok_0.rest == csv::with_ends(records, ends),
        sorter::started(cfg, s)->Ok_0.rules.format == cfg.format,
        sorter::started(cfg, s)->Ok_0.rules.delim == cfg.delim,
        are_lines(cfg.format, cfg.delim, records, ends),
        have_keys(sorter::started(cfg, s)->Ok_0.rules, records),
        sorter::is_sorted(
            Ok(stats),
            cfg,
            s,
            before,
            after,
            steady.0,
            steady.1,
            steady.2,
        ),
    ensures
        ({
            let start = sorter::started(cfg, s)->Ok_0;
            let raws = nonblank(records);
            let top = match start.header {
                Some(h) => h + seq![0x0Au8],
                None => Seq::empty(),
            };
            &&& stats.records_in == raws.len()
            &&& stats.bytes_in == total_bytes(raws)
            &&& stats.runs_spilled == sorter::run_count(
                items_of(start.rules, raws, 0),
                cfg.mem_limit,
            )
            &&& stats.merge_passes == sorter::merge_count(stats.runs_spilled as nat, cfg.fan_in)
            &&& exists|p: Seq<int>|
                {
                    &&& after == before + top + #[trigger] written(picked(raws, p))
                    &&& stats.records_out == p.len() + (if start.header is Some {
                        1int
                    } else {
                        0
                    })
                    &&& !cfg.unique ==> is_stable_order(start.rules, raws, p)
                    &&& cfg.unique ==> is_first_of_each(start.rules, raws, p)
                }
        }),
{
    let start = sorter::started(cfg, s)->Ok_0;
    let raws = nonblank(records);
    let rules = start.rules;
    lemma_loaded_lines(rules, records, ends, Seq::empty(), start.line, 0);
    let body = csv::with_ends(records, ends);
    assert(body + Seq::<u8>::empty() =~= body);
    lemma_nothing_loaded(rules, start.line + csv::newlines(body), raws.len());
    let items = items_of(rules, raws, 0);
    assert(items + Seq::<Item>::empty() =~= items);
    lemma_sorted(cfg, s, items, stats, before, after, steady);
    lemma_nonblank_bound(records, ends);
    sorter::lemma_start(cfg, s);
    lemma_bytes_of(rules, raws, 0);
    let p = lemma_order_of(rules, raws, cfg.unique);
    let top = match start.header {
        Some(h) => h + seq![0x0Au8],
        None => Seq::empty(),
    };
    assert(after =~= before + top + written(picked(raws, p)));
}

// ---------------------------------------------------------------------------
// Checking

/// Whether each record may stand behind the one before it: not before it, and
/// where keys have to differ not with its key.
pub open spec fn may_follow(rules: Rules, unique: bool, a: Seq<u8>, b: Seq<u8>) -> bool {
    let k = key_of(rules, a);
    let l = key_of(rules, b);
    !order::bytes_lt(l, k) && !(unique && l == k)
}

/// Whether all the records stand so.
pub open spec fn all_follow(rules: Rules, unique: bool, raws: Seq<Seq<u8>>) -> bool {
    forall|i: int|
        0 < i < raws.len() ==> may_follow(rules, unique, raws[i - 1], #[trigger] raws[i])
}

/// What is checked.
#[verifier::opaque]
spec fn inspect(
    rules: Rules,
    unique: bool,
    s: Seq<u8>,
    line: int,
    n: nat,
    prev: Option<Seq<u8>>,
) -> Result<CheckOutcome, Seq<char>> {
    sorter::checked(rules, unique, s, line, n, prev)
}

/// The key that the last of the records has.
spec fn last_key(rules: Rules, raws: Seq<Seq<u8>>, prev: Option<Seq<u8>>) -> Option<Seq<u8>> {
    if raws.len() == 0 {
        prev
    } else {
        Some(key_of(rules, raws.last()))
    }
}

/// Whether the first of the records may stand behind one with the key `prev`.
spec fn starts_well(
    rules: Rules,
    unique: bool,
    raws: Seq<Seq<u8>>,
    prev: Option<Seq<u8>>,
) -> bool {
    prev is Some && raws.len() > 0 ==> {
        let k = key_of(rules, raws[0]);
        !order::bytes_lt(k, prev->Some_0) && !(unique && k == prev->Some_0)
    }
}

proof fn lemma_inspect_first(
    rules: Rules,
    unique: bool,
    records: Seq<Seq<u8>>,
    ends: Seq<Seq<u8>>,
    tail: Seq<u8>,
    line: int,
    n: nat,
    prev: Option<Seq<u8>>,
)
    requires
        records.len() > 0,
        fine(rules, records, ends),
        starts_well(rules, unique, nonblank(records), prev),
    ensures
        fine(rules, records.drop_first(), ends.drop_first()),
        ({
            let raw = records[0];
            let rest = csv::with_ends(records.drop_first(), ends.drop_first()) + tail;
            let next = line + csv::newlines(raw + ends[0]);
            inspect(rules, unique, csv::with_ends(records, ends) + tail, line, n, prev) == (
            if raw.len() == 0 {
                inspect(rules, unique, rest, next, n, prev)
            } else {
                inspect(rules, unique, rest, next, n + 1, Some(key_of(rules, raw)))
            })
        }),
        csv::newlines(csv::with_ends(records, ends)) == csv::newlines(records[0] + ends[0])
            + csv::newlines(csv::with_ends(records.drop_first(), ends.drop_first())),
{
    reveal(fine);
    let raw = records[0];
    let sub = csv::with_ends(records.drop_first(), ends.drop_first());
    assert(is_line(rules.format, rules.delim, records[0], ends[0]));
    assert(raw.len() > 0 ==> extract::record_key(rules, records[0]) is Ok);
    lemma_lines_tail(rules.format, rules.delim, records, ends);
    lemma_keys_tail(rules, records);
    lemma_ends_front(records, ends, tail);
    lemma_inspect_step(rules, unique, raw, ends[0], sub + tail, line, n, prev);
}

proof fn lemma_inspect_step(
    rules: Rules,
    unique: bool,
    raw: Seq<u8>,
    end: Seq<u8>,
    rest: Seq<u8>,
    line: int,
    n: nat,
    prev: Option<Seq<u8>>,
)
    requires
        is_line(rules.format, rules.delim, raw, end),
        raw.len() > 0 ==> extract::record_key(rules, raw) is Ok,
    ensures
        ({
            let next = line + csv::newlines(raw + end);
            let k = key_of(rules, raw);
            inspect(rules, unique, raw + end + rest, line, n, prev) == (if raw.len() == 0 {
                inspect(rules, unique, rest, next, n, prev)
            } else if prev is Some && order::bytes_lt(k, prev->Some_0) {
                Ok(CheckOutcome::Disorder { record: (n + 1) as u64, line: line as u64 })
            } else if prev is Some && unique && prev->Some_0 == k {
                Ok(CheckOutcome::Duplicate { record: (n + 1) as u64, line: line as u64 })
            } else {
                inspect(rules, unique, rest, next, n + 1, Some(k))
            })
        }),
{
    reveal(inspect);
    reveal(key_of);
    lemma_step_line(rules.format, rules.delim, raw, end, rest, line);
    sorter::lemma_step_shorter(rules.format, raw + end + rest, rules.delim, line);
}

proof fn lemma_inspect_fine(
    rules: Rules,
    unique: bool,
    records: Seq<Seq<u8>>,
    ends: Seq<Seq<u8>>,
    tail: Seq<u8>,
    line: int,
    n: nat,
    prev: Option<Seq<u8>>,
)
    requires
        fine(rules, records, ends),
        all_follow(rules, unique, nonblank(records)),
        starts_well(rules, unique, nonblank(records), prev),
    ensures
        ({
            let head = csv::with_ends(records, ends);
            let some = nonblank(records);
            inspect(rules, unique, head + tail, line, n, prev) == inspect(
                rules,
                unique,
                tail,
                line + csv::newlines(head),
                n + some.len(),
                last_key(rules, some, prev),
            )
        }),
    decreases records.len(),
{
    let head = csv::with_ends(records, ends);
    if records.len() == 0 {
        assert(head + tail =~= tail);
    } else {
        let raw = records[0];
        let rs = records.drop_first();
        let es = ends.drop_first();
        let next = line + csv::newlines(raw + ends[0]);
        let more = nonblank(rs);
        let some = nonblank(records);
        lemma_inspect_first(rules, unique, records, ends, tail, line, n, prev);
        if raw.len() == 0 {
            assert(some == more);
            lemma_inspect_fine(rules, unique, rs, es, tail, next, n, prev);
        } else {
            assert(some == seq![raw] + more);
            assert forall|i: int| 0 < i < more.len() implies may_follow(
                rules,
                unique,
                more[i - 1],
                #[trigger] more[i],
            ) by {
                assert(may_follow(rules, unique, some[i], some[i + 1]));
            }
            if more.len() > 0 {
                assert(may_follow(rules, unique, some[0], some[1]));
                assert(some[1] == more[0] && some.last() == more.last());
            }
            lemma_inspect_fine(rules, unique, rs, es, tail, next, n + 1, Some(key_of(rules, raw)));
        }
    }
}

/// A check passes over records that are in order, and reports the first that
/// is not: one that comes before the record it follows, or with `unique` one
/// that has its key. It tells which record that is, counted from one without
/// blank ones, and the line it begins on.
pub proof fn law_check_reports_the_first_fault(
    rules: Rules,
    unique: bool,
    records: Seq<Seq<u8>>,
    ends: Seq<Seq<u8>>,
    raw: Seq<u8>,
    end: Seq<u8>,
    tail: Seq<u8>,
    first: nat,
)
    requires
        are_lines(rules.format, rules.delim, records, ends),
        have_keys(rules, records),
        all_follow(rules, unique, nonblank(records)),
        is_line(rules.format, rules.delim, raw, end),
        raw.len() > 0,
        extract::record_key(rules, raw) is Ok,
        nonblank(records).len() > 0,
    ensures
        ({
            let head = csv::with_ends(records, ends);
            let r = sorter::checked(rules, unique, head + (raw + end + tail), first as int, 0, None);
            let last = key_of(rules, nonblank(records).last());
            let record = (nonblank(records).len() + 1) as u64;
            let line = (first + feeds(head)) as u64;
            &&& order::bytes_lt(key_of(rules, raw), last) ==> r == Ok::<CheckOutcome, Seq<char>>(
                CheckOutcome::Disorder { record, line },
            )
            &&& unique && key_of(rules, raw) == last ==> r == Ok::<CheckOutcome, Seq<char>>(
                CheckOutcome::Duplicate { record, line },
            )
            &&& sorter::checked(rules, unique, head, first as int, 0, None) == Ok::<
                CheckOutcome,
                Seq<char>,
            >(CheckOutcome::Sorted)
        }),
{
    let head = csv::with_ends(records, ends);
    let s = raw + end + tail;
    let none = Seq::<u8>::empty();
    lemma_feeds(head);
    assert(fine(rules, records, ends)) by {
        reveal(fine);
    }
    lemma_inspect_fine(rules, unique, records, ends, s, first as int, 0, None);
    lemma_inspect_fine(rules, unique, records, ends, none, first as int, 0, None);
    assert(head + none =~= head);
    lemma_inspect_step(
        rules,
        unique,
        raw,
        end,
        tail,
        first + csv::newlines(head) as int,
        nonblank(records).len(),
        last_key(rules, nonblank(records), None),
    );
    order::lemma_irreflexive(key_of(rules, raw));
    reveal(inspect);
    csv::lemma_record_end(none, 0, rules.delim);
}

// ---------------------------------------------------------------------------
// Failures and counters

/// Where nothing fails but the input is bad, a sort says what is wrong and
/// writes no record, and no header either where that is what is wrong. Where
/// the input is good, it succeeds.
pub proof fn law_bad_input_is_refused(
    cfg: Config,
    s: Seq<u8>,
    r: Result<Stats, String>,
    before: Seq<u8>,
    after: Seq<u8>,
)
    requires
        sorter::is_sorted(r, cfg, s, before, after, true, true, true),
    ensures
        match sorter::started(cfg, s) {
            Err(why) => r is Err && r->Err_0@ == why && after == before,
            Ok(start) => match sorter::loaded(start.rules, start.rest, start.line, 0) {
                Err(why) => {
                    &&& r is Err && r->Err_0@ == why
                    &&& start.header matches Some(h) ==> after == before + (h + seq![0x0Au8])
                    &&& start.header is None ==> after == before
                },
                Ok(_) => r is Ok,
            },
        },
{
    assert(before + Seq::<u8>::empty() =~= before);
}

/// Lists one after the other.
pub open spec fn glued(lists: Seq<Seq<Item>>) -> Seq<Item>
    decreases lists.len(),
{
    if lists.len() == 0 {
        Seq::empty()
    } else {
        glued(lists.drop_last()) + lists.last()
    }
}

/// The runs are the records in the order of the input, cut where the memory
/// is full: none is left out and none is in two runs. A record takes its key,
/// its bytes and 64 bytes more.
pub proof fn law_runs_are_cut_from_the_input(items: Seq<Item>, limit: u64)
    ensures
        glued(sorter::cut(items, limit).0) + sorter::cut(items, limit).1 == items,
        items.len() > 0 ==> sorter::total_cost(items) == sorter::total_cost(items.drop_last())
            + items.last().key.len() + items.last().raw.len() + 64,
        sorter::total_cost(Seq::empty()) == 0,
        sorter::run_count(items, limit) == sorter::cut(items, limit).0.len() + (if sorter::cut(
            items,
            limit,
        ).0.len() > 0 && sorter::cut(items, limit).1.len() > 0 {
            1int
        } else {
            0
        }),
    decreases items.len(),
{
    if items.len() == 0 {
        assert(glued(sorter::cut(items, limit).0) + sorter::cut(items, limit).1 =~= items);
    } else {
        let init = items.drop_last();
        law_runs_are_cut_from_the_input(init, limit);
        let (full, open) = sorter::cut(init, limit);
        let next = open.push(items.last());
        assert(full.push(next).drop_last() =~= full);
        assert(glued(full) + next =~= (glued(full) + open).push(items.last()));
        assert((glued(full) + open).push(items.last()) =~= items);
        assert(glued(full.push(next)) + Seq::<Item>::empty() =~= glued(full) + next);
    }
}

/// Merges come to as few passes as it takes to bring `n` runs down to what
/// one merge can take, each pass merging as many as that into one; and then
/// the last merge. No runs take none.
pub proof fn law_passes_are_as_few_as_can_be(n: nat, fan_in: usize)
    requires
        fan_in >= 2,
    ensures
        n == 0 ==> sorter::merge_count(n, fan_in) == 0,
        n > 0 ==> {
            let p = sorter::merge_count(n, fan_in) - 1;
            &&& p >= 0
            &&& n - p * (fan_in - 1) <= fan_in
            &&& p > 0 ==> n - (p - 1) * (fan_in - 1) > fan_in
        },
{
    lemma_passes(n, fan_in as nat);
}

proof fn lemma_passes(n: nat, f: nat)
    requires
        f >= 2,
    ensures
        ({
            let p = merge::pass_count(n, f) as int;
            &&& n - p * (f - 1) <= f
            &&& p > 0 ==> n - (p - 1) * (f - 1) > f
        }),
    decreases n,
{
    let p = merge::pass_count(n, f) as int;
    if n > f {
        let m = (n - f + 1) as nat;
        lemma_passes(m, f);
        let q = merge::pass_count(m, f) as int;
        assert(p == q + 1);
        assert(p * (f - 1) == q * (f - 1) + (f - 1)) by (nonlinear_arith)
            requires
                p == q + 1,
        ;
        assert((p - 1) * (f - 1) == q * (f - 1)) by (nonlinear_arith)
            requires
                p == q + 1,
        ;
        if q > 0 {
            assert(q * (f - 1) == (q - 1) * (f - 1) + (f - 1)) by (nonlinear_arith);
        } else {
            assert(q * (f - 1) == 0) by (nonlinear_arith)
                requires
                    q == 0,
            ;
        }
    } else {
        assert(p * (f - 1) == 0) by (nonlinear_arith)
            requires
                p == 0,
        ;
    }
}

/// A check refuses a record that has no key as a sort does: it tells where
/// the record stands and what is wrong with it.
pub proof fn law_check_refuses_bad_records(
    rules: Rules,
    unique: bool,
    records: Seq<Seq<u8>>,
    ends: Seq<Seq<u8>>,
    raw: Seq<u8>,
    end: Seq<u8>,
    tail: Seq<u8>,
    first: nat,
)
    requires
        are_lines(rules.format, rules.delim, records, ends),
        have_keys(rules, records),
        all_follow(rules, unique, nonblank(records)),
        is_line(rules.format, rules.delim, raw, end),
        raw.len() > 0,
        extract::record_key(rules, raw) is Err,
    ensures
        ({
            let s = csv::with_ends(records, ends) + (raw + end + tail);
            let r = sorter::loaded(rules, s, first as int, 0);
            let q = sorter::checked(rules, unique, s, first as int, 0, None);
            q is Err && r is Err && q->Err_0 == r->Err_0
        }),
{
    let head = csv::with_ends(records, ends);
    let s = raw + end + tail;
    law_first_bad_record_is_reported(rules, records, ends, raw, end, tail, first);
    lemma_feeds(head);
    assert(fine(rules, records, ends)) by {
        reveal(fine);
    }
    lemma_inspect_fine(rules, unique, records, ends, s, first as int, 0, None);
    lemma_inspect_bad(
        rules,
        unique,
        raw,
        end,
        tail,
        first as int + csv::newlines(head),
        nonblank(records).len(),
        last_key(rules, nonblank(records), None),
    );
    reveal(inspect);
}

proof fn lemma_inspect_bad(
    rules: Rules,
    unique: bool,
    raw: Seq<u8>,
    end: Seq<u8>,
    rest: Seq<u8>,
    line: int,
    n: nat,
    prev: Option<Seq<u8>>,
)
    requires
        is_line(rules.format, rules.delim, raw, end),
        raw.len() > 0,
        extract::record_key(rules, raw) is Err,
    ensures
        inspect(rules, unique, raw + end + rest, line, n, prev) == Err::<CheckOutcome, Seq<char>>(
            sorter::location(rules.format, n + 1, line) + ": "@ + extract::record_key(
                rules,
                raw,
            )->Err_0,
        ),
{
    reveal(inspect);
    lemma_step_line(rules.format, rules.delim, raw, end, rest, line);
}

/// A check of an input begins where a sort of it does.
pub proof fn law_check_begins_like_a_sort(cfg: Config, s: Seq<u8>)
    ensures
        match sorter::started(cfg, s) {
            Ok(start) => sorter::check_result(cfg, s) == sorter::checked(
                start.rules,
                cfg.unique,
                start.rest,
                start.line,
                0,
                None,
            ),
            Err(why) => sorter::check_result(cfg, s) == Err::<CheckOutcome, Seq<char>>(why),
        },
{
}

/// A last line of JSON loses a carriage return at its end, with a line feed
/// behind it or without.
pub proof fn law_last_line_loses_its_return(raw: Seq<u8>, delim: u8, line: int)
    requires
        !raw.contains(0x0Au8),
    ensures
        ({
            let step = sorter::record_step(Format::Jsonl, raw.push(0x0Du8), delim, line);
            step is Record && step->bytes == raw && step->rest == Seq::<u8>::empty()
        }),
{
    let s = raw.push(0x0Du8);
    assert forall|k: int| 0 <= k < s.len() implies #[trigger] s[k] != 0x0A by {
        if k < raw.len() {
            assert(s[k] == raw[k]);
        }
    }
    sorter::lemma_line_end(s, 0);
    assert(s.drop_last() =~= raw);
}

/// A header may stand alone, without a line end; and an input with nothing in
/// it has no header and no records.
pub proof fn law_header_may_stand_alone(cfg: Config, h: Seq<u8>)
    requires
        cfg.format == Format::Csv,
        cfg.has_header,
        csv::complete(h, cfg.delim),
    ensures
        h.len() > 0 && sorter::started(cfg, h) is Ok ==> {
            let start = sorter::started(cfg, h)->Ok_0;
            start.header == Some(h) && start.rest == Seq::<u8>::empty()
        },
        h.len() == 0 ==> {
            let r = sorter::started(cfg, h);
            r is Ok && r->Ok_0.header is None && r->Ok_0.rest.len() == 0
        },
{
    if h.len() > 0 {
        csv::law_last_record_reads_back(h, cfg.delim, 1);
    } else {
        csv::lemma_record_end(h, 0, cfg.delim);
    }
}

} // verus!
