//! What the engine guarantees as a whole: a stable, verbatim sort whose
//! answer never depends on the spill plan, and a check that agrees with it.

use vstd::prelude::*;

use crate::arrange;
use crate::csv;
use crate::csv::Step;
use crate::extract;
use crate::extract::{Format, Rules};
use crate::keyspec;
use crate::order;
use crate::sorter;
use crate::sorter::{CheckOutcome, Config, Start, Stats};
use crate::spill;
use crate::spill::Item;

verus! {

/// Keys in ascending order, the same one perhaps several times.
pub open spec fn keys_rise(list: Seq<Item>) -> bool {
    forall|i: int, j: int|
        0 <= i < j < list.len() ==> order::bytes_le(
            (#[trigger] list[i]).key,
            (#[trigger] list[j]).key,
        )
}

/// Records with equal keys in input order.
pub open spec fn ties_rise(list: Seq<Item>) -> bool {
    forall|i: int, j: int|
        0 <= i < j < list.len() && (#[trigger] list[i]).key == (#[trigger] list[j]).key
            ==> list[i].seq < list[j].seq
}

/// Keys in ascending order, each of them once.
pub open spec fn keys_rise_strictly(list: Seq<Item>) -> bool {
    forall|i: int, j: int|
        0 <= i < j < list.len() ==> order::bytes_lt(
            (#[trigger] list[i]).key,
            (#[trigger] list[j]).key,
        )
}

/// Sorting loses no record and invents none, puts keys in ascending byte
/// order, and keeps records with equal keys in input order.
pub proof fn law_sort_is_stable(items: Seq<Item>)
    requires
        arrange::distinct(items),
    ensures
        ({
            let list = arrange::arranged(items);
            &&& list.to_multiset() == items.to_multiset()
            &&& keys_rise(list)
            &&& ties_rise(list)
        }),
{
    arrange::lemma_some_arrangement(items);
    let list = arrange::arranged(items);
    lemma_arranged_distinct(items);
    assert forall|i: int, j: int| 0 <= i < j < list.len() implies order::bytes_le(
        (#[trigger] list[i]).key,
        (#[trigger] list[j]).key,
    ) by {
        assert(!spill::item_before(list[j], list[i]));
        order::lemma_trichotomy(list[i].key, list[j].key);
    }
    assert forall|i: int, j: int|
        0 <= i < j < list.len() && (#[trigger] list[i]).key == (
        #[trigger] list[j]).key implies list[i].seq < list[j].seq by {
        assert(!spill::item_before(list[j], list[i]));
    }
}

/// Records in order have the different sequence numbers they came with.
pub proof fn lemma_arranged_distinct(items: Seq<Item>)
    requires
        arrange::distinct(items),
    ensures
        arrange::distinct(arrange::arranged(items)),
{
    arrange::lemma_some_arrangement(items);
    let list = arrange::arranged(items);
    arrange::lemma_distinct_told_apart(items);
    items.to_multiset_ensures();
    list.to_multiset_ensures();
    assert forall|i: int, j: int| 0 <= i < j < list.len() implies (#[trigger] list[i]).seq != (
    #[trigger] list[j]).seq by {
        if list[i].seq == list[j].seq {
            let x = list[i];
            let y = list[j];
            assert(list.contains(x) && list.contains(y));
            assert(items.to_multiset().contains(x) && items.to_multiset().contains(y));
            assert(x == y);
            lemma_twice(list, i, j);
            lemma_once(items, x);
        }
    }
}

/// An item at two places counts twice or more.
proof fn lemma_twice(list: Seq<Item>, i: int, j: int)
    requires
        0 <= i < j < list.len(),
        list[i] == list[j],
    ensures
        list.to_multiset().count(list[i]) >= 2,
{
    let x = list[i];
    let a = list.take(j);
    let b = list.skip(j);
    assert(list =~= a + b);
    vstd::seq_lib::lemma_multiset_commutative(a, b);
    a.to_multiset_ensures();
    b.to_multiset_ensures();
    assert(a[i] == x);
    assert(a.contains(x));
    assert(b[0] == x);
    assert(b.contains(x));
    assert(a.to_multiset().count(x) >= 1);
    assert(b.to_multiset().count(x) >= 1);
}

/// An item of records told apart counts once at most.
proof fn lemma_once(items: Seq<Item>, x: Item)
    requires
        arrange::distinct(items),
    ensures
        items.to_multiset().count(x) <= 1,
    decreases items.len(),
{
    items.to_multiset_ensures();
    if items.len() > 0 {
        let init = items.drop_last();
        init.to_multiset_ensures();
        assert(items =~= init.push(items.last()));
        assert(arrange::distinct(init)) by {
            assert forall|i: int, j: int| 0 <= i < j < init.len() implies (
            #[trigger] init[i]).seq != (#[trigger] init[j]).seq by {
                assert(items[i].seq != items[j].seq);
            }
        }
        lemma_once(init, x);
        if items.last() == x && init.to_multiset().count(x) >= 1 {
            assert(init.contains(x));
            let k = init.index_of(x);
            assert(items[k].seq != items[items.len() - 1].seq);
        }
    }
}

/// The buffer is bounded: what it holds between two records is below the
/// memory limit, and a run is spilled with the record that reaches it.
pub proof fn law_buffer_is_bounded(items: Seq<Item>, limit: u64)
    requires
        limit > 0,
    ensures
        sorter::total_cost(sorter::cut(items, limit).1) < limit,
        forall|i: int|
            0 <= i < sorter::cut(items, limit).0.len() ==> {
                let run = #[trigger] sorter::cut(items, limit).0[i];
                run.len() > 0 && sorter::total_cost(run.drop_last()) < limit
                    <= sorter::total_cost(run)
            },
    decreases items.len(),
{
    if items.len() > 0 {
        law_buffer_is_bounded(items.drop_last(), limit);
        let (full, open) = sorter::cut(items.drop_last(), limit);
        let next = open.push(items.last());
        assert(next.drop_last() =~= open);
    }
}

/// Two configurations that differ in their spill plan only.
pub open spec fn same_but_plan(a: Config, b: Config) -> bool {
    &&& a.format == b.format
    &&& keyspec::keys(a.specs@) == keyspec::keys(b.specs@)
    &&& a.delim == b.delim
    &&& a.has_header == b.has_header
    &&& a.missing == b.missing
    &&& a.lenient == b.lenient
    &&& a.unique == b.unique
    &&& a.reverse == b.reverse
}

/// The spill plan (`mem_limit`, `fan_in`) never changes the answer. Two sorts
/// of one input that succeed write the same bytes and count the same records,
/// whatever their plans are. Where one succeeds, only a stream or a store can
/// make the other fail. Where none of these fails, both write the same and
/// give the same error, if any.
pub proof fn law_plan_never_changes_the_output(
    a: Config,
    b: Config,
    s: Seq<u8>,
    before: Seq<u8>,
    ra: Result<Stats, String>,
    rb: Result<Stats, String>,
    after_a: Seq<u8>,
    after_b: Seq<u8>,
    steady_a: (bool, bool, bool),
    steady_b: (bool, bool, bool),
)
    requires
        same_but_plan(a, b),
        sorter::is_sorted(ra, a, s, before, after_a, steady_a.0, steady_a.1, steady_a.2),
        sorter::is_sorted(rb, b, s, before, after_b, steady_b.0, steady_b.1, steady_b.2),
    ensures
        ra is Ok && rb is Ok ==> {
            &&& after_a == after_b
            &&& ra->Ok_0.records_in == rb->Ok_0.records_in
            &&& ra->Ok_0.records_out == rb->Ok_0.records_out
            &&& ra->Ok_0.bytes_in == rb->Ok_0.bytes_in
        },
        ra is Ok && steady_b == (true, true, true) ==> rb is Ok,
        steady_a == (true, true, true) && steady_b == (true, true, true) ==> {
            &&& after_a == after_b
            &&& ra is Ok <==> rb is Ok
            &&& ra is Err ==> ra->Err_0@ == rb->Err_0@
        },
{
    assert(sorter::rules_of(a) == sorter::rules_of(b));
    assert(sorter::started(a, s) == sorter::started(b, s));
}

/// Whether a record with the key of `x` is in the list that is `x` or came
/// before it in the input.
pub open spec fn represented(list: Seq<Item>, x: Item) -> bool {
    exists|i: int| 0 <= i < list.len() && (#[trigger] list[i]).key == x.key && list[i].seq <= x.seq
}

/// `--unique` keeps, of the records with one key, the first by input order,
/// and writes the kept ones in strictly ascending order of their keys.
pub proof fn law_unique_keeps_the_first(items: Seq<Item>)
    requires
        arrange::distinct(items),
    ensures
        keys_rise_strictly(sorter::kept(arrange::arranged(items), true)),
        forall|x: Item|
            sorter::kept(arrange::arranged(items), true).contains(x) ==> #[trigger] items.contains(
                x,
            ),
        forall|x: Item| #[trigger]
            items.contains(x) ==> represented(sorter::kept(arrange::arranged(items), true), x),
{
    let list = arrange::arranged(items);
    let out = sorter::kept(list, true);
    law_sort_is_stable(items);
    items.to_multiset_ensures();
    list.to_multiset_ensures();
    assert forall|x: Item| items.contains(x) <==> list.contains(x) by {
        assert(items.contains(x) <==> items.to_multiset().count(x) > 0);
        assert(list.contains(x) <==> list.to_multiset().count(x) > 0);
    }
    assert(keys_rise(list));
    assert(ties_rise(list));
    lemma_first_per_key(list);
}

proof fn lemma_init(list: Seq<Item>)
    requires
        list.len() > 0,
        keys_rise(list),
        ties_rise(list),
    ensures
        keys_rise(list.drop_last()),
        ties_rise(list.drop_last()),
{
    let init = list.drop_last();
    assert forall|i: int, j: int| 0 <= i < j < init.len() implies order::bytes_le(
        (#[trigger] init[i]).key,
        (#[trigger] init[j]).key,
    ) by {
        assert(order::bytes_le(list[i].key, list[j].key));
    }
    assert forall|i: int, j: int|
        0 <= i < j < init.len() && (#[trigger] init[i]).key == (
        #[trigger] init[j]).key implies init[i].seq < init[j].seq by {
        assert(list[i].key == list[j].key);
    }
}

proof fn lemma_first_per_key(list: Seq<Item>)
    requires
        keys_rise(list),
        ties_rise(list),
    ensures
        list.len() > 0 ==> sorter::first_per_key(list).len() > 0 && sorter::first_per_key(
            list,
        ).last().key == list.last().key,
        keys_rise_strictly(sorter::first_per_key(list)),
        forall|x: Item| #[trigger]
            sorter::first_per_key(list).contains(x) ==> list.contains(x),
        forall|x: Item| #[trigger]
            list.contains(x) ==> represented(sorter::first_per_key(list), x),
    decreases list.len(),
{
    if list.len() > 0 {
        let init = list.drop_last();
        let x = list.last();
        let n = list.len() - 1;
        lemma_init(list);
        lemma_first_per_key(init);
        let before = sorter::first_per_key(init);
        let out = sorter::first_per_key(list);
        assert forall|y: Item| #[trigger] list.contains(y) implies init.contains(y) || y == x by {
            let k = list.index_of(y);
            if k < n {
                assert(init[k] == y);
            }
        }
        assert forall|y: Item| #[trigger] init.contains(y) implies list.contains(y) by {
            let k = init.index_of(y);
            assert(list[k] == y);
        }
        if list.len() > 1 && list[n - 1].key == x.key {
            assert(out == before);
            let y = list[n - 1];
            assert(init[n - 1] == y);
            assert(init.contains(y));
            assert(represented(out, y));
            assert(y.seq < list[n].seq);
            assert(represented(out, x));
        } else {
            assert(out =~= before.push(x));
            assert(list[n] == x);
            assert(list.contains(x));
            lemma_longer(before, x);
            assert forall|y: Item| #[trigger] out.contains(y) implies list.contains(y) by {
                let k = out.index_of(y);
                if k < before.len() {
                    assert(before[k] == y);
                    assert(before.contains(y));
                }
            }
            assert(keys_rise_strictly(out)) by {
                if n > 0 {
                    assert(init.last() == list[n - 1]);
                    assert(order::bytes_le(list[n - 1].key, list[n].key));
                    lemma_strictly(before, x);
                }
            }
        }
    }
}

proof fn lemma_longer(before: Seq<Item>, x: Item)
    ensures
        forall|y: Item| represented(before, y) ==> #[trigger] represented(before.push(x), y),
        represented(before.push(x), x),
{
    let out = before.push(x);
    assert(out[before.len() as int] == x);
    assert forall|y: Item| represented(before, y) implies #[trigger] represented(out, y) by {
        let i = choose|i: int|
            0 <= i < before.len() && (#[trigger] before[i]).key == y.key && before[i].seq <= y.seq;
        assert(out[i] == before[i]);
    }
}

proof fn lemma_strictly(before: Seq<Item>, x: Item)
    requires
        keys_rise_strictly(before),
        before.len() > 0,
        order::bytes_lt(before.last().key, x.key),
    ensures
        keys_rise_strictly(before.push(x)),
{
    let out = before.push(x);
    let m = before.len() - 1;
    assert forall|i: int, j: int| 0 <= i < j < out.len() implies order::bytes_lt(
        (#[trigger] out[i]).key,
        (#[trigger] out[j]).key,
    ) by {
        assert(out[i] == before[i]);
        if j < before.len() {
            assert(out[j] == before[j]);
        } else if i < m {
            assert(order::bytes_lt(before[i].key, before[m].key));
            order::lemma_transitive(before[i].key, before[m].key, x.key);
        }
    }
}

// ---------------------------------------------------------------------------
// Checking

/// Whether a record with this key may follow one with the key `prev`.
pub open spec fn follows(prev: Option<Seq<u8>>, key: Seq<u8>, unique: bool) -> bool {
    match prev {
        None => true,
        Some(p) => !order::bytes_lt(key, p) && !(unique && p == key),
    }
}

/// Whether each record may follow the one before it.
pub open spec fn chained(prev: Option<Seq<u8>>, list: Seq<Item>, unique: bool) -> bool
    decreases list.len(),
{
    list.len() > 0 ==> follows(prev, list[0].key, unique) && chained(
        Some(list[0].key),
        list.drop_first(),
        unique,
    )
}

/// In order as a check wants it.
pub open spec fn passes(list: Seq<Item>, unique: bool) -> bool {
    if unique {
        keys_rise_strictly(list)
    } else {
        keys_rise(list)
    }
}

pub proof fn lemma_chained(prev: Option<Seq<u8>>, list: Seq<Item>, unique: bool)
    ensures
        chained(prev, list, unique) <==> passes(list, unique) && forall|i: int|
            0 <= i < list.len() ==> follows(prev, (#[trigger] list[i]).key, unique),
    decreases list.len(),
{
    if list.len() > 0 {
        let x = list[0];
        let tail = list.drop_first();
        lemma_chained(Some(x.key), tail, unique);
        if chained(prev, list, unique) {
            assert forall|i: int, j: int| 0 <= i < j < list.len() implies {
                &&& order::bytes_le((#[trigger] list[i]).key, (#[trigger] list[j]).key)
                &&& unique ==> order::bytes_lt(list[i].key, list[j].key)
            } by {
                assert(tail[j - 1] == list[j]);
                assert(follows(Some(x.key), tail[j - 1].key, unique));
                order::lemma_trichotomy(x.key, list[j].key);
                if i > 0 {
                    assert(tail[i - 1] == list[i]);
                }
            }
            assert forall|i: int| 0 <= i < list.len() implies follows(
                prev,
                (#[trigger] list[i]).key,
                unique,
            ) by {
                if i > 0 {
                    assert(tail[i - 1] == list[i]);
                    assert(follows(Some(x.key), tail[i - 1].key, unique));
                    if let Some(p) = prev {
                        order::lemma_trichotomy(x.key, list[i].key);
                        order::lemma_trichotomy(p, x.key);
                        order::lemma_trichotomy(p, list[i].key);
                        if order::bytes_lt(p, x.key) && order::bytes_lt(x.key, list[i].key) {
                            order::lemma_transitive(p, x.key, list[i].key);
                        }
                    }
                }
            }
        }
        if passes(list, unique) && (forall|i: int|
            0 <= i < list.len() ==> follows(prev, (#[trigger] list[i]).key, unique)) {
            assert(follows(prev, list[0].key, unique));
            assert forall|i: int, j: int| 0 <= i < j < tail.len() implies {
                &&& order::bytes_le((#[trigger] tail[i]).key, (#[trigger] tail[j]).key)
                &&& unique ==> order::bytes_lt(tail[i].key, tail[j].key)
            } by {
                assert(tail[i] == list[i + 1] && tail[j] == list[j + 1]);
                if unique {
                    assert(order::bytes_lt(list[i + 1].key, list[j + 1].key));
                } else {
                    assert(order::bytes_le(list[i + 1].key, list[j + 1].key));
                }
            }
            assert forall|i: int| 0 <= i < tail.len() implies follows(
                Some(x.key),
                (#[trigger] tail[i]).key,
                unique,
            ) by {
                assert(tail[i] == list[i + 1]);
                order::lemma_trichotomy(x.key, tail[i].key);
                if unique {
                    assert(order::bytes_lt(list[0].key, list[i + 1].key));
                } else {
                    assert(order::bytes_le(list[0].key, list[i + 1].key));
                }
            }
        }
    }
}

proof fn lemma_checked(
    rules: Rules,
    unique: bool,
    s: Seq<u8>,
    line: int,
    n: nat,
    prev: Option<Seq<u8>>,
)
    ensures
        sorter::loaded(rules, s, line, n) matches Ok(items) ==> (sorter::checked(
            rules,
            unique,
            s,
            line,
            n,
            prev,
        ) == Ok::<CheckOutcome, Seq<char>>(CheckOutcome::Sorted) <==> chained(prev, items, unique)),
    decreases s.len(),
{
    sorter::lemma_step_shorter(rules.format, s, rules.delim, line);
    match sorter::record_step(rules.format, s, rules.delim, line) {
        Step::Record { bytes, rest, next_line } => {
            if bytes.len() == 0 {
                lemma_checked(rules, unique, rest, next_line, n, prev);
            } else if let Ok(key) = extract::record_key(rules, bytes) {
                lemma_checked(rules, unique, rest, next_line, n + 1, Some(key));
                if let Ok(items) = sorter::loaded(rules, rest, next_line, n + 1) {
                    let all = seq![Item { key, seq: n as u64, raw: bytes }] + items;
                    assert(all.drop_first() =~= items);
                }
            }
        },
        _ => {},
    }
}

/// A check accepts exactly the inputs that are in order: keys ascending, and
/// with `--unique` none of them twice.
pub proof fn law_check_accepts_exactly_sorted(
    rules: Rules,
    unique: bool,
    s: Seq<u8>,
    line: int,
)
    requires
        sorter::loaded(rules, s, line, 0) is Ok,
    ensures
        sorter::checked(rules, unique, s, line, 0, None) == Ok::<CheckOutcome, Seq<char>>(
            CheckOutcome::Sorted,
        ) <==> passes(sorter::loaded(rules, s, line, 0)->Ok_0, unique),
{
    lemma_checked(rules, unique, s, line, 0, None);
    lemma_chained(None, sorter::loaded(rules, s, line, 0)->Ok_0, unique);
}

/// Whether raw bytes written as a line read back as they are.
pub open spec fn reads_back(format: Format, delim: u8, raw: Seq<u8>) -> bool {
    &&& csv::without_return(raw) == raw
    &&& match format {
        Format::Csv => csv::complete(raw, delim),
        Format::Jsonl => forall|i: int| 0 <= i < raw.len() ==> #[trigger] raw[i] != csv::NEWLINE,
    }
}

/// Whether a record has the key that its raw bytes have, is not blank, and
/// reads back.
pub open spec fn is_good(rules: Rules, x: Item) -> bool {
    &&& extract::record_key(rules, x.raw) == Ok::<Seq<u8>, Seq<char>>(x.key)
    &&& x.raw.len() > 0
    &&& reads_back(rules.format, rules.delim, x.raw)
}

/// Whether all records are good.
pub open spec fn all_good(rules: Rules, list: Seq<Item>) -> bool {
    forall|i: int| 0 <= i < list.len() ==> is_good(rules, #[trigger] list[i])
}

proof fn lemma_step_back(
    format: Format,
    delim: u8,
    raw: Seq<u8>,
    rest: Seq<u8>,
    line: int,
)
    requires
        reads_back(format, delim, raw),
    ensures
        ({
            let s = raw + seq![csv::NEWLINE] + rest;
            &&& sorter::record_step(format, s, delim, line) is Record
            &&& sorter::record_step(format, s, delim, line)->bytes == raw
            &&& sorter::record_step(format, s, delim, line)->rest == rest
        }),
{
    let s = raw + seq![csv::NEWLINE] + rest;
    match format {
        Format::Csv => {
            csv::law_records_read_back(raw, rest, delim, line);
        },
        Format::Jsonl => {
            let n = raw.len() as int;
            lemma_line_end_at(s, 0, n);
            assert(s.take(n) =~= raw);
            assert(s.skip(n + 1) =~= rest);
        },
    }
}

pub proof fn lemma_line_end_at(s: Seq<u8>, i: int, n: int)
    requires
        0 <= i <= n < s.len(),
        s[n] == csv::NEWLINE,
        forall|k: int| i <= k < n ==> #[trigger] s[k] != csv::NEWLINE,
    ensures
        sorter::line_end(s, i) == n,
    decreases n - i,
{
    if i < n {
        assert(s[i] != csv::NEWLINE);
        lemma_line_end_at(s, i + 1, n);
    }
}

pub proof fn lemma_lines_front(list: Seq<Item>)
    requires
        list.len() > 0,
    ensures
        sorter::lines(list) == list[0].raw + seq![csv::NEWLINE] + sorter::lines(list.drop_first()),
    decreases list.len(),
{
    let tail = list.drop_first();
    if list.len() == 1 {
        assert(list.drop_last() =~= Seq::<Item>::empty());
        assert(tail =~= Seq::<Item>::empty());
        assert(sorter::lines(list) =~= list[0].raw + seq![csv::NEWLINE] + sorter::lines(tail));
    } else {
        lemma_lines_front(list.drop_last());
        assert(list.drop_last().drop_first() =~= tail.drop_last());
        assert(sorter::lines(list) =~= list[0].raw + seq![csv::NEWLINE] + sorter::lines(tail));
    }
}

/// Records that are good and in order pass the check when they are written.
proof fn lemma_recheck(
    rules: Rules,
    unique: bool,
    list: Seq<Item>,
    line: int,
    n: nat,
    prev: Option<Seq<u8>>,
)
    requires
        all_good(rules, list),
        chained(prev, list, unique),
    ensures
        sorter::checked(rules, unique, sorter::lines(list), line, n, prev) == Ok::<
            CheckOutcome,
            Seq<char>,
        >(CheckOutcome::Sorted),
    decreases list.len(),
{
    if list.len() == 0 {
        let s = sorter::lines(list);
        assert(s =~= Seq::<u8>::empty());
        csv::lemma_record_end(s, 0, rules.delim);
    } else {
        let x = list[0];
        let tail = list.drop_first();
        assert(is_good(rules, x));
        lemma_lines_front(list);
        let rest = sorter::lines(tail);
        lemma_step_back(rules.format, rules.delim, x.raw, rest, line);
        let step = sorter::record_step(rules.format, sorter::lines(list), rules.delim, line);
        assert forall|i: int| 0 <= i < tail.len() implies is_good(rules, #[trigger] tail[i]) by {
            assert(is_good(rules, list[i + 1]));
        }
        lemma_recheck(rules, unique, tail, step->next_line, n + 1, Some(x.key));
        sorter::lemma_step_shorter(rules.format, sorter::lines(list), rules.delim, line);
    }
}

/// Records that were read have the keys of their raw bytes and read back,
/// unless they end in a carriage return.
proof fn lemma_loaded_good(rules: Rules, s: Seq<u8>, line: int, n: nat)
    ensures
        sorter::loaded(rules, s, line, n) matches Ok(items) ==> forall|i: int|
            0 <= i < items.len() && csv::without_return((#[trigger] items[i]).raw) == items[i].raw
                ==> is_good(rules, items[i]),
    decreases s.len(),
{
    sorter::lemma_step_shorter(rules.format, s, rules.delim, line);
    match sorter::record_step(rules.format, s, rules.delim, line) {
        Step::Record { bytes, rest, next_line } => {
            if bytes.len() == 0 {
                lemma_loaded_good(rules, rest, next_line, n);
            } else if let Ok(key) = extract::record_key(rules, bytes) {
                lemma_loaded_good(rules, rest, next_line, n + 1);
                lemma_step_readable(rules.format, s, rules.delim, line);
                if let Ok(items) = sorter::loaded(rules, rest, next_line, n + 1) {
                    let x = Item { key, seq: n as u64, raw: bytes };
                    let all = seq![x] + items;
                    assert forall|i: int|
                        0 <= i < all.len() && csv::without_return((#[trigger] all[i]).raw)
                            == all[i].raw implies is_good(rules, all[i]) by {
                        if i > 0 {
                            assert(all[i] == items[i - 1]);
                        }
                    }
                }
            }
        },
        _ => {},
    }
}

proof fn lemma_step_readable(format: Format, s: Seq<u8>, delim: u8, line: int)
    ensures
        sorter::record_step(format, s, delim, line) matches Step::Record { bytes, .. }
            ==> csv::without_return(bytes) == bytes ==> reads_back(format, delim, bytes),
{
    match format {
        Format::Csv => {
            csv::law_records_are_complete(s, delim, line);
        },
        Format::Jsonl => {
            sorter::lemma_line_end(s, 0);
        },
    }
}

/// Whether neither the header nor a record ends in a carriage return.
pub open spec fn no_returns(start: Start, items: Seq<Item>) -> bool {
    &&& start.header matches Some(h) ==> csv::without_return(h) == h
    &&& forall|i: int|
        0 <= i < items.len() ==> csv::without_return((#[trigger] items[i]).raw) == items[i].raw
}

/// What a sort writes passes the check with the same configuration. Records
/// that end in a carriage return are left out: read again, they lose it to
/// the line terminator.
pub proof fn law_sorted_output_passes_check(cfg: Config, s: Seq<u8>)
    requires
        s.len() < u64::MAX,
        sorter::started(cfg, s) is Ok,
        ({
            let start = sorter::started(cfg, s)->Ok_0;
            let items = sorter::loaded(start.rules, start.rest, start.line, 0);
            items is Ok && no_returns(start, items->Ok_0)
        }),
    ensures
        ({
            let start = sorter::started(cfg, s)->Ok_0;
            let items = sorter::loaded(start.rules, start.rest, start.line, 0)->Ok_0;
            sorter::check_result(cfg, sorter::sorted_output(start, items, cfg.unique)) == Ok::<
                CheckOutcome,
                Seq<char>,
            >(CheckOutcome::Sorted)
        }),
{
    let start = sorter::started(cfg, s)->Ok_0;
    let items = sorter::loaded(start.rules, start.rest, start.line, 0)->Ok_0;
    let rules = start.rules;
    let list = sorter::kept(arrange::arranged(items), cfg.unique);
    let out = sorter::sorted_output(start, items, cfg.unique);
    sorter::lemma_start(cfg, s);
    lemma_items_good(rules, start.rest, start.line, items);
    lemma_output_good(rules, items, cfg.unique);
    if start.header is None && cfg.format == Format::Csv && cfg.has_header {
        lemma_nothing(rules, start.rest, cfg.unique);
        assert(out =~= Seq::<u8>::empty());
        assert(out =~= s);
        lemma_recheck(rules, cfg.unique, list, 1, 0, None);
        assert(sorter::lines(list) =~= Seq::<u8>::empty());
    } else {
        lemma_restart(cfg, s, sorter::lines(list));
        let again = sorter::started(cfg, out)->Ok_0;
        lemma_recheck(rules, cfg.unique, list, again.line, 0, None);
    }
}

/// What is written is good and in order.
proof fn lemma_output_good(rules: Rules, items: Seq<Item>, unique: bool)
    requires
        arrange::distinct(items),
        all_good(rules, items),
    ensures
        all_good(rules, sorter::kept(arrange::arranged(items), unique)),
        chained(None, sorter::kept(arrange::arranged(items), unique), unique),
{
    let list = sorter::kept(arrange::arranged(items), unique);
    lemma_kept(items, unique);
    assert forall|i: int| 0 <= i < list.len() implies is_good(rules, #[trigger] list[i]) by {
        let x = list[i];
        assert(list.contains(x));
        assert(items.contains(x));
        let k = items.index_of(x);
        assert(is_good(rules, items[k]));
    }
    lemma_chained(None, list, unique);
}

/// What is read is good and numbered apart.
proof fn lemma_items_good(rules: Rules, s: Seq<u8>, line: int, items: Seq<Item>)
    requires
        s.len() < u64::MAX,
        sorter::loaded(rules, s, line, 0) == Ok::<Seq<Item>, Seq<char>>(items),
        forall|i: int|
            0 <= i < items.len() ==> csv::without_return((#[trigger] items[i]).raw) == items[i].raw,
    ensures
        arrange::distinct(items),
        all_good(rules, items),
{
    sorter::lemma_loaded_numbered(rules, s, line, 0);
    lemma_loaded_good(rules, s, line, 0);
    assert forall|i: int| 0 <= i < items.len() implies is_good(rules, #[trigger] items[i]) by {
        assert(csv::without_return(items[i].raw) == items[i].raw);
    }
}

/// The header of an input starts what is written in the same way.
proof fn lemma_restart(cfg: Config, s: Seq<u8>, body: Seq<u8>)
    requires
        sorter::started(cfg, s) is Ok,
        sorter::started(cfg, s)->Ok_0.header matches Some(h) ==> csv::without_return(h) == h,
        sorter::started(cfg, s)->Ok_0.header is None ==> !(cfg.format == Format::Csv
            && cfg.has_header),
    ensures
        ({
            let start = sorter::started(cfg, s)->Ok_0;
            let again = sorter::started(cfg, sorter::header_line(start.header) + body);
            &&& again is Ok
            &&& again->Ok_0.rules == start.rules
            &&& again->Ok_0.rest == body
        }),
{
    let start = sorter::started(cfg, s)->Ok_0;
    let out = sorter::header_line(start.header) + body;
    match start.header {
        Some(h) => {
            lemma_step_readable(Format::Csv, s, cfg.delim, 1);
            lemma_step_back(Format::Csv, cfg.delim, h, body, 1);
            assert(out =~= h + seq![csv::NEWLINE] + body);
        },
        None => {
            assert(out =~= body);
        },
    }
}

/// No input, no records, no output.
proof fn lemma_nothing(rules: Rules, s: Seq<u8>, unique: bool)
    requires
        s.len() == 0,
        rules.format == Format::Csv,
    ensures
        csv::csv_step(s, rules.delim, 1) is End,
        sorter::loaded(rules, s, 1, 0) == Ok::<Seq<Item>, Seq<char>>(Seq::empty()),
        sorter::kept(arrange::arranged(Seq::empty()), unique).len() == 0,
{
    csv::lemma_record_end(s, 0, rules.delim);
    let none = Seq::<Item>::empty();
    arrange::lemma_some_arrangement(none);
    none.to_multiset_ensures();
    arrange::arranged(none).to_multiset_ensures();
}

/// What is kept is in order and among the records.
pub proof fn lemma_kept(items: Seq<Item>, unique: bool)
    requires
        arrange::distinct(items),
    ensures
        passes(sorter::kept(arrange::arranged(items), unique), unique),
        forall|x: Item|
            sorter::kept(arrange::arranged(items), unique).contains(x) ==> #[trigger] items.contains(
                x,
            ),
{
    law_sort_is_stable(items);
    if unique {
        law_unique_keeps_the_first(items);
    } else {
        let list = arrange::arranged(items);
        items.to_multiset_ensures();
        list.to_multiset_ensures();
        assert forall|x: Item| list.contains(x) implies #[trigger] items.contains(x) by {
            assert(list.to_multiset().count(x) > 0);
            assert(items.to_multiset().count(x) > 0);
        }
    }
}

} // verus!
