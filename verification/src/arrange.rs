//! Records in order: what it means, that there is only one such order, and
//! the in-memory sort.

use vstd::prelude::*;
use vstd::multiset::Multiset;

use crate::spill;
use crate::spill::{Item, Rec};

verus! {

/// No record stands after one that it comes before.
pub open spec fn in_order(list: Seq<Item>) -> bool {
    forall|i: int, j: int|
        0 <= i < j < list.len() ==> !spill::item_before(#[trigger] list[j], #[trigger] list[i])
}

/// `list` holds the same records as `items`, in order.
pub open spec fn is_arrangement(items: Seq<Item>, list: Seq<Item>) -> bool {
    list.to_multiset() == items.to_multiset() && in_order(list)
}

/// The records in order.
pub open spec fn arranged(items: Seq<Item>) -> Seq<Item> {
    choose|list: Seq<Item>| is_arrangement(items, list)
}

/// Whether records with the same sequence number are the same record.
pub open spec fn told_apart(m: Multiset<Item>) -> bool {
    forall|x: Item, y: Item|
        #[trigger] m.contains(x) && #[trigger] m.contains(y) && x.seq == y.seq ==> x == y
}

/// Whether no two records have the same sequence number.
pub open spec fn distinct(items: Seq<Item>) -> bool {
    forall|i: int, j: int|
        0 <= i < j < items.len() ==> (#[trigger] items[i]).seq != (#[trigger] items[j]).seq
}

/// Records with different sequence numbers are told apart by them.
pub proof fn lemma_distinct_told_apart(items: Seq<Item>)
    requires
        distinct(items),
    ensures
        told_apart(items.to_multiset()),
{
    items.to_multiset_ensures();
    assert forall|x: Item, y: Item|
        #[trigger] items.to_multiset().contains(x) && #[trigger] items.to_multiset().contains(y)
            && x.seq == y.seq implies x == y by {
        assert(items.contains(x) && items.contains(y));
        let i = items.index_of(x);
        let j = items.index_of(y);
        assert(items[i] == x && items[j] == y);
    }
}

/// The records of a list are its first one and the rest.
pub proof fn lemma_first_removed(list: Seq<Item>)
    requires
        list.len() > 0,
    ensures
        list.to_multiset() == list.drop_first().to_multiset().insert(list[0]),
{
    let head = seq![list[0]];
    let tail = list.drop_first();
    assert(list =~= head + tail);
    vstd::seq_lib::lemma_multiset_commutative(head, tail);
    assert(head =~= Seq::<Item>::empty().push(list[0]));
    Seq::<Item>::empty().to_multiset_ensures();
    assert(head.to_multiset() =~= Multiset::<Item>::empty().insert(list[0]));
    assert(list.to_multiset() =~= tail.to_multiset().insert(list[0]));
}

/// There is only one order that records told apart can stand in.
pub proof fn lemma_one_order(a: Seq<Item>, b: Seq<Item>)
    requires
        a.to_multiset() == b.to_multiset(),
        in_order(a),
        in_order(b),
        told_apart(a.to_multiset()),
    ensures
        a == b,
    decreases a.len(),
{
    a.to_multiset_ensures();
    b.to_multiset_ensures();
    assert(a.len() == b.len());
    if a.len() == 0 {
        assert(a =~= b);
    } else {
        let x = a[0];
        let y = b[0];
        assert(a.contains(x));
        assert(b.contains(y));
        assert(a.to_multiset().contains(x));
        assert(b.to_multiset().contains(y));
        assert(b.contains(x));
        assert(a.contains(y));
        let i = b.index_of(x);
        let j = a.index_of(y);
        assert(b[i] == x && a[j] == y);
        assert(!spill::item_before(x, y)) by {
            if i == 0 {
                spill::lemma_item_order(x, y);
            }
        }
        assert(!spill::item_before(y, x)) by {
            if j == 0 {
                spill::lemma_item_order(x, y);
            }
        }
        spill::lemma_item_order(x, y);
        assert(x == y);
        let ta = a.drop_first();
        let tb = b.drop_first();
        lemma_first_removed(a);
        lemma_first_removed(b);
        assert(ta.to_multiset() =~= a.to_multiset().remove(x));
        assert(tb.to_multiset() =~= b.to_multiset().remove(y));
        assert(told_apart(ta.to_multiset())) by {
            assert forall|p: Item, q: Item|
                #[trigger] ta.to_multiset().contains(p) && #[trigger] ta.to_multiset().contains(q)
                    && p.seq == q.seq implies p == q by {
                assert(a.to_multiset().contains(p) && a.to_multiset().contains(q));
            }
        }
        lemma_one_order(ta, tb);
        assert(a =~= seq![x] + ta);
        assert(b =~= seq![y] + tb);
    }
}

/// A list that holds the records in order is *the* records in order.
pub proof fn lemma_arranged(items: Seq<Item>, list: Seq<Item>)
    requires
        is_arrangement(items, list),
        told_apart(items.to_multiset()),
    ensures
        arranged(items) == list,
{
    lemma_one_order(arranged(items), list);
}

/// Any records can be put in order.
pub proof fn lemma_some_arrangement(items: Seq<Item>)
    ensures
        is_arrangement(items, arranged(items)),
    decreases items.len(),
{
    let list = some_order(items);
    lemma_some_order(items);
    assert(is_arrangement(items, list));
}

/// The records with the last one put where it belongs among the others.
spec fn some_order(items: Seq<Item>) -> Seq<Item>
    decreases items.len(),
{
    if items.len() == 0 {
        items
    } else {
        let rest = some_order(items.drop_last());
        rest.insert(place(rest, items.last()), items.last())
    }
}

/// How many records at the start of the list do not come after `x`.
spec fn place(list: Seq<Item>, x: Item) -> int
    decreases list.len(),
{
    if list.len() == 0 || spill::item_before(x, list[0]) {
        0
    } else {
        1 + place(list.drop_first(), x)
    }
}

proof fn lemma_place(list: Seq<Item>, x: Item)
    requires
        in_order(list),
    ensures
        0 <= place(list, x) <= list.len(),
        forall|i: int|
            0 <= i < place(list, x) ==> !spill::item_before(x, #[trigger] list[i]),
        forall|i: int|
            place(list, x) <= i < list.len() ==> !spill::item_before(#[trigger] list[i], x),
    decreases list.len(),
{
    if list.len() > 0 {
        if spill::item_before(x, list[0]) {
            assert forall|i: int| 0 <= i < list.len() implies !spill::item_before(
                #[trigger] list[i],
                x,
            ) by {
                spill::lemma_item_order(x, list[0]);
                if i > 0 {
                    assert(!spill::item_before(list[i], list[0]));
                    spill::lemma_item_transitive(x, list[0], list[i]);
                }
            }
        } else {
            let tail = list.drop_first();
            assert forall|i: int, j: int| 0 <= i < j < tail.len() implies !spill::item_before(
                #[trigger] tail[j],
                #[trigger] tail[i],
            ) by {
                assert(!spill::item_before(list[j + 1], list[i + 1]));
            }
            lemma_place(tail, x);
            assert forall|i: int| 0 <= i < place(list, x) implies !spill::item_before(
                x,
                #[trigger] list[i],
            ) by {
                if i > 0 {
                    assert(list[i] == tail[i - 1]);
                }
            }
            assert forall|i: int| place(list, x) <= i < list.len() implies !spill::item_before(
                #[trigger] list[i],
                x,
            ) by {
                assert(list[i] == tail[i - 1]);
            }
        }
    }
}

proof fn lemma_some_order(items: Seq<Item>)
    ensures
        is_arrangement(items, some_order(items)),
    decreases items.len(),
{
    if items.len() > 0 {
        let init = items.drop_last();
        let x = items.last();
        lemma_some_order(init);
        let rest = some_order(init);
        lemma_place(rest, x);
        let k = place(rest, x);
        let list = rest.insert(k, x);
        rest.to_multiset_ensures();
        init.to_multiset_ensures();
        assert(items =~= init.push(x));
        let a = rest.take(k);
        let b = rest.skip(k);
        assert(rest =~= a + b);
        assert(list =~= a.push(x) + b);
        vstd::seq_lib::lemma_multiset_commutative(a, b);
        vstd::seq_lib::lemma_multiset_commutative(a.push(x), b);
        a.to_multiset_ensures();
        assert(list.to_multiset() =~= rest.to_multiset().insert(x));
        assert forall|i: int, j: int| 0 <= i < j < list.len() implies !spill::item_before(
            #[trigger] list[j],
            #[trigger] list[i],
        ) by {
            if i < k && j > k {
                assert(list[i] == rest[i] && list[j] == rest[j - 1]);
            } else if i < k && j < k {
                assert(list[i] == rest[i] && list[j] == rest[j]);
            } else if i > k {
                assert(list[i] == rest[i - 1] && list[j] == rest[j - 1]);
            } else if i == k {
                assert(list[j] == rest[j - 1]);
            } else {
                assert(list[i] == rest[i]);
            }
        }
    }
}

// ---------------------------------------------------------------------------
// Sorting in memory

/// Whether `x` comes before `y`, or after it where the order goes down.
spec fn precedes(x: Item, y: Item, up: bool) -> bool {
    if up {
        spill::item_before(x, y)
    } else {
        spill::item_before(y, x)
    }
}

/// In order upwards or downwards.
spec fn in_direction(list: Seq<Item>, up: bool) -> bool {
    forall|i: int, j: int|
        0 <= i < j < list.len() ==> !precedes(#[trigger] list[j], #[trigger] list[i], up)
}

proof fn lemma_precedes(a: Item, b: Item, c: Item, up: bool)
    ensures
        !precedes(b, a, up) && !precedes(c, b, up) ==> !precedes(c, a, up),
        !(precedes(a, b, up) && precedes(b, a, up)),
        !precedes(a, a, up),
{
    spill::lemma_item_transitive(a, b, c);
    spill::lemma_item_transitive(c, b, a);
    spill::lemma_item_order(a, b);
    spill::lemma_item_order(a, a);
}

proof fn lemma_last_removed(list: Seq<Item>)
    requires
        list.len() > 0,
    ensures
        list.to_multiset() == list.drop_last().to_multiset().insert(list.last()),
{
    let init = list.drop_last();
    init.to_multiset_ensures();
    assert(list =~= init.push(list.last()));
}

/// The last record of a list.
fn take_last(list: &mut Vec<Rec>) -> (r: Rec)
    requires
        old(list)@.len() > 0,
    ensures
        final(list)@ == old(list)@.drop_last(),
        r == old(list)@.last(),
{
    let n: usize = list.len();
    list.swap_remove(n - 1)
}

/// Merge two lists that go one way into one that goes the other way, always
/// taking the nearer one of the two last records.
fn merge_lists(a: Vec<Rec>, b: Vec<Rec>, up: bool) -> (r: Vec<Rec>)
    requires
        in_direction(spill::views(a@), !up),
        in_direction(spill::views(b@), !up),
    ensures
        in_direction(spill::views(r@), up),
        spill::views(r@).to_multiset() == spill::views(a@).to_multiset().add(
            spill::views(b@).to_multiset(),
        ),
{
    let mut a = a;
    let mut b = b;
    let ghost all = spill::views(a@).to_multiset().add(spill::views(b@).to_multiset());
    let mut out: Vec<Rec> = Vec::new();
    proof {
        spill::views(out@).to_multiset_ensures();
        assert(spill::views(out@) =~= Seq::<Item>::empty());
        assert(all =~= spill::views(out@).to_multiset().add(
            spill::views(a@).to_multiset().add(spill::views(b@).to_multiset()),
        ));
    }
    while a.len() > 0 || b.len() > 0
        invariant
            in_direction(spill::views(a@), !up),
            in_direction(spill::views(b@), !up),
            in_direction(spill::views(out@), up),
            all == spill::views(out@).to_multiset().add(
                spill::views(a@).to_multiset().add(spill::views(b@).to_multiset()),
            ),
            forall|i: int, j: int|
                0 <= i < out@.len() && 0 <= j < a@.len() ==> !precedes(
                    (#[trigger] a@[j])@,
                    (#[trigger] out@[i])@,
                    up,
                ),
            forall|i: int, j: int|
                0 <= i < out@.len() && 0 <= j < b@.len() ==> !precedes(
                    (#[trigger] b@[j])@,
                    (#[trigger] out@[i])@,
                    up,
                ),
        decreases a@.len() + b@.len(),
    {
        let from_a = if b.len() == 0 {
            true
        } else if a.len() == 0 {
            false
        } else {
            let x = &a[a.len() - 1];
            let y = &b[b.len() - 1];
            if up {
                !y.before(x)
            } else {
                !x.before(y)
            }
        };
        let ghost a0 = spill::views(a@);
        let ghost b0 = spill::views(b@);
        let ghost out0 = spill::views(out@);
        let ghost x0 = a@;
        let ghost y0 = b@;
        let ghost z0 = out@;
        let rec = if from_a {
            take_last(&mut a)
        } else {
            take_last(&mut b)
        };
        proof {
            let x = rec@;
            if from_a {
                lemma_last_removed(a0);
                assert(spill::views(a@) =~= a0.drop_last());
                assert forall|j: int| 0 <= j < a@.len() implies !precedes(
                    (#[trigger] a@[j])@,
                    x,
                    up,
                ) by {
                    assert(!precedes(a0[a0.len() - 1], a0[j], !up));
                }
                assert forall|j: int| 0 <= j < b@.len() implies !precedes(
                    (#[trigger] b@[j])@,
                    x,
                    up,
                ) by {
                    let y = b0.last();
                    lemma_precedes(x, y, b0[j], up);
                    lemma_precedes(x, y, x, up);
                    if j < b0.len() - 1 {
                        assert(!precedes(b0[b0.len() - 1], b0[j], !up));
                    }
                }
            } else {
                lemma_last_removed(b0);
                assert(spill::views(b@) =~= b0.drop_last());
                assert forall|j: int| 0 <= j < b@.len() implies !precedes(
                    (#[trigger] b@[j])@,
                    x,
                    up,
                ) by {
                    assert(!precedes(b0[b0.len() - 1], b0[j], !up));
                }
                assert forall|j: int| 0 <= j < a@.len() implies !precedes(
                    (#[trigger] a@[j])@,
                    x,
                    up,
                ) by {
                    let y = a0.last();
                    lemma_precedes(x, y, a0[j], up);
                    lemma_precedes(y, x, y, up);
                    if j < a0.len() - 1 {
                        assert(!precedes(a0[a0.len() - 1], a0[j], !up));
                    }
                }
            }
            assert forall|i: int| 0 <= i < out0.len() implies !precedes(
                x,
                #[trigger] out0[i],
                up,
            ) by {
                if from_a {
                    assert(!precedes((x0[x0.len() - 1])@, (z0[i])@, up));
                } else {
                    assert(!precedes((y0[y0.len() - 1])@, (z0[i])@, up));
                }
            }
            out0.to_multiset_ensures();
        }
        out.push(rec);
        proof {
            assert(spill::views(out@) =~= out0.push(rec@));
            assert(spill::views(out@).to_multiset() =~= out0.to_multiset().insert(rec@));
            assert(all =~= spill::views(out@).to_multiset().add(
                spill::views(a@).to_multiset().add(spill::views(b@).to_multiset()),
            ));
            assert forall|i: int, j: int| 0 <= i < out@.len() && 0 <= j < a@.len() implies
                !precedes((#[trigger] a@[j])@, (#[trigger] out@[i])@, up) by {
                if i < z0.len() {
                    assert(out@[i] == z0[i]);
                    assert(a@[j] == x0[j]);
                }
            }
            assert forall|i: int, j: int| 0 <= i < out@.len() && 0 <= j < b@.len() implies
                !precedes((#[trigger] b@[j])@, (#[trigger] out@[i])@, up) by {
                if i < z0.len() {
                    assert(out@[i] == z0[i]);
                    assert(b@[j] == y0[j]);
                }
            }
        }
    }
    proof {
        let va = spill::views(a@);
        let vb = spill::views(b@);
        va.to_multiset_ensures();
        vb.to_multiset_ensures();
        assert(va.to_multiset().len() == 0);
        assert(vb.to_multiset().len() == 0);
        assert(all =~= spill::views(out@).to_multiset());
    }
    out
}

/// Sort records upwards or downwards: two halves the other way, merged.
fn sort_direction(v: Vec<Rec>, up: bool) -> (r: Vec<Rec>)
    ensures
        in_direction(spill::views(r@), up),
        spill::views(r@).to_multiset() == spill::views(v@).to_multiset(),
    decreases v@.len(),
{
    let n: usize = v.len();
    if n < 2 {
        return v;
    }
    let mut head = v;
    let tail = head.split_off(n / 2);
    proof {
        let h = spill::views(head@);
        let t = spill::views(tail@);
        assert(spill::views(v@) =~= h + t);
        vstd::seq_lib::lemma_multiset_commutative(h, t);
    }
    let a = sort_direction(head, !up);
    let b = sort_direction(tail, !up);
    merge_lists(a, b, up)
}

/// Sort records by key, and by input order where keys are equal.
pub fn sort_records(v: Vec<Rec>) -> (r: Vec<Rec>)
    ensures
        is_arrangement(spill::views(v@), spill::views(r@)),
{
    let r = sort_direction(v, true);
    proof {
        let l = spill::views(r@);
        assert forall|i: int, j: int| 0 <= i < j < l.len() implies !spill::item_before(
            #[trigger] l[j],
            #[trigger] l[i],
        ) by {
            assert(!precedes(l[j], l[i], true));
        }
    }
    r
}

} // verus!
