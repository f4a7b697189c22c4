//! K-way merge of sorted runs, with bounded fan-in.
//!
//! The heads of any number of sorted sources, compared by `(encoded key,
//! seq)`, yield the global order. When more runs exist than `--fan-in`
//! allows open at once, intermediate passes merge groups of runs into new
//! runs until one final merge can stream straight to the output.

use vstd::prelude::*;
use vstd::multiset::Multiset;

use crate::arrange;
use crate::io::{ByteSink, ByteSource, SpillStore};
use crate::spill;
use crate::spill::{Item, Rec, RunFile, RunReader, RunWriter, SpillArea};

verus! {

// ---------------------------------------------------------------------------
// What a merge is

/// `x` is at the head of stream `i`, and no head comes before it.
pub open spec fn takes(streams: Seq<Seq<Item>>, i: int, x: Item) -> bool {
    &&& 0 <= i < streams.len()
    &&& streams[i].len() > 0
    &&& streams[i][0] == x
    &&& forall|j: int|
        0 <= j < streams.len() && (#[trigger] streams[j]).len() > 0 ==> !spill::item_before(
            streams[j][0],
            x,
        )
}

/// The streams without the head of stream `i`.
pub open spec fn taken(streams: Seq<Seq<Item>>, i: int) -> Seq<Seq<Item>> {
    streams.update(i, streams[i].drop_first())
}

/// `out` comes of always taking a first head, until all streams are empty.
pub open spec fn is_merge(streams: Seq<Seq<Item>>, out: Seq<Item>) -> bool
    decreases out.len(),
{
    if out.len() == 0 {
        forall|j: int| 0 <= j < streams.len() ==> (#[trigger] streams[j]).len() == 0
    } else {
        exists|i: int| #[trigger]
            takes(streams, i, out[0]) && is_merge(taken(streams, i), out.drop_first())
    }
}

/// The records of all streams.
pub open spec fn together(streams: Seq<Seq<Item>>) -> Multiset<Item>
    decreases streams.len(),
{
    if streams.len() == 0 {
        Multiset::empty()
    } else {
        together(streams.drop_last()).add(streams.last().to_multiset())
    }
}

proof fn lemma_together_taken(streams: Seq<Seq<Item>>, i: int)
    requires
        0 <= i < streams.len(),
        streams[i].len() > 0,
    ensures
        together(streams) == together(taken(streams, i)).insert(streams[i][0]),
        together(taken(streams, i)).len() + 1 == together(streams).len(),
    decreases streams.len(),
{
    let next = taken(streams, i);
    let x = streams[i][0];
    if i == streams.len() - 1 {
        assert(next.drop_last() =~= streams.drop_last());
        arrange::lemma_first_removed(streams[i]);
        assert(together(streams) =~= together(next).insert(x));
    } else {
        assert(next.drop_last() =~= taken(streams.drop_last(), i));
        assert(next.last() == streams.last());
        lemma_together_taken(streams.drop_last(), i);
        assert(together(streams) =~= together(next).insert(x));
    }
}

proof fn lemma_together_empty(streams: Seq<Seq<Item>>)
    requires
        forall|j: int| 0 <= j < streams.len() ==> (#[trigger] streams[j]).len() == 0,
    ensures
        together(streams) == Multiset::<Item>::empty(),
    decreases streams.len(),
{
    if streams.len() > 0 {
        lemma_together_empty(streams.drop_last());
        streams.last().to_multiset_ensures();
        assert(streams.last().to_multiset() =~= Multiset::<Item>::empty());
    }
}

/// Every record of a stream is among the records of all streams, and the
/// other way round.
pub proof fn lemma_together_contains(streams: Seq<Seq<Item>>, x: Item)
    ensures
        together(streams).contains(x) <==> exists|j: int|
            0 <= j < streams.len() && (#[trigger] streams[j]).contains(x),
    decreases streams.len(),
{
    if streams.len() > 0 {
        let init = streams.drop_last();
        lemma_together_contains(init, x);
        streams.last().to_multiset_ensures();
        if together(streams).contains(x) {
            if streams.last().to_multiset().contains(x) {
                assert(streams[streams.len() - 1].contains(x));
            } else {
                assert(together(init).contains(x));
                let j = choose|j: int| 0 <= j < init.len() && (#[trigger] init[j]).contains(x);
                assert(streams[j].contains(x));
            }
        }
        if exists|j: int| 0 <= j < streams.len() && (#[trigger] streams[j]).contains(x) {
            let j = choose|j: int| 0 <= j < streams.len() && (#[trigger] streams[j]).contains(x);
            if j < init.len() {
                assert(init[j].contains(x));
            }
        }
    }
}

/// A merge holds exactly the records of its streams.
pub proof fn law_merge_keeps_records(streams: Seq<Seq<Item>>, out: Seq<Item>)
    requires
        is_merge(streams, out),
    ensures
        out.to_multiset() == together(streams),
    decreases out.len(),
{
    out.to_multiset_ensures();
    if out.len() == 0 {
        lemma_together_empty(streams);
        assert(out.to_multiset() =~= Multiset::<Item>::empty());
    } else {
        let i = choose|i: int| #[trigger]
            takes(streams, i, out[0]) && is_merge(taken(streams, i), out.drop_first());
        law_merge_keeps_records(taken(streams, i), out.drop_first());
        lemma_together_taken(streams, i);
        arrange::lemma_first_removed(out);
    }
}

/// A merge of streams in order is in order.
pub proof fn law_merge_keeps_order(streams: Seq<Seq<Item>>, out: Seq<Item>)
    requires
        is_merge(streams, out),
        forall|j: int| 0 <= j < streams.len() ==> arrange::in_order(#[trigger] streams[j]),
    ensures
        arrange::in_order(out),
    decreases out.len(),
{
    if out.len() > 0 {
        let x = out[0];
        let tail = out.drop_first();
        let i = choose|i: int| #[trigger] takes(streams, i, x) && is_merge(taken(streams, i), tail);
        let next = taken(streams, i);
        assert forall|j: int| 0 <= j < next.len() implies arrange::in_order(#[trigger] next[j]) by {
            assert(arrange::in_order(streams[j]));
            if j == i {
                let s = streams[i];
                let t = next[i];
                assert forall|a: int, b: int| 0 <= a < b < t.len() implies !spill::item_before(
                    #[trigger] t[b],
                    #[trigger] t[a],
                ) by {
                    assert(!spill::item_before(s[b + 1], s[a + 1]));
                }
            }
        }
        law_merge_keeps_order(next, tail);
        law_merge_keeps_records(next, tail);
        tail.to_multiset_ensures();
        assert forall|a: int, b: int| 0 <= a < b < out.len() implies !spill::item_before(
            #[trigger] out[b],
            #[trigger] out[a],
        ) by {
            if a > 0 {
                assert(out[b] == tail[b - 1] && out[a] == tail[a - 1]);
            } else {
                let e = out[b];
                assert(tail[b - 1] == e);
                assert(tail.contains(e));
                assert(tail.to_multiset().contains(e));
                lemma_together_contains(next, e);
                let j = choose|j: int| 0 <= j < next.len() && (#[trigger] next[j]).contains(e);
                let s = streams[j];
                let k = next[j].index_of(e);
                assert(next[j][k] == e);
                let m = if j == i {
                    k + 1
                } else {
                    k
                };
                assert(s[m] == e);
                assert(arrange::in_order(s));
                if m > 0 {
                    assert(!spill::item_before(s[m], s[0]));
                } else {
                    spill::lemma_item_order(e, e);
                }
                spill::lemma_item_transitive(x, s[0], e);
            }
        }
    }
}

proof fn lemma_merge_fits(streams: Seq<Seq<Item>>, out: Seq<Item>)
    requires
        is_merge(streams, out),
        forall|j: int| 0 <= j < streams.len() ==> spill::all_fit(#[trigger] streams[j]),
    ensures
        spill::all_fit(out),
    decreases out.len(),
{
    if out.len() > 0 {
        let i = choose|i: int| #[trigger]
            takes(streams, i, out[0]) && is_merge(taken(streams, i), out.drop_first());
        let next = taken(streams, i);
        assert forall|j: int| 0 <= j < next.len() implies spill::all_fit(#[trigger] next[j]) by {
            assert(spill::all_fit(streams[j]));
        }
        lemma_merge_fits(next, out.drop_first());
        assert(spill::all_fit(streams[i]));
        assert forall|k: int| 0 <= k < out.len() implies spill::fits(#[trigger] out[k]) by {
            if k > 0 {
                assert(out[k] == out.drop_first()[k - 1]);
            }
        }
    }
}

/// Of the first `n` streams, stream `i` has a head that no other head comes
/// before.
spec fn leads(streams: Seq<Seq<Item>>, n: int, i: int) -> bool {
    &&& 0 <= i < n
    &&& streams[i].len() > 0
    &&& forall|j: int|
        0 <= j < n && (#[trigger] streams[j]).len() > 0 ==> !spill::item_before(
            streams[j][0],
            streams[i][0],
        )
}

/// Unless the first `n` streams are all empty, one of them leads.
proof fn lemma_some_lead(streams: Seq<Seq<Item>>, n: int, k: int) -> (i: int)
    requires
        0 <= k < n <= streams.len(),
        streams[k].len() > 0,
    ensures
        leads(streams, n, i),
    decreases n,
{
    let last = n - 1;
    spill::lemma_item_order(streams[last][0], streams[last][0]);
    if exists|j: int| 0 <= j < last && (#[trigger] streams[j]).len() > 0 {
        let j = choose|j: int| 0 <= j < last && (#[trigger] streams[j]).len() > 0;
        let i = lemma_some_lead(streams, last, j);
        if streams[last].len() > 0 && spill::item_before(streams[last][0], streams[i][0]) {
            assert forall|m: int| 0 <= m < n && (#[trigger] streams[m]).len() > 0 implies
                !spill::item_before(streams[m][0], streams[last][0]) by {
                spill::lemma_item_transitive(streams[m][0], streams[last][0], streams[i][0]);
            }
            last
        } else {
            i
        }
    } else {
        last
    }
}

/// Any streams can be merged.
pub proof fn lemma_some_merge(streams: Seq<Seq<Item>>) -> (out: Seq<Item>)
    ensures
        is_merge(streams, out),
    decreases together(streams).len(),
{
    if exists|j: int| 0 <= j < streams.len() && (#[trigger] streams[j]).len() > 0 {
        let j = choose|j: int| 0 <= j < streams.len() && (#[trigger] streams[j]).len() > 0;
        let i = lemma_some_lead(streams, streams.len() as int, j);
        lemma_together_taken(streams, i);
        let rest = lemma_some_merge(taken(streams, i));
        let out = seq![streams[i][0]] + rest;
        assert(out.drop_first() =~= rest);
        assert(takes(streams, i, out[0]));
        out
    } else {
        Seq::empty()
    }
}

// ---------------------------------------------------------------------------
// Merging

/// The records that runs with these bytes hold.
pub open spec fn streams_in(runs: Seq<Seq<u8>>) -> Seq<Seq<Item>> {
    Seq::new(runs.len(), |i: int| spill::decoded(runs[i]).0)
}

/// Whether no run is corrupt.
pub open spec fn all_clean(runs: Seq<Seq<u8>>) -> bool {
    forall|i: int| 0 <= i < runs.len() ==> spill::decoded(#[trigger] runs[i]).1 is None
}

/// Whether `e` is what is wrong with one of the runs.
pub open spec fn is_fault(runs: Seq<Seq<u8>>, e: Seq<char>) -> bool {
    exists|i: int| 0 <= i < runs.len() && spill::decoded(#[trigger] runs[i]).1 == Some(e)
}

/// The bytes that readers have still to read.
pub open spec fn bytes_left<R: ByteSource>(readers: Seq<RunReader<R>>) -> Seq<Seq<u8>> {
    Seq::new(readers.len(), |i: int| readers[i].r.remaining())
}

/// Whether no reader ever fails.
pub open spec fn all_reliable<R: ByteSource>(readers: Seq<RunReader<R>>) -> bool {
    forall|i: int| 0 <= i < readers.len() ==> (#[trigger] readers[i]).r.reliable()
}

/// Where the merged records go.
pub trait RecSink: Sized {
    /// The records received so far.
    spec fn emitted(&self) -> Seq<Item>;

    /// Whether the sink is in a good state.
    spec fn well_formed(&self) -> bool;

    /// Whether receiving a record never fails.
    spec fn reliable(&self) -> bool;

    /// Which sink this is.
    spec fn identity(&self) -> int;

    /// Receive one record.
    fn emit(&mut self, rec: Rec) -> (r: Result<(), String>)
        requires
            old(self).well_formed(),
        ensures
            final(self).reliable() == old(self).reliable(),
            final(self).identity() == old(self).identity(),
            old(self).reliable() ==> r is Ok,
            r is Ok ==> final(self).well_formed() && final(self).emitted() == old(self).emitted().push(rec@),
    ;
}

/// A list receives records at its end.
impl RecSink for Vec<Rec> {
    open spec fn emitted(&self) -> Seq<Item> {
        spill::views(self@)
    }

    open spec fn well_formed(&self) -> bool {
        true
    }

    open spec fn reliable(&self) -> bool {
        true
    }

    open spec fn identity(&self) -> int {
        0
    }

    fn emit(&mut self, rec: Rec) -> (r: Result<(), String>) {
        self.push(rec);
        assert(self.emitted() =~= old(self).emitted().push(rec@));
        Ok(())
    }
}

/// A run in the making receives records at its end.
impl<W: ByteSink> RecSink for RunWriter<W> {
    open spec fn emitted(&self) -> Seq<Item> {
        self.items@
    }

    open spec fn well_formed(&self) -> bool {
        self.w.written() == spill::run_bytes(self.items@)
    }

    open spec fn reliable(&self) -> bool {
        self.w.reliable()
    }

    open spec fn identity(&self) -> int {
        self.id as int
    }

    fn emit(&mut self, rec: Rec) -> (r: Result<(), String>) {
        self.push(&rec)
    }
}

/// A merge under way: the open runs, and the next record of each.
pub struct Merger<R: ByteSource> {
    pub readers: Vec<RunReader<R>>,
    pub heads: Vec<Option<Rec>>,
}

/// The next record, if there is one, as a list.
pub open spec fn head_items(head: Option<Rec>) -> Seq<Item> {
    match head {
        Some(rec) => seq![rec@],
        None => Seq::empty(),
    }
}

impl<R: ByteSource> Merger<R> {
    /// Whether there is a head for each run that has not ended.
    pub open spec fn well_formed(&self) -> bool {
        &&& self.heads@.len() == self.readers@.len()
        &&& forall|i: int|
            0 <= i < self.heads@.len() && #[trigger] self.heads@[i] is None
                ==> self.readers@[i].r.remaining().len() == 0
    }

    /// The records that are still to come from each run.
    pub open spec fn streams(&self) -> Seq<Seq<Item>> {
        Seq::new(
            self.readers@.len(),
            |i: int|
                head_items(self.heads@[i]) + spill::decoded(self.readers@[i].r.remaining()).0,
        )
    }

    /// What is wrong with each run after them, if anything.
    pub open spec fn faults(&self) -> Seq<Option<Seq<char>>> {
        Seq::new(
            self.readers@.len(),
            |i: int| spill::decoded(self.readers@[i].r.remaining()).1,
        )
    }

    /// Read the first record of each run.
    pub fn begin(readers: Vec<RunReader<R>>) -> (r: Result<Merger<R>, String>)
        ensures
            r matches Ok(m) ==> {
                &&& m.well_formed()
                &&& m.streams() == streams_in(bytes_left(readers@))
                &&& m.faults().len() == readers@.len()
                &&& forall|i: int|
                    0 <= i < readers@.len() ==> #[trigger] m.faults()[i] == spill::decoded(
                        bytes_left(readers@)[i],
                    ).1
                &&& all_reliable(readers@) ==> all_reliable(m.readers@)
            },
            r matches Err(e) ==> all_reliable(readers@) ==> is_fault(bytes_left(readers@), e@),
    {
        let ghost runs = bytes_left(readers@);
        let ghost reliable = all_reliable(readers@);
        let mut open = readers;
        let mut heads: Vec<Option<Rec>> = Vec::new();
        let n: usize = open.len();
        let mut i: usize = 0;
        while i < n
            invariant
                i <= n,
                runs == bytes_left(readers@),
                reliable == all_reliable(readers@),
                n == open@.len(),
                n == runs.len(),
                heads@.len() == i,
                reliable ==> all_reliable(open@),
                forall|k: int|
                    0 <= k < i ==> spill::decoded(#[trigger] runs[k]) == (
                        head_items(heads@[k]) + spill::decoded(open@[k].r.remaining()).0,
                        spill::decoded(open@[k].r.remaining()).1,
                    ),
                forall|k: int|
                    0 <= k < i && #[trigger] heads@[k] is None
                        ==> open@[k].r.remaining().len() == 0,
                forall|k: int| i <= k < n ==> (#[trigger] open@[k]).r.remaining() == runs[k],
            decreases n - i,
        {
            let ghost before = open@;
            let next = open[i].next_rec();
            proof {
                lemma_next(before[i as int].r.remaining());
            }
            match next {
                Ok(head) => {
                    heads.push(head);
                },
                Err(e) => {
                    proof {
                        if reliable {
                            assert(before[i as int].r.reliable());
                            assert(spill::decoded(runs[i as int]).1 == Some(e@));
                        }
                    }
                    return Err(e);
                },
            }
            i += 1;
        }
        let m = Merger { readers: open, heads };
        proof {
            assert(m.streams() =~= streams_in(runs));
            assert forall|k: int| 0 <= k < n implies #[trigger] m.faults()[k] == spill::decoded(
                runs[k],
            ).1 by {}
        }
        Ok(m)
    }
}

/// What decoding a run gives, by its first record.
proof fn lemma_next(s: Seq<u8>)
    ensures
        match spill::chunk(s) {
            spill::Chunk::End => spill::decoded(s) == (Seq::<Item>::empty(), None::<Seq<char>>),
            spill::Chunk::Corrupt { reason } => spill::decoded(s) == (
                Seq::<Item>::empty(),
                Some(reason),
            ),
            spill::Chunk::Next { item, rest } => spill::decoded(s) == (
                seq![item] + spill::decoded(rest).0,
                spill::decoded(rest).1,
            ),
        },
{
    spill::lemma_chunk_shorter(s);
}

impl<R: ByteSource> Merger<R> {
    /// The run whose head is first, unless all have ended.
    fn first_head(&self) -> (r: Option<usize>)
        requires
            self.well_formed(),
        ensures
            r matches Some(i) ==> {
                &&& i < self.heads@.len()
                &&& self.heads@[i as int] is Some
                &&& takes(self.streams(), i as int, self.heads@[i as int]->Some_0@)
            },
            r is None ==> forall|j: int|
                0 <= j < self.heads@.len() ==> #[trigger] self.heads@[j] is None,
    {
        let n: usize = self.heads.len();
        let mut best: Option<usize> = None;
        let mut i: usize = 0;
        while i < n
            invariant
                i <= n,
                n == self.heads@.len(),
                best is None ==> forall|j: int|
                    0 <= j < i ==> #[trigger] self.heads@[j] is None,
                best matches Some(b) ==> {
                    &&& b < i
                    &&& self.heads@[b as int] is Some
                    &&& forall|j: int|
                        0 <= j < i && #[trigger] self.heads@[j] is Some ==> !spill::item_before(
                            self.heads@[j]->Some_0@,
                            self.heads@[b as int]->Some_0@,
                        )
                },
            decreases n - i,
        {
            if let Some(rec) = &self.heads[i] {
                match best {
                    None => {
                        proof {
                            spill::lemma_item_order(rec@, rec@);
                        }
                        best = Some(i);
                    },
                    Some(b) => {
                        if let Some(least) = &self.heads[b] {
                            if rec.before(least) {
                                proof {
                                    spill::lemma_item_order(rec@, rec@);
                                    spill::lemma_item_order(rec@, least@);
                                    assert forall|j: int|
                                        0 <= j < i + 1 && #[trigger] self.heads@[j] is Some implies
                                        !spill::item_before(self.heads@[j]->Some_0@, rec@) by {
                                        if j < i {
                                            let x = self.heads@[j]->Some_0@;
                                            spill::lemma_item_transitive(rec@, least@, x);
                                        }
                                    }
                                }
                                best = Some(i);
                            }
                        }
                    },
                }
            }
            i += 1;
        }
        proof {
            if let Some(b) = best {
                let streams = self.streams();
                let x = self.heads@[b as int]->Some_0@;
                assert forall|j: int|
                    0 <= j < streams.len() && (#[trigger] streams[j]).len() > 0 implies
                    !spill::item_before(streams[j][0], x) by {
                    if self.heads@[j] is None {
                        lemma_next(self.readers@[j].r.remaining());
                    }
                }
            }
        }
        best
    }

    /// The next record of all runs, or `None` at the end.
    pub fn next(&mut self) -> (r: Result<Option<Rec>, String>)
        requires
            old(self).well_formed(),
        ensures
            all_reliable(old(self).readers@) ==> all_reliable(final(self).readers@),
            match r {
                Ok(None) => {
                    &&& is_merge(old(self).streams(), Seq::empty())
                    &&& forall|i: int|
                        0 <= i < old(self).faults().len() ==> #[trigger] old(self).faults()[i] is None
                },
                Ok(Some(rec)) => {
                    &&& final(self).well_formed()
                    &&& final(self).faults() == old(self).faults()
                    &&& exists|i: int| #[trigger]
                        takes(old(self).streams(), i, rec@) && final(self).streams() == taken(
                            old(self).streams(),
                            i,
                        )
                },
                Err(e) => all_reliable(old(self).readers@) ==> exists|i: int|
                    0 <= i < old(self).faults().len() && #[trigger] old(self).faults()[i] == Some(e@),
            },
    {
        let src = match self.first_head() {
            Some(i) => i,
            None => {
                proof {
                    assert forall|j: int| 0 <= j < self.streams().len() implies (
                    #[trigger] self.streams()[j]).len() == 0 by {
                        assert(self.heads@[j] is None);
                        lemma_next(self.readers@[j].r.remaining());
                    }
                    assert forall|j: int| 0 <= j < self.faults().len() implies
                        #[trigger] self.faults()[j] is None by {
                        assert(self.heads@[j] is None);
                        lemma_next(self.readers@[j].r.remaining());
                    }
                }
                return Ok(None);
            },
        };
        let ghost before = *self;
        let ghost streams = self.streams();
        let ghost s = self.readers@[src as int].r.remaining();
        proof {
            lemma_next(s);
        }
        let next = match self.readers[src].next_rec() {
            Ok(h) => h,
            Err(e) => {
                proof {
                    if all_reliable(before.readers@) {
                        assert(before.readers@[src as int].r.reliable());
                        assert(before.faults()[src as int] == Some(e@));
                    }
                }
                return Err(e);
            },
        };
        let rec = match self.heads[src].take() {
            Some(rec) => rec,
            None => {
                return Ok(None);
            },
        };
        self.heads.set(src, next);
        proof {
            assert(streams[src as int].drop_first() =~= spill::decoded(s).0);
            assert(self.streams() =~= taken(streams, src as int));
            assert(self.faults() =~= before.faults());
            assert(takes(streams, src as int, rec@));
        }
        Ok(Some(rec))
    }
}

/// Whether a merge that is under way, with these streams left, completes a
/// merge of `all` of which `out` is done.
pub open spec fn completes(all: Seq<Seq<Item>>, out: Seq<Item>, left: Seq<Seq<Item>>) -> bool {
    forall|rest: Seq<Item>| #[trigger] is_merge(left, rest) ==> is_merge(all, out + rest)
}

/// Taking one more record carries a merge on.
pub proof fn lemma_completes(
    all: Seq<Seq<Item>>,
    out: Seq<Item>,
    left: Seq<Seq<Item>>,
    i: int,
    x: Item,
)
    requires
        completes(all, out, left),
        takes(left, i, x),
    ensures
        completes(all, out.push(x), taken(left, i)),
        together(taken(left, i)).len() < together(left).len(),
{
    lemma_together_taken(left, i);
    assert forall|rest: Seq<Item>| #[trigger] is_merge(taken(left, i), rest) implies is_merge(
        all,
        out.push(x) + rest,
    ) by {
        let more = seq![x] + rest;
        assert(more.drop_first() =~= rest);
        assert(more[0] == x);
        assert(is_merge(left, more));
        assert(out + more =~= out.push(x) + rest);
    }
}

/// Merge open runs, handing each record to `sink` in global order.
pub fn merge_streams<R: ByteSource, K: RecSink>(
    readers: Vec<RunReader<R>>,
    sink: &mut K,
) -> (r: Result<(), String>)
    requires
        old(sink).well_formed(),
    ensures
        final(sink).reliable() == old(sink).reliable(),
        final(sink).identity() == old(sink).identity(),
        r is Ok ==> {
            &&& final(sink).well_formed()
            &&& all_clean(bytes_left(readers@))
            &&& exists|out: Seq<Item>| #[trigger]
                is_merge(streams_in(bytes_left(readers@)), out) && final(sink).emitted() == old(sink).emitted()
                    + out
        },
        r matches Err(e) ==> all_reliable(readers@) && old(sink).reliable() ==> is_fault(
            bytes_left(readers@),
            e@,
        ),
{
    let ghost runs = bytes_left(readers@);
    let ghost all = streams_in(runs);
    let mut merger = match Merger::begin(readers) {
        Ok(m) => m,
        Err(e) => {
            return Err(e);
        },
    };
    let ghost mut out: Seq<Item> = Seq::empty();
    proof {
        assert forall|rest: Seq<Item>| #[trigger] is_merge(all, rest) implies is_merge(
            all,
            out + rest,
        ) by {
            assert(out + rest =~= rest);
        }
        assert(sink.emitted() =~= old(sink).emitted() + out);
    }
    loop
        invariant
            runs == bytes_left(readers@),
            all == streams_in(runs),
            merger.well_formed(),
            completes(all, out, merger.streams()),
            merger.faults().len() == runs.len(),
            forall|i: int|
                0 <= i < runs.len() ==> #[trigger] merger.faults()[i] == spill::decoded(runs[i]).1,
            all_reliable(readers@) ==> all_reliable(merger.readers@),
            sink.well_formed(),
            sink.reliable() == old(sink).reliable(),
            sink.identity() == old(sink).identity(),
            sink.emitted() == old(sink).emitted() + out,
        decreases together(merger.streams()).len(),
    {
        let ghost left = merger.streams();
        let ghost faults = merger.faults();
        match merger.next() {
            Ok(Some(rec)) => {
                proof {
                    let i = choose|i: int| #[trigger]
                        takes(left, i, rec@) && merger.streams() == taken(left, i);
                    lemma_completes(all, out, left, i, rec@);
                    out = out.push(rec@);
                }
                match sink.emit(rec) {
                    Ok(()) => {},
                    Err(e) => {
                        return Err(e);
                    },
                }
                assert(sink.emitted() =~= old(sink).emitted() + out);
            },
            Ok(None) => {
                proof {
                    assert(is_merge(all, out + Seq::<Item>::empty()));
                    assert(out + Seq::<Item>::empty() =~= out);
                    assert forall|i: int| 0 <= i < runs.len() implies spill::decoded(
                        #[trigger] runs[i],
                    ).1 is None by {
                        assert(faults[i] is None);
                    }
                }
                return Ok(());
            },
            Err(e) => {
                proof {
                    if all_reliable(readers@) {
                        let i = choose|i: int|
                            0 <= i < faults.len() && #[trigger] faults[i] == Some(e@);
                        assert(spill::decoded(runs[i]).1 == Some(e@));
                    }
                }
                return Err(e);
            },
        }
    }
}

// ---------------------------------------------------------------------------
// Passes

/// The bytes of each run.
pub open spec fn run_contents<S: SpillStore>(area: SpillArea<S>, runs: Seq<RunFile>) -> Seq<
    Seq<u8>,
> {
    Seq::new(runs.len(), |i: int| area.bytes(runs[i]))
}

/// Whether the runs are all there, each in a file of its own.
pub open spec fn all_held<S: SpillStore>(area: SpillArea<S>, runs: Seq<RunFile>) -> bool {
    &&& forall|i: int| 0 <= i < runs.len() ==> #[trigger] area.holds(runs[i])
    &&& forall|i: int, j: int|
        0 <= i < j < runs.len() ==> (#[trigger] runs[i]).id != (#[trigger] runs[j]).id
}

/// Whether the runs are runs of this area, each of them one of its own.
pub open spec fn all_given<S: SpillStore>(area: SpillArea<S>, runs: Seq<RunFile>) -> bool {
    &&& forall|i: int| 0 <= i < runs.len() ==> (#[trigger] runs[i]).id < area.next_id
    &&& forall|i: int, j: int|
        0 <= i < j < runs.len() ==> (#[trigger] runs[i]).id != (#[trigger] runs[j]).id
}

/// Whether `m` is a merge of the runs with these bytes, none of which is
/// corrupt.
pub open spec fn merges_to(runs: Seq<Seq<u8>>, m: Seq<Item>) -> bool {
    all_clean(runs) && is_merge(streams_in(runs), m)
}

/// `after` is what is left of the runs `before` when the oldest `fan_in` of
/// them are merged into a new one at the back, until there are no more than
/// that many.
pub open spec fn reduced(before: Seq<Seq<u8>>, after: Seq<Seq<u8>>, fan_in: nat) -> bool
    decreases before.len(),
{
    if before.len() <= fan_in || fan_in < 2 {
        after == before
    } else {
        exists|m: Seq<Item>| #[trigger]
            merges_to(before.take(fan_in as int), m) && reduced(
                before.skip(fan_in as int).push(spill::run_bytes(m)),
                after,
                fan_in,
            )
    }
}

/// How many merges bring `n` runs down to `fan_in`.
pub open spec fn pass_count(n: nat, fan_in: nat) -> nat
    decreases n,
{
    if n <= fan_in || fan_in < 2 {
        0
    } else {
        1 + pass_count((n - fan_in + 1) as nat, fan_in)
    }
}

/// The largest number of runs that are merged at once: at least two.
pub open spec fn width(fan_in: usize) -> nat {
    if fan_in < 2 {
        2
    } else {
        fan_in as nat
    }
}

/// There are no more merges than runs.
pub proof fn lemma_pass_count(n: nat, fan_in: nat)
    ensures
        pass_count(n, fan_in) <= n,
    decreases n,
{
    if !(n <= fan_in || fan_in < 2) {
        lemma_pass_count((n - fan_in + 1) as nat, fan_in);
    }
}

/// A merged run is not corrupt, and holds the merged records.
proof fn lemma_merged_run(runs: Seq<Seq<u8>>, m: Seq<Item>)
    requires
        merges_to(runs, m),
    ensures
        spill::decoded(spill::run_bytes(m)) == (m, None::<Seq<char>>),
{
    let streams = streams_in(runs);
    assert forall|j: int| 0 <= j < streams.len() implies spill::all_fit(#[trigger] streams[j]) by {
        spill::lemma_decoded_fits(runs[j]);
    }
    lemma_merge_fits(streams, m);
    spill::law_runs_read_back(m);
}

/// Open all runs of a list, if they are all there.
pub fn open_all<S: SpillStore>(area: &SpillArea<S>, runs: &Vec<RunFile>) -> (r: Result<
    Vec<RunReader<S::Reader>>,
    String,
>)
    ensures
        area.store.reliable() && (forall|i: int|
            0 <= i < runs@.len() ==> #[trigger] area.holds(runs@[i])) ==> r is Ok,
        r matches Ok(readers) ==> {
            &&& forall|i: int| 0 <= i < runs@.len() ==> #[trigger] area.holds(runs@[i])
            &&& bytes_left(readers@) == run_contents(*area, runs@)
            &&& area.store.reliable() ==> all_reliable(readers@)
        },
{
    let mut readers: Vec<RunReader<S::Reader>> = Vec::new();
    let mut i: usize = 0;
    while i < runs.len()
        invariant
            i <= runs@.len(),
            readers@.len() == i,
            forall|k: int| 0 <= k < i ==> #[trigger] area.holds(runs@[k]),
            forall|k: int|
                0 <= k < i ==> (#[trigger] readers@[k]).r.remaining() == area.bytes(runs@[k]),
            area.store.reliable() ==> all_reliable(readers@),
        decreases runs@.len() - i,
    {
        match runs[i].open(area) {
            Ok(r) => {
                readers.push(r);
            },
            Err(e) => {
                assert(!(area.store.reliable() && area.holds(runs@[i as int])));
                return Err(e);
            },
        }
        i += 1;
    }
    assert(bytes_left(readers@) =~= run_contents(*area, runs@));
    Ok(readers)
}

/// Whether one of the runs is in the file `id`.
pub open spec fn names(runs: Seq<RunFile>, id: u64) -> bool {
    exists|k: int| 0 <= k < runs.len() && (#[trigger] runs[k]).id == id
}

/// Delete all runs of a list.
fn remove_all<S: SpillStore>(area: &mut SpillArea<S>, runs: Vec<RunFile>)
    requires
        old(area).well_formed(),
    ensures
        final(area).well_formed(),
        final(area).next_id == old(area).next_id,
        final(area).store.reliable() == old(area).store.reliable(),
        forall|run: RunFile|
            old(area).holds(run) && !names(runs@, run.id) ==> #[trigger] final(area).holds(run)
                && final(area).bytes(run) == old(area).bytes(run),
        old(area).store.reliable() ==> forall|id: u64| #[trigger]
            final(area).store.files().contains_key(id) ==> old(area).store.files().contains_key(id)
                && !names(runs@, id),
{
    let ghost all = runs@;
    let mut left = runs;
    while left.len() > 0
        invariant
            all == runs@,
            left@.len() <= all.len(),
            left@ == all.take(left@.len() as int),
            area.well_formed(),
            area.next_id == old(area).next_id,
            area.store.reliable() == old(area).store.reliable(),
            forall|run: RunFile|
                old(area).holds(run) && !names(all, run.id) ==> #[trigger] area.holds(run)
                    && area.bytes(run) == old(area).bytes(run),
            area.store.reliable() ==> forall|id: u64| #[trigger]
                area.store.files().contains_key(id) ==> old(area).store.files().contains_key(id)
                    && !names(all.skip(left@.len() as int), id),
        decreases left@.len(),
    {
        let n: usize = left.len();
        let run = left.swap_remove(n - 1);
        assert(run == all[n - 1]);
        assert(left@ =~= all.take(left@.len() as int));
        let ghost gone = all.skip(n as int);
        let ghost prior = *area;
        run.remove(area);
        proof {
            assert forall|other: RunFile| old(area).holds(other) && !names(all, other.id) implies
                #[trigger] area.holds(other) && area.bytes(other) == old(area).bytes(other) by {
                assert(all[n - 1].id != other.id);
                assert(prior.holds(other));
                assert(prior.bytes(other) == old(area).bytes(other));
                assert(area.holds(other));
                assert(area.bytes(other) == prior.bytes(other));
            }
            assert forall|id: u64| names(all.skip(n - 1), id) implies names(gone, id) || id
                == all[n - 1].id by {
                let k = choose|k: int|
                    0 <= k < all.len() - n + 1 && (#[trigger] all.skip(n - 1)[k]).id == id;
                if k > 0 {
                    assert(gone[k - 1].id == id);
                }
            }
        }
    }
    assert(all.skip(0) =~= all);
}

/// Whether no file is left of the runs that have been merged: each one there
/// is holds a survivor, or was there before and is none of the runs.
pub open spec fn only_left<S: SpillStore>(
    before: SpillArea<S>,
    runs: Seq<RunFile>,
    after: SpillArea<S>,
    survivors: Seq<RunFile>,
) -> bool {
    forall|id: u64| #[trigger]
        after.store.files().contains_key(id) ==> names(survivors, id)
            || before.store.files().contains_key(id) && !names(runs, id)
}

/// Reduce `runs` with intermediate merge passes until at most `fan_in`
/// remain. Returns the surviving runs and the number of intermediate merges
/// performed. Consumed run files are deleted eagerly. Where no merge is needed
/// the survivors are the given runs.
pub fn reduce_runs<S: SpillStore>(
    area: &mut SpillArea<S>,
    runs: Vec<RunFile>,
    fan_in: usize,
) -> (r: Result<(Vec<RunFile>, u64), String>)
    requires
        old(area).well_formed(),
        all_given(*old(area), runs@),
        old(area).next_id + runs@.len() <= u64::MAX,
    ensures
        final(area).store.reliable() == old(area).store.reliable(),
        r matches Ok((survivors, passes)) ==> {
            &&& final(area).well_formed()
            &&& all_given(*final(area), survivors@)
            &&& survivors@.len() + passes * (width(fan_in) - 1) == runs@.len()
            &&& survivors@.len() <= width(fan_in)
            &&& passes == pass_count(runs@.len(), width(fan_in))
            &&& runs@.len() <= width(fan_in) ==> survivors@ == runs@ && *final(area) == *old(area)
            &&& all_held(*old(area), runs@) ==> {
                &&& all_held(*final(area), survivors@)
                &&& reduced(
                    run_contents(*old(area), runs@),
                    run_contents(*final(area), survivors@),
                    width(fan_in),
                )
            }
            &&& old(area).store.reliable() ==> only_left(
                *old(area),
                runs@,
                *final(area),
                survivors@,
            )
        },
        old(area).store.reliable() && all_held(*old(area), runs@) && all_clean(
            run_contents(*old(area), runs@),
        ) ==> r is Ok,
        runs@.len() <= width(fan_in) ==> r is Ok,
{
    let f: usize = if fan_in < 2 {
        2
    } else {
        fan_in
    };
    let ghost start = run_contents(*area, runs@);
    let ghost first_id = area.next_id;
    let ghost held = all_held(*area, runs@);
    let mut runs_left = runs;
    let mut passes: u64 = 0;
    while runs_left.len() > f
        invariant
            f == width(fan_in),
            f >= 2,
            start == run_contents(*old(area), runs@),
            held == all_held(*old(area), runs@),
            area.well_formed(),
            all_given(*area, runs_left@),
            held ==> all_held(*area, runs_left@),
            area.store.reliable() == old(area).store.reliable(),
            area.next_id == first_id + passes,
            runs@.len() <= f ==> runs_left@ == runs@ && *area == *old(area),
            runs_left@.len() + passes * (f - 1) == runs@.len(),
            first_id + runs@.len() <= u64::MAX,
            passes + runs_left@.len() <= runs@.len(),
            passes + pass_count(runs_left@.len(), f as nat) == pass_count(runs@.len(), f as nat),
            held && all_clean(start) ==> all_clean(run_contents(*area, runs_left@)),
            area.store.reliable() ==> only_left(*old(area), runs@, *area, runs_left@),
            held ==> forall|after: Seq<Seq<u8>>| #[trigger]
                reduced(run_contents(*area, runs_left@), after, f as nat) ==> reduced(
                    start,
                    after,
                    f as nat,
                ),
        decreases runs_left@.len(),
    {
        // Merge the oldest `f` runs into one new run appended at the back;
        // repeat until a single final merge is possible.
        let ghost before = run_contents(*area, runs_left@);
        let ghost all = runs_left@;
        let ghost area0 = *area;
        let rest = runs_left.split_off(f);
        let group = runs_left;
        runs_left = rest;
        proof {
            assert(group@ =~= all.take(f as int));
            assert(runs_left@ =~= all.skip(f as int));
            if held {
                assert forall|i: int| 0 <= i < group@.len() implies #[trigger] area.holds(
                    group@[i],
                ) by {
                    assert(area.holds(all[i]));
                }
            }
            assert(run_contents(*area, group@) =~= before.take(f as int));
        }
        let readers = match open_all(area, &group) {
            Ok(r) => r,
            Err(e) => {
                return Err(e);
            },
        };
        let ghost kept = run_contents(*area, group@);
        let mut out = match area.start_run() {
            Ok(w) => w,
            Err(e) => {
                return Err(e);
            },
        };
        let merged = merge_streams(readers, &mut out);
        match merged {
            Ok(()) => {},
            Err(e) => {
                proof {
                    if old(area).store.reliable() && held && all_clean(start) {
                        let i = choose|i: int|
                            0 <= i < kept.len() && spill::decoded(#[trigger] kept[i]).1 == Some(e@);
                        assert(before[i] == kept[i]);
                        assert(spill::decoded(before[i]).1 is None);
                    }
                }
                return Err(e);
            },
        }
        let ghost m = out.items@;
        proof {
            let o = choose|o: Seq<Item>| #[trigger]
                is_merge(streams_in(kept), o) && out.items@ == Seq::<Item>::empty() + o;
            assert(Seq::<Item>::empty() + o =~= o);
            assert(m == o);
            assert(merges_to(kept, m));
            lemma_merged_run(kept, m);
            assert forall|k: u64| #[trigger] area.store.files().contains_key(k) implies k < out.id by {
            }
        }
        let ghost files = area.store.files();
        proof {
            if held {
                assert forall|k: int| 0 <= k < all.len() implies files.contains_key(
                    (#[trigger] all[k]).id,
                ) by {
                    assert(area0.holds(all[k]));
                }
            }
        }
        let run = match out.finish(area) {
            Ok(run) => run,
            Err(e) => {
                return Err(e);
            },
        };
        let ghost new_id = run.id;
        runs_left.push(run);
        let ghost next = before.skip(f as int).push(spill::run_bytes(m));
        proof {
            if held {
                assert forall|i: int| 0 <= i < runs_left@.len() implies #[trigger] area.holds(
                    runs_left@[i],
                ) by {
                    if i < runs_left@.len() - 1 {
                        assert(runs_left@[i] == all[i + f]);
                    }
                }
            }
            assert forall|i: int, j: int| 0 <= i < j < runs_left@.len() implies (
            #[trigger] runs_left@[i]).id != (#[trigger] runs_left@[j]).id by {
                assert(runs_left@[i] == all[i + f]);
                if j < runs_left@.len() - 1 {
                    assert(runs_left@[j] == all[j + f]);
                } else {
                    assert(all[i + f].id < area0.next_id);
                }
            }
            assert forall|i: int| 0 <= i < runs_left@.len() implies (#[trigger] runs_left@[i]).id
                < area.next_id by {
                if i < runs_left@.len() - 1 {
                    assert(runs_left@[i] == all[i + f]);
                }
            }
            if held {
                assert(run_contents(*area, runs_left@) =~= next) by {
                    assert forall|i: int| 0 <= i < next.len() implies #[trigger] run_contents(
                        *area,
                        runs_left@,
                    )[i] == next[i] by {
                        if i < next.len() - 1 {
                            assert(runs_left@[i] == all[i + f]);
                            assert(files.contains_key(all[i + f].id));
                            assert(before[i + f] == files[all[i + f].id]);
                        }
                    }
                }
            }
        }
        let ghost area1 = *area;
        remove_all(area, group);
        proof {
            if held {
                assert forall|i: int| 0 <= i < runs_left@.len() implies #[trigger] area.holds(
                    runs_left@[i],
                ) && area.bytes(runs_left@[i]) == area1.bytes(runs_left@[i]) by {
                    assert(area1.holds(runs_left@[i]));
                    assert forall|k: int| 0 <= k < group@.len() implies (#[trigger] group@[k]).id
                        != runs_left@[i].id by {
                        assert(group@[k] == all[k]);
                        assert(files.contains_key(all[k].id));
                        if i < runs_left@.len() - 1 {
                            assert(runs_left@[i] == all[i + f]);
                        }
                    }
                }
                assert(run_contents(*area, runs_left@) =~= next) by {
                    assert forall|i: int| 0 <= i < next.len() implies #[trigger] run_contents(
                        *area,
                        runs_left@,
                    )[i] == next[i] by {
                        assert(area.holds(runs_left@[i]));
                        assert(run_contents(area1, runs_left@)[i] == next[i]);
                    }
                }
            }
            if area.store.reliable() {
                assert forall|id: u64| #[trigger] area.store.files().contains_key(id) implies names(
                    runs_left@,
                    id,
                ) || old(area).store.files().contains_key(id) && !names(runs@, id) by {
                    if id == new_id {
                        assert(runs_left@.last().id == id);
                    } else {
                        assert(area0.store.files().contains_key(id));
                        if names(all, id) {
                            let k = choose|k: int|
                                0 <= k < all.len() && (#[trigger] all[k]).id == id;
                            if k < f {
                                assert(group@[k].id == id);
                            } else {
                                assert(runs_left@[k - f].id == id);
                            }
                        }
                    }
                }
            }
            if held {
                assert forall|after: Seq<Seq<u8>>| #[trigger]
                    reduced(next, after, f as nat) implies reduced(start, after, f as nat) by {
                    assert(merges_to(before.take(f as int), m));
                    assert(reduced(before, after, f as nat));
                }
            }
            assert((passes + 1) * (f - 1) == passes * (f - 1) + (f - 1)) by (nonlinear_arith);
            assert(held && all_clean(start) ==> all_clean(next)) by {
                if held && all_clean(start) {
                    assert forall|i: int| 0 <= i < next.len() implies spill::decoded(
                        #[trigger] next[i],
                    ).1 is None by {
                        if i < next.len() - 1 {
                            assert(next[i] == before[i + f]);
                        }
                    }
                }
            }
        }
        passes += 1;
    }
    proof {
        let end = run_contents(*area, runs_left@);
        assert(reduced(end, end, f as nat));
    }
    Ok((runs_left, passes))
}

proof fn lemma_together_concat(a: Seq<Seq<Item>>, b: Seq<Seq<Item>>)
    ensures
        together(a + b) == together(a).add(together(b)),
    decreases b.len(),
{
    if b.len() == 0 {
        assert(a + b =~= a);
        assert(together(a).add(together(b)) =~= together(a));
    } else {
        assert((a + b).drop_last() =~= a + b.drop_last());
        lemma_together_concat(a, b.drop_last());
        assert(together(a + b) =~= together(a).add(together(b)));
    }
}

/// Whether every run is intact and in order.
pub open spec fn all_in_order(runs: Seq<Seq<u8>>) -> bool {
    all_clean(runs) && forall|i: int|
        0 <= i < runs.len() ==> arrange::in_order(spill::decoded(#[trigger] runs[i]).0)
}

proof fn lemma_pass_in_order(before: Seq<Seq<u8>>, f: int, m: Seq<Item>)
    requires
        0 <= f <= before.len(),
        merges_to(before.take(f), m),
        all_in_order(before),
    ensures
        all_in_order(before.skip(f).push(spill::run_bytes(m))),
{
    let head = before.take(f);
    let next = before.skip(f).push(spill::run_bytes(m));
    lemma_merged_run(head, m);
    assert forall|j: int| 0 <= j < head.len() implies arrange::in_order(
        #[trigger] streams_in(head)[j],
    ) by {
        assert(arrange::in_order(spill::decoded(before[j]).0));
    }
    law_merge_keeps_order(streams_in(head), m);
    assert forall|i: int| 0 <= i < next.len() implies arrange::in_order(
        spill::decoded(#[trigger] next[i]).0,
    ) && spill::decoded(next[i]).1 is None by {
        if i < next.len() - 1 {
            assert(next[i] == before[i + f]);
        }
    }
}

proof fn lemma_pass_together(before: Seq<Seq<u8>>, f: int, m: Seq<Item>)
    requires
        0 <= f <= before.len(),
        merges_to(before.take(f), m),
    ensures
        together(streams_in(before.skip(f).push(spill::run_bytes(m)))) == together(
            streams_in(before),
        ),
{
    let head = before.take(f);
    let tail = before.skip(f);
    let next = tail.push(spill::run_bytes(m));
    lemma_merged_run(head, m);
    law_merge_keeps_records(streams_in(head), m);
    let h = streams_in(head);
    let t = streams_in(tail);
    assert(streams_in(before) =~= h + t);
    lemma_together_concat(h, t);
    assert(streams_in(next) =~= t.push(m));
    assert(t.push(m).drop_last() =~= t);
    assert(together(t.push(m)) == together(t).add(together(h)));
    assert(together(t).add(together(h)) =~= together(h).add(together(t)));
}

/// Merge passes lose no record, invent none, and leave every run in order.
pub proof fn law_passes_keep_records(before: Seq<Seq<u8>>, after: Seq<Seq<u8>>, fan_in: nat)
    requires
        reduced(before, after, fan_in),
        all_in_order(before),
    ensures
        all_in_order(after),
        together(streams_in(after)) == together(streams_in(before)),
    decreases before.len(),
{
    if !(before.len() <= fan_in || fan_in < 2) {
        let f = fan_in as int;
        let m = choose|m: Seq<Item>| #[trigger]
            merges_to(before.take(f), m) && reduced(
                before.skip(f).push(spill::run_bytes(m)),
                after,
                fan_in,
            );
        lemma_pass_in_order(before, f, m);
        lemma_pass_together(before, f, m);
        law_passes_keep_records(before.skip(f).push(spill::run_bytes(m)), after, fan_in);
    }
}

} // verus!
