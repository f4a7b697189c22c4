//! Sorted runs outside of memory: length-prefixed binary records in a
//! private store.
//!
//! When the in-memory buffer reaches the `--mem` cap, it is sorted and
//! written out as a *run*. Each spilled record carries its already-encoded
//! key, so merging never re-parses CSV or JSON.

use std::cmp::Ordering;

use vstd::prelude::*;

use crate::io::{ByteSink, ByteSource, SpillStore};
use crate::order;
use crate::text;

verus! {

/// One record flowing through the sorter: the encoded key, the input
/// sequence number (tie-breaker that makes the sort stable), and the raw
/// record bytes that will be emitted verbatim.
#[derive(Debug, PartialEq, Eq)]
pub struct Rec {
    pub key: Vec<u8>,
    pub seq: u64,
    pub raw: Vec<u8>,
}

/// What a record holds, as a mathematical value.
pub struct Item {
    pub key: Seq<u8>,
    pub seq: u64,
    pub raw: Seq<u8>,
}

impl View for Rec {
    type V = Item;

    open spec fn view(&self) -> Item {
        Item { key: self.key@, seq: self.seq, raw: self.raw@ }
    }
}

/// What the records of a list hold.
pub open spec fn views(list: Seq<Rec>) -> Seq<Item> {
    Seq::new(list.len(), |i: int| list[i]@)
}

impl Clone for Rec {
    fn clone(&self) -> (r: Self)
        ensures
            r@ == self@,
    {
        let mut key: Vec<u8> = Vec::new();
        key.extend_from_slice(self.key.as_slice());
        let mut raw: Vec<u8> = Vec::new();
        raw.extend_from_slice(self.raw.as_slice());
        assert(key@ =~= self.key@);
        assert(raw@ =~= self.raw@);
        Rec { key, seq: self.seq, raw }
    }
}

/// The one total order used everywhere: encoded key bytes, and for equal
/// keys the input order.
pub open spec fn item_before(a: Item, b: Item) -> bool {
    order::bytes_lt(a.key, b.key) || (a.key == b.key && a.seq < b.seq)
}

/// The memory that a record takes, approximately.
pub open spec fn item_cost(a: Item) -> int {
    a.key.len() as int + a.raw.len() + 64
}

/// The smaller of a number and the largest machine number.
pub open spec fn capped(n: int) -> int {
    if n <= u64::MAX {
        n
    } else {
        u64::MAX as int
    }
}

impl Rec {
    /// Approximate heap footprint, used for the `--mem` accounting. The
    /// constant covers the three vector headers plus allocator slack.
    pub fn cost(&self) -> (r: u64)
        ensures
            r == capped(item_cost(self@)),
    {
        let k = self.key.len() as u64;
        let w = self.raw.len() as u64;
        k.saturating_add(w).saturating_add(64)
    }

    /// Whether this record comes before another one.
    pub fn before(&self, other: &Rec) -> (r: bool)
        ensures
            r == item_before(self@, other@),
    {
        if order::before(self.key.as_slice(), other.key.as_slice()) {
            return true;
        }
        self.seq < other.seq && order::same(self.key.as_slice(), other.key.as_slice())
    }

    /// The one total order used everywhere: encoded key bytes, then input
    /// order. Distinct records never compare equal because `seq` is unique.
    pub fn cmp_order(&self, other: &Rec) -> (r: Ordering)
        ensures
            r == Ordering::Less <==> item_before(self@, other@),
            r == Ordering::Greater <==> item_before(other@, self@),
            r == Ordering::Equal <==> self.key@ == other.key@ && self.seq == other.seq,
    {
        proof {
            lemma_item_order(self@, other@);
        }
        if self.before(other) {
            Ordering::Less
        } else if other.before(self) {
            Ordering::Greater
        } else {
            Ordering::Equal
        }
    }
}

/// Two records are before or after each other, or have the same key and
/// sequence number.
pub proof fn lemma_item_order(a: Item, b: Item)
    ensures
        !(item_before(a, b) && item_before(b, a)),
        !item_before(a, b) && !item_before(b, a) <==> a.key == b.key && a.seq == b.seq,
{
    order::lemma_trichotomy(a.key, b.key);
    order::lemma_irreflexive(a.key);
}

/// The order is transitive, and so is "not after".
pub proof fn lemma_item_transitive(a: Item, b: Item, c: Item)
    ensures
        item_before(a, b) && item_before(b, c) ==> item_before(a, c),
        !item_before(b, a) && !item_before(c, b) ==> !item_before(c, a),
{
    order::lemma_trichotomy(a.key, b.key);
    order::lemma_trichotomy(b.key, c.key);
    order::lemma_trichotomy(a.key, c.key);
    if order::bytes_lt(a.key, b.key) && order::bytes_lt(b.key, c.key) {
        order::lemma_transitive(a.key, b.key, c.key);
    }
    if order::bytes_lt(c.key, a.key) && order::bytes_lt(a.key, b.key) {
        order::lemma_transitive(c.key, a.key, b.key);
    }
    if order::bytes_lt(b.key, c.key) && order::bytes_lt(c.key, a.key) {
        order::lemma_transitive(b.key, c.key, a.key);
    }
}

// ---------------------------------------------------------------------------
// The run format

/// The `w` low bytes of `n`, least significant first.
pub open spec fn little_endian(n: nat, w: nat) -> Seq<u8>
    decreases w,
{
    if w == 0 {
        Seq::empty()
    } else {
        seq![(n % 256) as u8] + little_endian(n / 256, (w - 1) as nat)
    }
}

/// The number that bytes hold, least significant first.
pub open spec fn little_value(s: Seq<u8>) -> nat
    decreases s.len(),
{
    if s.len() == 0 {
        0
    } else {
        s[0] as nat + 256 * little_value(s.drop_first())
    }
}

/// A length as the header of a record gives it. The largest number of four
/// bytes says that the length stands in eight bytes before what it measures.
pub open spec fn short(n: nat) -> nat {
    if n < u32::MAX {
        n
    } else {
        u32::MAX as nat
    }
}

/// The key or the raw bytes of a record, after their length if the header has
/// no room for it.
pub open spec fn body_bytes(b: Seq<u8>) -> Seq<u8> {
    if b.len() < u32::MAX {
        b
    } else {
        little_endian(b.len(), 8) + b
    }
}

/// A record in a run: the length of its key in four bytes, its sequence number
/// in eight and the length of its raw bytes in four, and then key and raw
/// bytes.
pub open spec fn item_bytes(a: Item) -> Seq<u8> {
    little_endian(short(a.key.len()), 4) + little_endian(a.seq as nat, 8) + little_endian(
        short(a.raw.len()),
        4,
    ) + body_bytes(a.key) + body_bytes(a.raw)
}

/// The records of a run, one after the other.
pub open spec fn run_bytes(list: Seq<Item>) -> Seq<u8>
    decreases list.len(),
{
    if list.len() == 0 {
        Seq::empty()
    } else {
        run_bytes(list.drop_last()) + item_bytes(list.last())
    }
}

/// What reading one record from a run gives.
pub enum Chunk {
    /// The run has ended.
    End,
    /// What is left is no record.
    Corrupt { reason: Seq<char> },
    /// A record and what follows it.
    Next { item: Item, rest: Seq<u8> },
}

/// The key or the raw bytes at the front of `s`, for which the header gives
/// the length `n`, and what follows them; unless they are not all there. A
/// length that memory cannot hold is taken for one of bytes that are not.
pub open spec fn body(s: Seq<u8>, n: nat) -> Option<(Seq<u8>, Seq<u8>)> {
    if n < u32::MAX {
        if s.len() < n {
            None
        } else {
            Some((s.take(n as int), s.skip(n as int)))
        }
    } else if s.len() < 8 {
        None
    } else {
        let long = little_value(s.take(8)) as int;
        if s.len() < 8 + long || long > usize::MAX {
            None
        } else {
            Some((s.subrange(8, 8 + long), s.skip(8 + long)))
        }
    }
}

/// What the run that holds `s` begins with.
pub open spec fn chunk(s: Seq<u8>) -> Chunk {
    if s.len() == 0 {
        Chunk::End
    } else if s.len() < 4 {
        Chunk::Corrupt { reason: "corrupt run file: truncated length prefix"@ }
    } else if s.len() < 16 {
        Chunk::Corrupt { reason: "corrupt run file: truncated record header"@ }
    } else {
        match body(s.skip(16), little_value(s.subrange(0, 4))) {
            None => Chunk::Corrupt { reason: "corrupt run file: truncated key"@ },
            Some((key, more)) => match body(more, little_value(s.subrange(12, 16))) {
                None => Chunk::Corrupt { reason: "corrupt run file: truncated record"@ },
                Some((raw, rest)) => Chunk::Next {
                    item: Item { key, seq: little_value(s.subrange(4, 12)) as u64, raw },
                    rest,
                },
            },
        }
    }
}

/// Whether memory can hold the key and the raw bytes of a record.
pub open spec fn fits(a: Item) -> bool {
    a.key.len() <= usize::MAX && a.raw.len() <= usize::MAX
}

/// Whether memory can hold each of the records.
pub open spec fn all_fit(list: Seq<Item>) -> bool {
    forall|i: int| 0 <= i < list.len() ==> fits(#[trigger] list[i])
}

proof fn lemma_little_endian(n: nat, w: nat)
    requires
        w == 4 || w == 8,
    ensures
        little_endian(n, w).len() == w,
        w == 4 && n <= u32::MAX ==> little_value(little_endian(n, w)) == n,
        w == 8 && n <= u64::MAX ==> little_value(little_endian(n, w)) == n,
{
    lemma_little_value(n, w);
    reveal_with_fuel(leftover, 9);
}

/// What is left of `n` above its `w` low bytes.
spec fn leftover(n: nat, w: nat) -> nat
    decreases w,
{
    if w == 0 {
        n
    } else {
        leftover(n / 256, (w - 1) as nat)
    }
}

proof fn lemma_little_value(n: nat, w: nat)
    ensures
        little_endian(n, w).len() == w,
        leftover(n, w) == 0 ==> little_value(little_endian(n, w)) == n,
    decreases w,
{
    if w > 0 {
        lemma_little_value(n / 256, (w - 1) as nat);
        let s = little_endian(n, w);
        assert(s.drop_first() =~= little_endian(n / 256, (w - 1) as nat));
    }
}

/// The key or the raw bytes of a record read back, whatever follows them.
proof fn lemma_body_reads_back(b: Seq<u8>, rest: Seq<u8>)
    requires
        b.len() <= usize::MAX,
    ensures
        body(body_bytes(b) + rest, short(b.len())) == Some((b, rest)),
{
    let s = body_bytes(b) + rest;
    let n = b.len() as int;
    if n < u32::MAX {
        assert(s.take(n) =~= b);
        assert(s.skip(n) =~= rest);
    } else {
        lemma_little_endian(b.len(), 8);
        assert(s.take(8) =~= little_endian(b.len(), 8));
        assert(s.subrange(8, 8 + n) =~= b);
        assert(s.skip(8 + n) =~= rest);
    }
}

/// What is written to a run reads back as it was, whatever follows it.
pub proof fn law_records_read_back(a: Item, rest: Seq<u8>)
    requires
        fits(a),
    ensures
        chunk(item_bytes(a) + rest) == (Chunk::Next { item: a, rest }),
{
    let s = item_bytes(a) + rest;
    lemma_little_endian(short(a.key.len()), 4);
    lemma_little_endian(a.seq as nat, 8);
    lemma_little_endian(short(a.raw.len()), 4);
    assert(s.subrange(0, 4) =~= little_endian(short(a.key.len()), 4));
    assert(s.subrange(4, 12) =~= little_endian(a.seq as nat, 8));
    assert(s.subrange(12, 16) =~= little_endian(short(a.raw.len()), 4));
    let more = body_bytes(a.raw) + rest;
    assert(s.skip(16) =~= body_bytes(a.key) + more);
    lemma_body_reads_back(a.key, more);
    lemma_body_reads_back(a.raw, rest);
}

/// The records that a run holds, and what is wrong after them, if anything.
pub open spec fn decoded(s: Seq<u8>) -> (Seq<Item>, Option<Seq<char>>)
    decreases s.len(),
{
    match chunk(s) {
        Chunk::End => (Seq::empty(), None),
        Chunk::Corrupt { reason } => (Seq::empty(), Some(reason)),
        Chunk::Next { item, rest } => if rest.len() < s.len() {
            let (items, error) = decoded(rest);
            (seq![item] + items, error)
        } else {
            (Seq::empty(), None)
        },
    }
}

/// A run decodes to the records that it was written from.
pub proof fn law_runs_read_back(list: Seq<Item>)
    requires
        all_fit(list),
    ensures
        decoded(run_bytes(list)) == (list, None::<Seq<char>>),
    decreases list.len(),
{
    lemma_run_prefix(list, Seq::empty());
    assert(run_bytes(list) + Seq::<u8>::empty() =~= run_bytes(list));
    assert(list + Seq::<Item>::empty() =~= list);
    assert(decoded(Seq::<u8>::empty()) == (Seq::<Item>::empty(), None::<Seq<char>>));
}

/// A run decodes to its first record and what the rest decodes to.
proof fn lemma_decoded_step(a: Item, rest: Seq<u8>)
    requires
        fits(a),
    ensures
        decoded(item_bytes(a) + rest) == (seq![a] + decoded(rest).0, decoded(rest).1),
{
    law_records_read_back(a, rest);
    lemma_little_endian(a.seq as nat, 8);
    assert(rest.len() < (item_bytes(a) + rest).len());
}

proof fn lemma_run_prefix(list: Seq<Item>, rest: Seq<u8>)
    requires
        all_fit(list),
    ensures
        decoded(run_bytes(list) + rest) == (list + decoded(rest).0, decoded(rest).1),
    decreases list.len(),
{
    if list.len() == 0 {
        assert(run_bytes(list) + rest =~= rest);
        assert(list + decoded(rest).0 =~= decoded(rest).0);
    } else {
        let last = list.last();
        let more = item_bytes(last) + rest;
        lemma_run_prefix(list.drop_last(), more);
        lemma_decoded_step(last, rest);
        assert(run_bytes(list) + rest =~= run_bytes(list.drop_last()) + more);
        assert(list.drop_last() + (seq![last] + decoded(rest).0) =~= list + decoded(rest).0);
    }
}

/// Records read from a run fit.
pub proof fn lemma_decoded_fits(s: Seq<u8>)
    ensures
        all_fit(decoded(s).0),
    decreases s.len(),
{
    match chunk(s) {
        Chunk::Next { item, rest } => {
            if rest.len() < s.len() {
                lemma_decoded_fits(rest);
            }
        },
        _ => {},
    }
}

/// Reading a record takes some bytes.
pub proof fn lemma_chunk_shorter(s: Seq<u8>)
    ensures
        chunk(s) matches Chunk::Next { rest, .. } ==> rest.len() < s.len(),
{
}

// ---------------------------------------------------------------------------
// Writing

/// Append the `w` low bytes of `n`, least significant first.
fn push_little_endian(out: &mut Vec<u8>, n: u64, w: u8)
    ensures
        final(out)@ == old(out)@ + little_endian(n as nat, w as nat),
    decreases w,
{
    if w > 0 {
        out.push((n % 256) as u8);
        push_little_endian(out, n / 256, w - 1);
    }
    assert(out@ =~= old(out)@ + little_endian(n as nat, w as nat));
}

/// Append a length as the header of a record gives it.
fn push_short(out: &mut Vec<u8>, n: usize)
    ensures
        final(out)@ == old(out)@ + little_endian(short(n as nat), 4),
{
    let n = n as u64;
    let short_n: u64 = if n < u32::MAX as u64 {
        n
    } else {
        u32::MAX as u64
    };
    push_little_endian(out, short_n, 4);
}

/// Append the key or the raw bytes of a record.
fn push_body(out: &mut Vec<u8>, bytes: &[u8])
    ensures
        final(out)@ == old(out)@ + body_bytes(bytes@),
{
    let n = bytes.len() as u64;
    if n >= u32::MAX as u64 {
        push_little_endian(out, n, 8);
    }
    out.extend_from_slice(bytes);
    assert(out@ =~= old(out)@ + body_bytes(bytes@));
}

/// Write one record to a run.
fn write_rec<W: ByteSink>(w: &mut W, rec: &Rec) -> (r: Result<(), String>)
    ensures
        final(w).reliable() == old(w).reliable(),
        r matches Err(e) ==> !old(w).reliable() && text::announces(e@, "cannot write run: "@),
        r is Ok ==> final(w).written() == old(w).written() + item_bytes(rec@),
{
    let mut bytes: Vec<u8> = Vec::new();
    push_short(&mut bytes, rec.key.len());
    push_little_endian(&mut bytes, rec.seq, 8);
    push_short(&mut bytes, rec.raw.len());
    push_body(&mut bytes, rec.key.as_slice());
    push_body(&mut bytes, rec.raw.as_slice());
    assert(bytes@ =~= item_bytes(rec@));
    match w.write_all(bytes.as_slice()) {
        Ok(()) => Ok(()),
        Err(e) => Err(text::join2("cannot write run: ", e.as_str())),
    }
}

/// A store of its own for run files.
pub struct SpillArea<S: SpillStore> {
    pub store: S,
    pub next_id: u64,
}

/// A finished run in the store.
pub struct RunFile {
    pub id: u64,
}

/// Incremental writer for a run produced by an intermediate merge.
pub struct RunWriter<W: ByteSink> {
    pub w: W,
    pub id: u64,
    /// The records written so far.
    pub items: Ghost<Seq<Item>>,
}

/// Streaming reader over one run, in the order it was written.
pub struct RunReader<R: ByteSource> {
    pub r: R,
}

impl<W: ByteSink> RunWriter<W> {
    /// Whether the run holds the records written so far.
    pub open spec fn well_formed(&self) -> bool {
        self.w.written() == run_bytes(self.items@)
    }

    pub fn push(&mut self, rec: &Rec) -> (r: Result<(), String>)
        requires
            old(self).well_formed(),
        ensures
            final(self).id == old(self).id,
            final(self).w.reliable() == old(self).w.reliable(),
            r matches Err(e) ==> !old(self).w.reliable() && text::announces(
                e@,
                "cannot write run: "@,
            ),
            r is Ok ==> final(self).well_formed() && final(self).items@ == old(self).items@.push(
                rec@,
            ),
    {
        let done = write_rec(&mut self.w, rec);
        proof {
            self.items@ = old(self).items@.push(rec@);
            assert(self.items@.drop_last() =~= old(self).items@);
        }
        done
    }

    pub fn finish<S: SpillStore<Writer = W>>(self, area: &mut SpillArea<S>) -> (r: Result<
        RunFile,
        String,
    >)
        requires
            self.well_formed(),
            old(area).well_formed(),
            self.id < old(area).next_id,
            !old(area).store.files().contains_key(self.id),
        ensures
            final(area).next_id == old(area).next_id,
            final(area).store.reliable() == old(area).store.reliable(),
            old(area).store.reliable() && self.w.reliable() ==> r is Ok,
            r matches Err(e) ==> text::announces(e@, "cannot write run: "@),
            r matches Ok(run) ==> {
                &&& run.id == self.id
                &&& final(area).well_formed()
                &&& final(area).store.files() == old(area).store.files().insert(
                    run.id,
                    run_bytes(self.items@),
                )
            },
    {
        let mut w = self.w;
        match w.flush() {
            Ok(()) => {},
            Err(e) => {
                return Err(text::join2("cannot write run: ", e.as_str()));
            },
        }
        match area.store.close(self.id, w) {
            Ok(()) => Ok(RunFile { id: self.id }),
            Err(e) => Err(text::join2("cannot write run: ", e.as_str())),
        }
    }
}

impl<S: SpillStore> SpillArea<S> {
    /// Whether the numbers of all files have been given out.
    pub open spec fn well_formed(&self) -> bool {
        forall|id: u64| #[trigger] self.store.files().contains_key(id) ==> id < self.next_id
    }

    /// Whether the run is there.
    pub open spec fn holds(&self, run: RunFile) -> bool {
        self.store.files().contains_key(run.id)
    }

    /// The bytes of a run.
    pub open spec fn bytes(&self, run: RunFile) -> Seq<u8> {
        self.store.files()[run.id]
    }

    /// Set up a spill area of its own in `store`.
    pub fn create(store: S) -> (r: Result<SpillArea<S>, String>)
        ensures
            store.reliable() ==> r is Ok,
            r matches Ok(area) ==> {
                &&& area.well_formed()
                &&& area.next_id == 0
                &&& area.store.reliable() == store.reliable()
                &&& area.store.files() == Map::<u64, Seq<u8>>::empty()
            },
    {
        let mut store = store;
        match store.prepare() {
            Ok(()) => Ok(SpillArea { store, next_id: 0 }),
            Err(e) => Err(e),
        }
    }

    /// Start a new run written incrementally (used by intermediate merge
    /// passes, where the merged output is itself a run).
    pub fn start_run(&mut self) -> (r: Result<RunWriter<S::Writer>, String>)
        requires
            old(self).well_formed(),
            old(self).next_id < u64::MAX,
        ensures
            final(self).well_formed(),
            final(self).store.files() == old(self).store.files(),
            final(self).store.reliable() == old(self).store.reliable(),
            final(self).next_id == old(self).next_id + 1,
            old(self).store.reliable() ==> r is Ok,
            r matches Ok(w) ==> {
                &&& w.well_formed()
                &&& w.items@ == Seq::<Item>::empty()
                &&& w.id == old(self).next_id
                &&& old(self).store.reliable() ==> w.w.reliable()
            },
    {
        let id = self.next_id;
        self.next_id = id + 1;
        match self.store.create(id) {
            Ok(w) => Ok(RunWriter { w, id, items: Ghost(Seq::empty()) }),
            Err(e) => Err(e),
        }
    }

    /// Write one sorted run. `records` must already be in `cmp_order` for
    /// the run to take part in a merge.
    pub fn write_run(&mut self, records: &[Rec]) -> (r: Result<RunFile, String>)
        requires
            old(self).well_formed(),
            old(self).next_id < u64::MAX,
        ensures
            final(self).store.reliable() == old(self).store.reliable(),
            final(self).next_id == old(self).next_id + 1,
            old(self).store.reliable() ==> r is Ok,
            r matches Ok(run) ==> {
                &&& final(self).well_formed()
                &&& run.id == old(self).next_id
                &&& final(self).store.files() == old(self).store.files().insert(
                    run.id,
                    run_bytes(views(records@)),
                )
            },
    {
        let mut w = match self.start_run() {
            Ok(w) => w,
            Err(e) => {
                return Err(e);
            },
        };
        let mut i: usize = 0;
        assert(views(records@).take(0) =~= Seq::<Item>::empty());
        while i < records.len()
            invariant
                i <= records@.len(),
                w.well_formed(),
                w.id == old(self).next_id,
                w.items@ == views(records@).take(i as int),
                self.well_formed(),
                self.next_id == old(self).next_id + 1,
                self.store.files() == old(self).store.files(),
                self.store.reliable() == old(self).store.reliable(),
                old(self).store.reliable() ==> w.w.reliable(),
            decreases records@.len() - i,
        {
            match w.push(&records[i]) {
                Ok(()) => {},
                Err(e) => {
                    return Err(e);
                },
            }
            i += 1;
            assert(w.items@ =~= views(records@).take(i as int));
        }
        assert(views(records@).take(i as int) =~= views(records@));
        proof {
            assert(!old(self).store.files().contains_key(old(self).next_id));
        }
        w.finish(self)
    }
}

// ---------------------------------------------------------------------------
// Reading

/// As many as `n` bytes; fewer only at the end.
pub open spec fn at_most(s: Seq<u8>, n: nat) -> Seq<u8> {
    if n <= s.len() {
        s.take(n as int)
    } else {
        s
    }
}

/// Read `n` bytes, or what is left of them at the end.
fn read_bytes<R: ByteSource>(r: &mut R, n: usize) -> (res: Result<Vec<u8>, String>)
    ensures
        final(r).reliable() == old(r).reliable(),
        old(r).reliable() ==> res is Ok,
        res matches Ok(v) ==> {
            &&& v@ == at_most(old(r).remaining(), n as nat)
            &&& final(r).remaining() == old(r).remaining().skip(v@.len() as int)
        },
{
    let mut out: Vec<u8> = Vec::new();
    let ghost s = r.remaining();
    assert(s.skip(0) =~= s);
    assert(s.take(0) =~= Seq::<u8>::empty());
    while out.len() < n
        invariant
            s == old(r).remaining(),
            r.reliable() == old(r).reliable(),
            out@.len() <= n,
            out@.len() <= s.len(),
            out@ == s.take(out@.len() as int),
            r.remaining() == s.skip(out@.len() as int),
        ensures
            r.reliable() == old(r).reliable(),
            out@.len() <= n,
            out@.len() <= s.len(),
            out@ == s.take(out@.len() as int),
            r.remaining() == s.skip(out@.len() as int),
            out@.len() == n || out@.len() == s.len(),
        decreases n - out@.len(),
    {
        match r.fill() {
            Ok(()) => {},
            Err(e) => {
                return Err(e);
            },
        }
        let have: usize = r.buffer().len();
        if have == 0 {
            break;
        }
        let want: usize = n - out.len();
        let m: usize = if have < want {
            have
        } else {
            want
        };
        let ghost done = out@;
        let ghost rest = r.remaining();
        out.extend_from_slice(vstd::slice::slice_subrange(r.buffer(), 0, m));
        r.consume(m);
        proof {
            assert(out@ =~= s.take(done.len() + m));
            assert(r.remaining() =~= s.skip(done.len() + m));
        }
    }
    Ok(out)
}

/// `256^w`.
spec fn cap(w: nat) -> nat
    decreases w,
{
    if w == 0 {
        1
    } else {
        256 * cap((w - 1) as nat)
    }
}

proof fn lemma_cap(w: nat)
    requires
        w <= 7,
    ensures
        cap(w) <= cap(7),
        cap(7) == 0x100_0000_0000_0000,
        cap(w) >= 1,
    decreases 7 - w,
{
    reveal_with_fuel(cap, 8);
}

/// The number that the bytes from `from` to `to` hold, least significant
/// first.
fn little_number(bytes: &[u8], from: usize, to: usize) -> (r: u64)
    requires
        from <= to <= bytes@.len(),
        to - from <= 8,
    ensures
        r == little_value(bytes@.subrange(from as int, to as int)),
{
    let mut v: u64 = 0;
    let mut i: usize = to;
    assert(bytes@.subrange(to as int, to as int) =~= Seq::<u8>::empty());
    while i > from
        invariant
            from <= i <= to <= bytes@.len(),
            to - from <= 8,
            v == little_value(bytes@.subrange(i as int, to as int)),
            v < cap((to - i) as nat),
        decreases i,
    {
        i -= 1;
        proof {
            let s = bytes@.subrange(i as int, to as int);
            assert(s.drop_first() =~= bytes@.subrange(i + 1, to as int));
            lemma_cap((to - i - 1) as nat);
        }
        v = bytes[i] as u64 + 256 * v;
    }
    v
}

/// Read the key or the raw bytes of a record, for which the header gives the
/// length `n`; `None` if they are not all there or cannot be read.
fn read_body<R: ByteSource>(r: &mut R, n: u64) -> (res: Option<Vec<u8>>)
    ensures
        final(r).reliable() == old(r).reliable(),
        match (res, body(old(r).remaining(), n as nat)) {
            (Some(v), Some((bytes, rest))) => v@ == bytes && final(r).remaining() == rest,
            (None, Some(_)) => !old(r).reliable(),
            (None, None) => true,
            (Some(_), None) => false,
        },
{
    let ghost s = r.remaining();
    let mut len: u64 = n;
    if n >= u32::MAX as u64 {
        let prefix = match read_bytes(r, 8) {
            Ok(b) => b,
            Err(_e) => {
                return None;
            },
        };
        if prefix.len() < 8 {
            return None;
        }
        len = little_number(prefix.as_slice(), 0, 8);
        assert(prefix@.subrange(0, 8) =~= s.take(8));
    }
    let ghost from = if n < u32::MAX {
        0int
    } else {
        8int
    };
    assert(r.remaining() =~= s.skip(from));
    if len > usize::MAX as u64 {
        return None;
    }
    let bytes = match read_bytes(r, len as usize) {
        Ok(b) => b,
        Err(_e) => {
            return None;
        },
    };
    if bytes.len() < len as usize {
        return None;
    }
    assert(bytes@ =~= s.subrange(from, from + len));
    assert(s.subrange(0, len as int) =~= s.take(len as int));
    assert(r.remaining() =~= s.skip(from + len));
    Some(bytes)
}

/// Whether a message says that a run could not be read, or not to the end of
/// a record.
pub open spec fn is_run_error(e: Seq<char>) -> bool {
    ||| text::announces(e, "cannot read run file: "@)
    ||| e == "corrupt run file: truncated record header"@
    ||| e == "corrupt run file: truncated key"@
    ||| e == "corrupt run file: truncated record"@
}

impl<R: ByteSource> RunReader<R> {
    /// The next record, or `None` at the end of the run.
    pub fn next_rec(&mut self) -> (res: Result<Option<Rec>, String>)
        ensures
            final(self).r.reliable() == old(self).r.reliable(),
            match (res, chunk(old(self).r.remaining())) {
                (Ok(None), Chunk::End) => final(self).r.remaining().len() == 0,
                (Err(e), Chunk::Corrupt { reason }) => e@ == reason || (!old(self).r.reliable()
                    && is_run_error(e@)),
                (Err(e), _) => !old(self).r.reliable() && is_run_error(e@),
                (Ok(Some(rec)), Chunk::Next { item, rest }) => {
                    &&& rec@ == item
                    &&& final(self).r.remaining() == rest
                },
                _ => false,
            },
    {
        let ghost s = self.r.remaining();
        // The key-length prefix doubles as the probe for the end: zero bytes
        // here is a clean end, anything partial is corruption worth
        // reporting.
        let prefix = match read_bytes(&mut self.r, 4) {
            Ok(b) => b,
            Err(e) => {
                return Err(text::join2("cannot read run file: ", e.as_str()));
            },
        };
        if prefix.len() == 0 {
            return Ok(None);
        }
        if prefix.len() < 4 {
            return Err(text::owned("corrupt run file: truncated length prefix"));
        }
        let key_len = little_number(prefix.as_slice(), 0, 4);
        let head = match read_bytes(&mut self.r, 12) {
            Ok(b) => b,
            Err(_e) => Vec::new(),
        };
        if head.len() < 12 {
            return Err(text::owned("corrupt run file: truncated record header"));
        }
        let seq = little_number(head.as_slice(), 0, 8);
        let raw_len = little_number(head.as_slice(), 8, 12);
        proof {
            assert(prefix@.subrange(0, 4) =~= s.subrange(0, 4));
            assert(head@.subrange(0, 8) =~= s.subrange(4, 12));
            assert(head@.subrange(8, 12) =~= s.subrange(12, 16));
            assert(self.r.remaining() =~= s.skip(16));
        }
        let key = match read_body(&mut self.r, key_len) {
            Some(b) => b,
            None => {
                return Err(text::owned("corrupt run file: truncated key"));
            },
        };
        let raw = match read_body(&mut self.r, raw_len) {
            Some(b) => b,
            None => {
                return Err(text::owned("corrupt run file: truncated record"));
            },
        };
        Ok(Some(Rec { key, seq, raw }))
    }
}

impl RunFile {
    /// Open the run for reading, if it is there.
    pub fn open<S: SpillStore>(&self, area: &SpillArea<S>) -> (r: Result<
        RunReader<S::Reader>,
        String,
    >)
        ensures
            area.store.reliable() && area.holds(*self) ==> r is Ok,
            r matches Ok(reader) ==> {
                &&& area.holds(*self)
                &&& reader.r.remaining() == area.bytes(*self)
                &&& area.store.reliable() ==> reader.r.reliable()
            },
    {
        match area.store.open(self.id) {
            Ok(r) => Ok(RunReader { r }),
            Err(e) => Err(e),
        }
    }

    /// Delete the backing file once a merge has consumed it, so peak disk
    /// usage stays near 2x input instead of growing with every pass.
    pub fn remove<S: SpillStore>(self, area: &mut SpillArea<S>)
        requires
            old(area).well_formed(),
        ensures
            final(area).well_formed(),
            final(area).next_id == old(area).next_id,
            final(area).store.reliable() == old(area).store.reliable(),
            old(area).store.reliable() ==> final(area).store.files()
                == old(area).store.files().remove(self.id),
            forall|run: RunFile|
                run.id != self.id && old(area).holds(run) ==> #[trigger] final(area).holds(run)
                    && final(area).bytes(run) == old(area).bytes(run),
    {
        area.store.remove(self.id);
        proof {
            assert forall|run: RunFile| run.id != self.id && old(area).holds(run) implies
                #[trigger] area.holds(run) && area.bytes(run) == old(area).bytes(run) by {
                let b = area.store.files()[run.id];
            }
        }
    }
}

proof fn lemma_body_cut(b: Seq<u8>, n: int)
    requires
        b.len() <= usize::MAX,
        0 <= n < body_bytes(b).len(),
    ensures
        body(body_bytes(b).take(n), short(b.len())) is None,
{
    let s = body_bytes(b).take(n);
    if b.len() >= u32::MAX && n >= 8 {
        lemma_little_endian(b.len(), 8);
        assert(s.take(8) =~= little_endian(b.len(), 8));
    } else if b.len() >= u32::MAX {
        lemma_little_endian(b.len(), 8);
    }
}

/// A record that is cut off anywhere is reported, and never taken for a
/// shorter one or for the end of the run.
pub proof fn law_cut_records_are_reported(a: Item, n: int)
    requires
        fits(a),
        0 < n < item_bytes(a).len(),
    ensures
        chunk(item_bytes(a).take(n)) is Corrupt,
{
    let s = item_bytes(a).take(n);
    lemma_little_endian(short(a.key.len()), 4);
    lemma_little_endian(a.seq as nat, 8);
    lemma_little_endian(short(a.raw.len()), 4);
    if n >= 16 {
        assert(s.subrange(0, 4) =~= little_endian(short(a.key.len()), 4));
        assert(s.subrange(12, 16) =~= little_endian(short(a.raw.len()), 4));
        let k = body_bytes(a.key);
        let r = body_bytes(a.raw);
        if n - 16 < k.len() {
            assert(s.skip(16) =~= k.take(n - 16));
            lemma_body_cut(a.key, n - 16);
        } else {
            let rest = r.take(n - 16 - k.len());
            assert(s.skip(16) =~= k + rest);
            lemma_body_reads_back(a.key, rest);
            lemma_body_cut(a.raw, n - 16 - k.len());
        }
    }
}

} // verus!
