//! The engine: buffer, sort, spill, merge — plus the `--check` path.
//!
//! Records stream in, get their key encoded once, and accumulate in a
//! buffer bounded by `--mem`. A full buffer is sorted and spilled as a run;
//! at end of input either the buffer is emitted directly (everything fit)
//! or the runs are k-way merged, with intermediate passes when the run
//! count exceeds `--fan-in`. Output order is always `(encoded key, input
//! sequence)` — a stable sort by construction.

use vstd::prelude::*;

use crate::arrange;
use crate::csv;
use crate::csv::{CsvReader, RawRecord, Step};
use crate::extract;
use crate::extract::{Extractor, Format, Rules};
use crate::io::{ByteSink, ByteSource, SpillStore};
use crate::keyspec;
use crate::keyspec::{ColRef, Key, KeySpec};
use crate::merge;
use crate::merge::{open_all, reduce_runs, Merger};
use crate::order;
use crate::spill;
use crate::spill::{Item, Rec, RunFile, RunReader, SpillArea};
use crate::text;
use crate::value::MissingOrder;

verus! {

/// Everything the engine needs to know.
pub struct Config {
    pub format: Format,
    pub specs: Vec<KeySpec>,
    pub delim: u8,
    /// CSV only: the first record is a header (resolved, preserved on top).
    pub has_header: bool,
    pub missing: MissingOrder,
    pub lenient: bool,
    pub unique: bool,
    pub reverse: bool,
    /// Buffer cap in bytes before a run is spilled.
    pub mem_limit: u64,
    /// Maximum runs merged in one pass.
    pub fan_in: usize,
}

/// Counters reported by `--stats`.
#[derive(Debug, Clone, Copy, PartialEq, Eq, Structural)]
pub struct Stats {
    pub records_in: u64,
    pub records_out: u64,
    pub bytes_in: u64,
    pub runs_spilled: u64,
    pub merge_passes: u64,
}

impl Default for Stats {
    fn default() -> (r: Self)
        ensures
            r == (Stats {
                records_in: 0,
                records_out: 0,
                bytes_in: 0,
                runs_spilled: 0,
                merge_passes: 0,
            }),
    {
        Stats { records_in: 0, records_out: 0, bytes_in: 0, runs_spilled: 0, merge_passes: 0 }
    }
}

/// Result of `--check`.
#[derive(Debug, Clone, Copy, PartialEq, Eq, Structural)]
pub enum CheckOutcome {
    Sorted,
    /// `record` counts data records (1-based); `line` is the physical line.
    Disorder {
        record: u64,
        line: u64,
    },
    /// Only reported with `--unique`: two records share a key.
    Duplicate {
        record: u64,
        line: u64,
    },
}

// ---------------------------------------------------------------------------
// Reading records

/// The first place at or after `i` where a line ends, or the end.
pub open spec fn line_end(s: Seq<u8>, i: int) -> int
    decreases s.len() - i,
{
    if i < 0 || i >= s.len() || s[i] == csv::NEWLINE {
        i
    } else {
        line_end(s, i + 1)
    }
}

/// What reading one JSONL record gives: a line, without its newline and
/// without a carriage return at its end.
pub open spec fn jsonl_step(s: Seq<u8>, line: int) -> Step {
    let i = line_end(s, 0);
    if s.len() == 0 {
        Step::End
    } else if i < s.len() {
        Step::Record {
            bytes: csv::without_return(s.take(i)),
            rest: s.skip(i + 1),
            next_line: line + 1,
        }
    } else {
        Step::Record {
            bytes: csv::without_return(s),
            rest: Seq::empty(),
            next_line: line + 1,
        }
    }
}

/// What reading one record gives.
pub open spec fn record_step(format: Format, s: Seq<u8>, delim: u8, line: int) -> Step {
    match format {
        Format::Csv => csv::csv_step(s, delim, line),
        Format::Jsonl => jsonl_step(s, line),
    }
}

/// Reading a record takes some bytes and as many lines at most.
pub proof fn lemma_step_shorter(format: Format, s: Seq<u8>, delim: u8, line: int)
    ensures
        record_step(format, s, delim, line) matches Step::Record { rest, next_line, bytes } ==> {
            &&& rest.len() < s.len()
            &&& line <= next_line
            &&& next_line + rest.len() <= line + s.len()
            &&& bytes.len() + rest.len() <= s.len()
        },
        record_step(format, s, delim, line) is End ==> s.len() == 0,
{
    match format {
        Format::Csv => {
            csv::lemma_record_end(s, 0, delim);
            let i = csv::record_end(s, 0, delim);
            csv::lemma_newlines_bound(s);
            if i < s.len() {
                csv::lemma_newlines_bound(s.take(i + 1));
            }
        },
        Format::Jsonl => {
            lemma_line_end(s, 0);
        },
    }
}

/// A line ends at its first newline, or at the end.
pub proof fn lemma_line_end(s: Seq<u8>, i: int)
    requires
        0 <= i <= s.len(),
    ensures
        i <= line_end(s, i) <= s.len(),
        line_end(s, i) < s.len() ==> s[line_end(s, i)] == csv::NEWLINE,
        forall|k: int| i <= k < line_end(s, i) ==> #[trigger] s[k] != csv::NEWLINE,
    decreases s.len() - i,
{
    if i < s.len() && s[i] != csv::NEWLINE {
        lemma_line_end(s, i + 1);
    }
}

/// Unified record source: CSV records (which may span lines) or JSONL lines.
pub struct Source<R: ByteSource> {
    pub format: Format,
    pub reader: CsvReader<R>,
}

impl<R: ByteSource> Source<R> {
    /// The bytes that are still to be read.
    pub open spec fn remaining(&self) -> Seq<u8> {
        self.reader.inner.remaining()
    }

    /// The line that they begin on.
    pub open spec fn line(&self) -> int {
        self.reader.line as int
    }

    /// Whether reading never fails.
    pub open spec fn reliable(&self) -> bool {
        self.reader.inner.reliable()
    }

    /// What reading the next record gives.
    pub open spec fn step(&self) -> Step {
        record_step(self.format, self.remaining(), self.reader.delim, self.line())
    }

    /// The next record, or `None` at the end of input.
    pub fn next(&mut self) -> (r: Result<Option<RawRecord>, String>)
        requires
            old(self).reader.countable(),
        ensures
            final(self).format == old(self).format,
            final(self).reader.delim == old(self).reader.delim,
            final(self).reliable() == old(self).reliable(),
            final(self).reader.countable(),
            csv::is_step(
                r,
                old(self).step(),
                old(self).line(),
                final(self).remaining(),
                final(self).line(),
            ) || (!old(self).reliable() && csv::is_read_error(r)),
    {
        match self.format {
            Format::Csv => self.reader.next_record(),
            Format::Jsonl => next_line(&mut self.reader),
        }
    }
}

/// The next line, without its terminator, or `None` at the end of input.
fn next_line<R: ByteSource>(reader: &mut CsvReader<R>) -> (r: Result<Option<RawRecord>, String>)
    requires
        old(reader).countable(),
    ensures
        final(reader).delim == old(reader).delim,
        final(reader).inner.reliable() == old(reader).inner.reliable(),
        final(reader).countable(),
        csv::is_step(
            r,
            jsonl_step(old(reader).inner.remaining(), old(reader).line as int),
            old(reader).line as int,
            final(reader).inner.remaining(),
            final(reader).line as int,
        ) || (!old(reader).inner.reliable() && csv::is_read_error(r)),
{
    let ghost s = reader.inner.remaining();
    let this_line: u64 = reader.line;
    let mut buf: Vec<u8> = Vec::new();
    assert(buf@ + s =~= s);
    loop
        invariant
            s == old(reader).inner.remaining(),
            reader.line == this_line,
            reader.delim == old(reader).delim,
            this_line == old(reader).line,
            this_line + s.len() <= u64::MAX,
            buf@ + reader.inner.remaining() == s,
            reader.inner.reliable() == old(reader).inner.reliable(),
            line_end(s, 0) == line_end(s, buf@.len() as int),
        decreases reader.inner.remaining().len(),
    {
        match reader.inner.fill() {
            Ok(()) => {},
            Err(e) => {
                return Err(text::join2("read error: ", e.as_str()));
            },
        }
        let ghost rest = reader.inner.remaining();
        let ghost head = buf@;
        let chunk = reader.inner.buffer();
        let len: usize = chunk.len();
        if len == 0 {
            assert(buf@ =~= s);
            if buf.len() == 0 {
                return Ok(None);
            }
            reader.line = this_line + 1;
            csv::strip_trailing_cr(&mut buf);
            assert(reader.inner.remaining() =~= Seq::<u8>::empty());
            return Ok(Some(RawRecord { bytes: buf, line: this_line }));
        }
        let mut i: usize = 0;
        while i < len && chunk[i] != csv::NEWLINE
            invariant
                i <= len,
                len == chunk@.len(),
                chunk@.is_prefix_of(rest),
                head + rest == s,
                line_end(s, 0) == line_end(s, head.len() + i),
            decreases len - i,
        {
            assert(s[head.len() + i] == rest[i as int]);
            i += 1;
        }
        if i < len {
            buf.extend_from_slice(vstd::slice::slice_subrange(chunk, 0, i));
            reader.inner.consume(i + 1);
            reader.line = this_line + 1;
            proof {
                let end = head.len() + i;
                assert(s[end] == rest[i as int]);
                assert(buf@ =~= s.take(end));
                assert(reader.inner.remaining() =~= s.skip(end + 1));
            }
            csv::strip_trailing_cr(&mut buf);
            return Ok(Some(RawRecord { bytes: buf, line: this_line }));
        }
        buf.extend_from_slice(chunk);
        reader.inner.consume(len);
        proof {
            assert(buf@ =~= head + chunk@);
            assert(buf@ + reader.inner.remaining() =~= s);
        }
    }
}

// ---------------------------------------------------------------------------
// What a sort is

/// What the configuration says of keys, before columns are resolved.
pub open spec fn rules_of(cfg: Config) -> Rules {
    Rules {
        format: cfg.format,
        keys: keyspec::keys(cfg.specs@),
        cols: Seq::empty(),
        paths: extract::paths_of(cfg.format, keyspec::keys(cfg.specs@)),
        delim: cfg.delim,
        missing: cfg.missing,
        lenient: cfg.lenient,
        reverse: cfg.reverse,
    }
}

/// Where the data records begin: the rules with resolved columns, the header
/// if there is one, what follows it, and the line that begins on.
pub struct Start {
    pub rules: Rules,
    pub header: Option<Seq<u8>>,
    pub rest: Seq<u8>,
    pub line: int,
}

/// What comes before the data records of the input `s`: for CSV with a
/// header the first record, against which the keys are resolved; for CSV
/// without one nothing, and keys are column numbers.
pub open spec fn started(cfg: Config, s: Seq<u8>) -> Result<Start, Seq<char>> {
    let rules = rules_of(cfg);
    if cfg.format == Format::Csv && cfg.has_header {
        match csv::csv_step(s, cfg.delim, 1) {
            Step::End => Ok(Start { rules, header: None, rest: s, line: 1 }),
            Step::Fail { reason } => Err(reason),
            Step::Record { bytes, rest, next_line } => {
                match extract::header_columns(rules.keys, csv::fields(bytes, cfg.delim)) {
                    Err(e) => Err(e),
                    Ok(cols) => Ok(
                        Start {
                            rules: Rules { cols, ..rules },
                            header: Some(bytes),
                            rest,
                            line: next_line,
                        },
                    ),
                }
            },
        }
    } else if cfg.format == Format::Csv && rules.keys.len() > 0 {
        match extract::numbered_columns(rules.keys) {
            Err(e) => Err(e),
            Ok(cols) => Ok(Start { rules: Rules { cols, ..rules }, header: None, rest: s, line: 1 }),
        }
    } else {
        Ok(Start { rules, header: None, rest: s, line: 1 })
    }
}

/// The place of a record in messages.
pub open spec fn location(format: Format, record: nat, line: int) -> Seq<char> {
    match format {
        Format::Csv => "record "@ + text::decimal_text(record) + " (line "@ + text::decimal_text(
            line as nat,
        ) + ")"@,
        Format::Jsonl => "line "@ + text::decimal_text(line as nat),
    }
}

/// The data records of the input `s` with their keys, numbered in input
/// order from `n` on, or the first thing that is wrong. Blank lines carry no
/// record.
pub open spec fn loaded(rules: Rules, s: Seq<u8>, line: int, n: nat) -> Result<
    Seq<Item>,
    Seq<char>,
>
    decreases s.len(),
{
    match record_step(rules.format, s, rules.delim, line) {
        Step::End => Ok(Seq::empty()),
        Step::Fail { reason } => Err(reason),
        Step::Record { bytes, rest, next_line } => {
            proof {
                lemma_step_shorter(rules.format, s, rules.delim, line);
            }
            if bytes.len() == 0 {
                loaded(rules, rest, next_line, n)
            } else {
                match extract::record_key(rules, bytes) {
                    Err(e) => Err(location(rules.format, n + 1, line) + ": "@ + e),
                    Ok(key) => {
                        match loaded(rules, rest, next_line, n + 1) {
                            Err(e) => Err(e),
                            Ok(items) => Ok(seq![Item { key, seq: n as u64, raw: bytes }] + items),
                        }
                    },
                }
            }
        },
    }
}

/// The first record of each run of records with equal keys.
pub open spec fn first_per_key(list: Seq<Item>) -> Seq<Item>
    decreases list.len(),
{
    if list.len() == 0 {
        Seq::empty()
    } else {
        let init = first_per_key(list.drop_last());
        if list.len() > 1 && list[list.len() - 2].key == list.last().key {
            init
        } else {
            init.push(list.last())
        }
    }
}

/// The records that are written.
pub open spec fn kept(list: Seq<Item>, unique: bool) -> Seq<Item> {
    if unique {
        first_per_key(list)
    } else {
        list
    }
}

/// The raw bytes of the records, each with a newline.
pub open spec fn lines(list: Seq<Item>) -> Seq<u8>
    decreases list.len(),
{
    if list.len() == 0 {
        Seq::empty()
    } else {
        lines(list.drop_last()) + list.last().raw + seq![csv::NEWLINE]
    }
}

/// The header with a newline, if there is one.
pub open spec fn header_line(header: Option<Seq<u8>>) -> Seq<u8> {
    match header {
        Some(h) => h + seq![csv::NEWLINE],
        None => Seq::empty(),
    }
}

/// How many records the header is.
pub open spec fn header_count(header: Option<Seq<u8>>) -> nat {
    match header {
        Some(_) => 1,
        None => 0,
    }
}

/// The bytes of the raw records.
pub open spec fn raw_bytes(list: Seq<Item>) -> nat
    decreases list.len(),
{
    if list.len() == 0 {
        0
    } else {
        raw_bytes(list.drop_last()) + list.last().raw.len()
    }
}

/// The memory that records take.
pub open spec fn total_cost(list: Seq<Item>) -> int
    decreases list.len(),
{
    if list.len() == 0 {
        0
    } else {
        total_cost(list.drop_last()) + spill::item_cost(list.last())
    }
}

/// How the records are cut into runs: a run is full when it takes `limit`
/// bytes or more. The second part is the records after the last full run.
pub open spec fn cut(items: Seq<Item>, limit: u64) -> (Seq<Seq<Item>>, Seq<Item>)
    decreases items.len(),
{
    if items.len() == 0 {
        (Seq::empty(), Seq::empty())
    } else {
        let (full, open) = cut(items.drop_last(), limit);
        let next = open.push(items.last());
        if total_cost(next) >= limit {
            (full.push(next), Seq::empty())
        } else {
            (full, next)
        }
    }
}

/// How many runs are spilled: none where no run was ever full, else all of
/// them and one more for what is left.
pub open spec fn run_count(items: Seq<Item>, limit: u64) -> nat {
    let (full, open) = cut(items, limit);
    if full.len() == 0 {
        0
    } else if open.len() == 0 {
        full.len()
    } else {
        full.len() + 1
    }
}

/// How many merges `n` runs take, the final one with them.
pub open spec fn merge_count(n: nat, fan_in: usize) -> nat {
    if n == 0 {
        0
    } else {
        merge::pass_count(n, merge::width(fan_in)) + 1
    }
}

/// What a sort writes: the header, and the records in order.
pub open spec fn sorted_output(start: Start, items: Seq<Item>, unique: bool) -> Seq<u8> {
    header_line(start.header) + lines(kept(arrange::arranged(items), unique))
}

/// What a sort counts.
pub open spec fn is_stats(stats: Stats, cfg: Config, start: Start, items: Seq<Item>) -> bool {
    let n = run_count(items, cfg.mem_limit);
    &&& stats.records_in == items.len()
    &&& stats.bytes_in == raw_bytes(items)
    &&& stats.records_out == header_count(start.header) + kept(
        arrange::arranged(items),
        cfg.unique,
    ).len()
    &&& stats.runs_spilled == n
    &&& stats.merge_passes == merge_count(n, cfg.fan_in)
}

// ---------------------------------------------------------------------------
// Setting up

/// Source, extractor and (for CSV) the header record to re-emit.
pub struct Prepared<R: ByteSource> {
    pub source: Source<R>,
    pub extractor: Extractor,
    pub header: Option<Vec<u8>>,
}

impl<R: ByteSource> Prepared<R> {
    /// Whether this is where `start` says.
    pub open spec fn is_at(&self, start: Start) -> bool {
        &&& self.extractor.well_formed()
        &&& self.extractor@ == start.rules
        &&& match (self.header, start.header) {
            (Some(a), Some(b)) => a@ == b,
            (None, None) => true,
            _ => false,
        }
        &&& self.source.format == start.rules.format
        &&& self.source.reader.delim == start.rules.delim
        &&& self.source.remaining() == start.rest
        &&& self.source.line() == start.line
        &&& self.source.reader.countable()
        &&& extract::resolved(start.rules) || start.rest.len() == 0
    }
}

/// A copy of the key specs.
pub fn copy_specs(specs: &Vec<KeySpec>) -> (r: Vec<KeySpec>)
    ensures
        keyspec::keys(r@) == keyspec::keys(specs@),
{
    let mut out: Vec<KeySpec> = Vec::new();
    let mut i: usize = 0;
    while i < specs.len()
        invariant
            i <= specs@.len(),
            keyspec::keys(out@) == keyspec::keys(specs@).take(i as int),
        decreases specs@.len() - i,
    {
        let ghost done = keyspec::keys(out@);
        let copy = specs[i].clone();
        let ghost key = copy@;
        out.push(copy);
        i += 1;
        assert(keyspec::keys(out@) =~= done.push(key));
        assert(keyspec::keys(out@) =~= keyspec::keys(specs@).take(i as int));
    }
    assert(keyspec::keys(specs@).take(i as int) =~= keyspec::keys(specs@));
    out
}

proof fn lemma_columns_len(
    keys: Seq<Key>,
    which: spec_fn(Seq<char>) -> Result<ColRef, Seq<char>>,
    n: nat,
)
    ensures
        extract::columns(keys, which, n) matches Ok(cols) ==> cols.len() == n,
    decreases n,
{
    if n > 0 {
        lemma_columns_len(keys, which, (n - 1) as nat);
    }
}

/// Shared setup for sort and check: build the extractor, open the source,
/// and consume the CSV header (returned so `sort` can re-emit it).
pub fn prepare<R: ByteSource>(input: R, cfg: &Config) -> (r: Result<Prepared<R>, String>)
    requires
        input.remaining().len() < u64::MAX,
    ensures
        match (r, started(*cfg, input.remaining())) {
            (Ok(p), Ok(start)) => p.is_at(start) && p.source.reliable() == input.reliable(),
            (Ok(_), Err(_)) => false,
            (Err(a), Err(b)) => a@ == b || (!input.reliable() && csv::is_read_error(r)),
            (Err(_), Ok(_)) => !input.reliable() && csv::is_read_error(r),
        },
{
    let mut extractor = Extractor::new(
        cfg.format,
        copy_specs(&cfg.specs),
        cfg.delim,
        cfg.missing,
        cfg.lenient,
        cfg.reverse,
    );
    let mut source = Source { format: cfg.format, reader: CsvReader::new(input, cfg.delim) };
    let mut header: Option<Vec<u8>> = None;
    assert(extractor@ == rules_of(*cfg));
    if cfg.format == Format::Csv {
        if cfg.has_header {
            match source.next() {
                Ok(Some(rec)) => {
                    proof {
                        let names = csv::fields(rec.bytes@, cfg.delim);
                        lemma_columns_len(
                            extractor@.keys,
                            |field: Seq<char>| keyspec::column(field, names),
                            extractor@.keys.len(),
                        );
                    }
                    match extractor.resolve_csv_header(rec.bytes.as_slice()) {
                        Ok(()) => {},
                        Err(e) => {
                            return Err(e);
                        },
                    }
                    header = Some(rec.bytes);
                },
                // Empty input: nothing to resolve, nothing to sort.
                Ok(None) => {
                    assert(source.remaining() =~= input.remaining());
                },
                Err(e) => {
                    return Err(e);
                },
            }
        } else if cfg.specs.len() > 0 {
            proof {
                lemma_columns_len(
                    extractor@.keys,
                    |field: Seq<char>| keyspec::column_number(field),
                    extractor@.keys.len(),
                );
            }
            match extractor.resolve_csv_headerless() {
                Ok(()) => {},
                Err(e) => {
                    return Err(e);
                },
            }
        }
    }
    Ok(Prepared { source, extractor, header })
}

/// The place of a record in messages.
fn locate(format: Format, record: u64, line: u64) -> (r: String)
    ensures
        r@ == location(format, record as nat, line as int),
{
    let l = text::number_text(line);
    match format {
        Format::Csv => {
            let n = text::number_text(record);
            text::join5("record ", n.as_str(), " (line ", l.as_str(), ")")
        },
        Format::Jsonl => text::join2("line ", l.as_str()),
    }
}

// ---------------------------------------------------------------------------
// Emitting

/// Writes records in arrival order, optionally dropping key-duplicates
/// (`--unique` keeps the first record of each key, i.e. the earliest by
/// input order thanks to the stable sort).
pub struct Emitter {
    pub unique: bool,
    pub last_key: Option<Vec<u8>>,
    pub written: u64,
}

/// What is written for one more record after `list`.
pub open spec fn emission(list: Seq<Item>, x: Item, unique: bool) -> Seq<u8> {
    if unique && list.len() > 0 && list.last().key == x.key {
        Seq::empty()
    } else {
        x.raw + seq![csv::NEWLINE]
    }
}

proof fn lemma_emission(list: Seq<Item>, x: Item, unique: bool)
    ensures
        lines(kept(list.push(x), unique)) == lines(kept(list, unique)) + emission(list, x, unique),
        kept(list.push(x), unique).len() == kept(list, unique).len() + (if emission(
            list,
            x,
            unique,
        ).len() == 0 {
            0int
        } else {
            1
        }),
{
    let next = list.push(x);
    assert(next.drop_last() =~= list);
    let before = kept(list, unique);
    let after = kept(next, unique);
    if unique && list.len() > 0 && list.last().key == x.key {
        assert(after == before);
        assert(lines(after) =~= lines(before) + emission(list, x, unique));
    } else {
        assert(after =~= before.push(x));
        assert(after.drop_last() =~= before);
        assert(lines(after) =~= lines(before) + emission(list, x, unique));
    }
}

/// Whether what was written after `before` is what the first records of
/// `list` make, and no more.
pub open spec fn cut_short(
    before: Seq<u8>,
    after: Seq<u8>,
    list: Seq<Item>,
    unique: bool,
) -> bool {
    exists|n: int|
        0 <= n <= list.len() && after == before + lines(kept(#[trigger] list.take(n), unique))
}

/// Nothing written is the beginning of anything.
proof fn lemma_cut_short_at_once(before: Seq<u8>, list: Seq<Item>, unique: bool)
    ensures
        cut_short(before, before, list, unique),
{
    assert(list.take(0) =~= Seq::<Item>::empty());
    assert(kept(list.take(0), unique) =~= Seq::<Item>::empty());
    assert(before =~= before + lines(kept(list.take(0), unique)));
}

/// What the first records make is the beginning of what all of them make.
proof fn lemma_first_lines(list: Seq<Item>, n: int, unique: bool)
    requires
        0 <= n <= list.len(),
    ensures
        lines(kept(list.take(n), unique)).is_prefix_of(lines(kept(list, unique))),
    decreases list.len() - n,
{
    if n == list.len() {
        assert(list.take(n) =~= list);
    } else {
        lemma_first_lines(list, n + 1, unique);
        lemma_emission(list.take(n), list[n], unique);
        assert(list.take(n + 1) =~= list.take(n).push(list[n]));
    }
}

/// Whether `r` is the failure of an output that could not be written.
pub open spec fn is_write_error<T>(r: Result<T, String>) -> bool {
    r is Err && text::announces(r->Err_0@, "cannot write output: "@)
}

/// Write one raw record and a newline.
fn write_raw<W: ByteSink>(out: &mut W, raw: &[u8]) -> (r: Result<(), String>)
    ensures
        final(out).reliable() == old(out).reliable(),
        r is Err ==> !old(out).reliable() && is_write_error(r),
        r is Ok ==> final(out).written() == old(out).written() + (raw@ + seq![csv::NEWLINE]),
{
    let newline: [u8; 1] = [csv::NEWLINE];
    match out.write_all(raw) {
        Ok(()) => {},
        Err(e) => {
            return Err(text::join2("cannot write output: ", e.as_str()));
        },
    }
    match out.write_all(newline.as_slice()) {
        Ok(()) => {},
        Err(e) => {
            return Err(text::join2("cannot write output: ", e.as_str()));
        },
    }
    assert(newline@ =~= seq![csv::NEWLINE]);
    assert(out.written() =~= old(out).written() + (raw@ + seq![csv::NEWLINE]));
    Ok(())
}

impl Emitter {
    /// Whether the records `list` have been emitted after a header that
    /// counts for `header` records.
    pub open spec fn has_emitted(&self, list: Seq<Item>, header: nat) -> bool {
        &&& self.unique ==> match self.last_key {
            None => list.len() == 0,
            Some(key) => list.len() > 0 && key@ == list.last().key,
        }
        &&& self.written == spill::capped(header as int + kept(list, self.unique).len())
    }

    /// Emit one record after `list`.
    fn emit<W: ByteSink>(
        &mut self,
        out: &mut W,
        rec: &Rec,
        Ghost(list): Ghost<Seq<Item>>,
        Ghost(header): Ghost<nat>,
    ) -> (r: Result<(), String>)
        requires
            old(self).has_emitted(list, header),
        ensures
            final(self).unique == old(self).unique,
            final(out).reliable() == old(out).reliable(),
            r is Err ==> !old(out).reliable() && is_write_error(r),
            r is Ok ==> {
                &&& final(self).has_emitted(list.push(rec@), header)
                &&& final(out).written() == old(out).written() + emission(
                    list,
                    rec@,
                    old(self).unique,
                )
            },
    {
        proof {
            lemma_emission(list, rec@, self.unique);
        }
        if self.unique {
            let repeated = match &self.last_key {
                Some(key) => order::same(key.as_slice(), rec.key.as_slice()),
                None => false,
            };
            if repeated {
                assert(out.written() =~= out.written() + Seq::<u8>::empty());
                return Ok(());
            }
            let copy = rec.clone();
            self.last_key = Some(copy.key);
        }
        match write_raw(out, rec.raw.as_slice()) {
            Ok(()) => {},
            Err(e) => {
                return Err(e);
            },
        }
        self.written = self.written.saturating_add(1);
        Ok(())
    }

    /// Emit the records of a list.
    fn emit_all<W: ByteSink>(
        &mut self,
        out: &mut W,
        records: &Vec<Rec>,
        Ghost(header): Ghost<nat>,
    ) -> (r: Result<(), String>)
        requires
            old(self).has_emitted(Seq::empty(), header),
        ensures
            final(self).unique == old(self).unique,
            final(out).reliable() == old(out).reliable(),
            r is Err ==> !old(out).reliable() && is_write_error(r),
            r is Ok ==> {
                let list = spill::views(records@);
                &&& final(self).unique == old(self).unique
                &&& final(self).has_emitted(list, header)
                &&& final(out).written() == old(out).written() + lines(kept(list, old(self).unique))
            },
    {
        let ghost all = spill::views(records@);
        let ghost unique = self.unique;
        let ghost base = out.written();
        let mut i: usize = 0;
        proof {
            assert(all.take(0) =~= Seq::<Item>::empty());
            assert(out.written() =~= base + lines(kept(all.take(0), unique)));
        }
        while i < records.len()
            invariant
                i <= records@.len(),
                all == spill::views(records@),
                unique == old(self).unique,
                self.unique == unique,
                base == old(out).written(),
                self.has_emitted(all.take(i as int), header),
                out.reliable() == old(out).reliable(),
                out.written() == base + lines(kept(all.take(i as int), unique)),
            decreases records@.len() - i,
        {
            let ghost list = all.take(i as int);
            proof {
                lemma_emission(list, records@[i as int]@, unique);
                assert(all.take(i + 1) =~= list.push(records@[i as int]@));
            }
            match self.emit(out, &records[i], Ghost(list), Ghost(header)) {
                Ok(()) => {},
                Err(e) => {
                    return Err(e);
                },
            }
            i += 1;
            assert(out.written() =~= base + lines(kept(all.take(i as int), unique)));
        }
        assert(all.take(i as int) =~= all);
        Ok(())
    }
}

// ---------------------------------------------------------------------------
// Spilling

/// The runs spilled so far, or a store that has not been used yet.
pub enum Spill<S: SpillStore> {
    Unused(S),
    Used { area: SpillArea<S>, runs: Vec<RunFile> },
}

impl<S: SpillStore> Spill<S> {
    /// Whether the spill area is there as soon as there is a run, and not
    /// before.
    pub open spec fn well_formed(&self) -> bool {
        match *self {
            Spill::Unused(_) => true,
            Spill::Used { area, runs } => {
                &&& area.well_formed()
                &&& merge::all_held(area, runs@)
                &&& area.next_id == runs@.len()
                &&& runs@.len() > 0
            },
        }
    }

    /// The bytes of the runs.
    pub open spec fn contents(&self) -> Seq<Seq<u8>> {
        match *self {
            Spill::Unused(_) => Seq::empty(),
            Spill::Used { area, runs } => merge::run_contents(area, runs@),
        }
    }

    /// Whether spilling never fails.
    pub open spec fn reliable(&self) -> bool {
        match *self {
            Spill::Unused(store) => store.reliable(),
            Spill::Used { area, .. } => area.store.reliable(),
        }
    }

    /// Sort the records and spill them as one more run.
    fn spill_run(self, records: Vec<Rec>) -> (r: Result<Spill<S>, String>)
        requires
            self.well_formed(),
            self.contents().len() < u64::MAX,
        ensures
            self.reliable() ==> r is Ok,
            r matches Ok(next) ==> {
                &&& next.well_formed()
                &&& next.reliable() == self.reliable()
                &&& next is Used
                &&& exists|list: Seq<Item>| #[trigger]
                    arrange::is_arrangement(spill::views(records@), list) && next.contents()
                        == self.contents().push(spill::run_bytes(list))
            },
    {
        let ghost before = self.contents();
        let (mut area, mut runs) = match self {
            Spill::Unused(store) => {
                let area = match SpillArea::create(store) {
                    Ok(a) => a,
                    Err(e) => {
                        return Err(e);
                    },
                };
                let runs: Vec<RunFile> = Vec::new();
                assert(merge::run_contents(area, runs@) =~= before);
                (area, runs)
            },
            Spill::Used { area, runs } => (area, runs),
        };
        let sorted = arrange::sort_records(records);
        let ghost list = spill::views(sorted@);
        let ghost files = area.store.files();
        let ghost held = runs@;
        proof {
            assert forall|i: int| 0 <= i < held.len() implies files.contains_key(
                (#[trigger] held[i]).id,
            ) && held[i].id < area.next_id by {
                assert(area.holds(held[i]));
            }
        }
        let run = match area.write_run(sorted.as_slice()) {
            Ok(run) => run,
            Err(e) => {
                return Err(e);
            },
        };
        runs.push(run);
        proof {
            assert forall|i: int| 0 <= i < runs@.len() implies #[trigger] area.holds(runs@[i]) by {
                if i < held.len() {
                    assert(runs@[i] == held[i]);
                }
            }
            assert forall|i: int, j: int| 0 <= i < j < runs@.len() implies (
            #[trigger] runs@[i]).id != (#[trigger] runs@[j]).id by {
                assert(runs@[i] == held[i]);
                if j < held.len() {
                    assert(runs@[j] == held[j]);
                }
            }
            assert(merge::run_contents(area, runs@) =~= before.push(spill::run_bytes(list)));
        }
        Ok(Spill::Used { area, runs })
    }
}

// ---------------------------------------------------------------------------
// Loading

/// Whether a run with these bytes holds the records `items` in order.
pub open spec fn is_run(bytes: Seq<u8>, items: Seq<Item>) -> bool {
    exists|list: Seq<Item>| #[trigger]
        arrange::is_arrangement(items, list) && bytes == spill::run_bytes(list)
}

/// Whether each run holds its part of the records.
pub open spec fn are_runs(contents: Seq<Seq<u8>>, full: Seq<Seq<Item>>) -> bool {
    &&& contents.len() == full.len()
    &&& forall|i: int| 0 <= i < full.len() ==> is_run(#[trigger] contents[i], full[i])
}

/// The records read: those in the buffer, those in runs, and the counters.
pub struct Loaded<S: SpillStore> {
    pub buffer: Vec<Rec>,
    pub spill: Spill<S>,
    pub stats: Stats,
}

impl<S: SpillStore> Loaded<S> {
    /// Whether these are the records `items`, spilled at `limit`.
    pub open spec fn is_loaded(&self, items: Seq<Item>, limit: u64) -> bool {
        let (full, open) = cut(items, limit);
        &&& spill::views(self.buffer@) == open
        &&& self.spill.well_formed()
        &&& are_runs(self.spill.contents(), full)
        &&& self.stats.records_in == items.len()
        &&& self.stats.bytes_in == raw_bytes(items)
        &&& self.stats.runs_spilled == full.len()
        &&& self.stats.records_out == 0
        &&& self.stats.merge_passes == 0
    }
}

proof fn lemma_cut_bound(items: Seq<Item>, limit: u64)
    ensures
        cut(items, limit).0.len() + cut(items, limit).1.len() <= items.len(),
    decreases items.len(),
{
    if items.len() > 0 {
        lemma_cut_bound(items.drop_last(), limit);
    }
}

/// More records leave the full runs as they are, and may fill further ones.
proof fn lemma_cut_grows(items: Seq<Item>, more: Seq<Item>, limit: u64)
    ensures
        cut(items + more, limit).0.len() >= cut(items, limit).0.len(),
    decreases more.len(),
{
    if more.len() == 0 {
        assert(items + more =~= items);
    } else {
        assert((items + more).drop_last() =~= items + more.drop_last());
        lemma_cut_grows(items, more.drop_last(), limit);
    }
}

/// What is loaded when `done` has been read already.
pub open spec fn loaded_after(done: Seq<Item>, rest: Result<Seq<Item>, Seq<char>>) -> Result<
    Seq<Item>,
    Seq<char>,
> {
    match rest {
        Ok(items) => Ok(done + items),
        Err(e) => Err(e),
    }
}

/// Read all records, spilling a sorted run whenever the buffer is full.
#[verifier::rlimit(40)]
fn load<R: ByteSource, S: SpillStore>(
    source: Source<R>,
    extractor: &Extractor,
    store: S,
    mem_limit: u64,
) -> (r: Result<Loaded<S>, String>)
    requires
        source.reader.countable(),
        source.remaining().len() < u64::MAX,
        extractor.well_formed(),
        source.format == extractor@.format,
        source.reader.delim == extractor@.delim,
        extract::resolved(extractor@) || source.remaining().len() == 0,
    ensures
        match (r, loaded(extractor@, source.remaining(), source.line(), 0)) {
            (Ok(l), Ok(items)) => {
                &&& l.is_loaded(items, mem_limit)
                &&& l.spill.reliable() == store.reliable()
                &&& spill::all_fit(items)
            },
            (Ok(_), Err(_)) => false,
            (Err(a), Err(b)) => {
                ||| a@ == b
                ||| !source.reliable() && csv::is_read_error(r)
                ||| !store.reliable()
            },
            (Err(_), Ok(items)) => {
                ||| !source.reliable() && csv::is_read_error(r)
                ||| !store.reliable() && run_count(items, mem_limit) > 0
            },
        },
{
    let ghost rules = extractor@;
    let ghost total = source.remaining().len();
    let ghost whole = loaded(rules, source.remaining(), source.line(), 0);
    let ghost store_reliable = store.reliable();
    let ghost mut done: Seq<Item> = Seq::empty();
    let mut src = source;
    let mut buffer: Vec<Rec> = Vec::new();
    let mut buffered_bytes: u64 = 0;
    let mut stats = Stats::default();
    let mut spill: Spill<S> = Spill::Unused(store);
    proof {
        assert(spill::views(buffer@) =~= Seq::<Item>::empty());
        match whole {
            Ok(items) => {
                assert(done + items =~= items);
            },
            Err(_) => {},
        }
    }
    loop
        invariant
            rules == extractor@,
            extractor.well_formed(),
            whole == loaded(extractor@, source.remaining(), source.line(), 0),
            store_reliable == store.reliable(),
            src.format == rules.format,
            src.reader.delim == rules.delim,
            src.reader.countable(),
            src.reliable() == source.reliable(),
            extract::resolved(rules) || src.remaining().len() == 0,
            total < u64::MAX,
            done.len() + src.remaining().len() <= total,
            raw_bytes(done) + src.remaining().len() <= total,
            whole == loaded_after(done, loaded(rules, src.remaining(), src.line(), done.len())),
            spill::all_fit(done),
            spill::views(buffer@) == cut(done, mem_limit).1,
            buffered_bytes == spill::capped(total_cost(cut(done, mem_limit).1)),
            spill.well_formed(),
            spill.reliable() == store_reliable,
            are_runs(spill.contents(), cut(done, mem_limit).0),
            stats.records_in == done.len(),
            stats.bytes_in == raw_bytes(done),
            stats.runs_spilled == cut(done, mem_limit).0.len(),
            stats.records_out == 0,
            stats.merge_passes == 0,
        decreases src.remaining().len(),
    {
        let ghost s = src.remaining();
        let ghost line = src.line();
        proof {
            lemma_step_shorter(rules.format, s, rules.delim, line);
        }
        let rec = match src.next() {
            Ok(Some(rec)) => rec,
            Ok(None) => {
                proof {
                    assert(done + Seq::<Item>::empty() =~= done);
                }
                return Ok(Loaded { buffer, spill, stats });
            },
            Err(e) => {
                return Err(e);
            },
        };
        if rec.bytes.len() == 0 {
            // Blank lines carry no record.
            continue;
        }
        stats.records_in = stats.records_in + 1;
        stats.bytes_in = stats.bytes_in + rec.bytes.len() as u64;
        let key = match extractor.key_for(rec.bytes.as_slice()) {
            Ok(k) => k,
            Err(e) => {
                let place = locate(extractor.format, stats.records_in, rec.line);
                return Err(text::join3(place.as_str(), ": ", e.as_str()));
            },
        };
        let entry = Rec { key, seq: stats.records_in - 1, raw: rec.bytes };
        let ghost x = entry@;
        assert(spill::fits(x)) by {
            assert(entry.key.len() <= usize::MAX && entry.raw.len() <= usize::MAX);
        }
        let ghost before = done;
        let ghost open = cut(done, mem_limit).1;
        proof {
            let rest = loaded(rules, src.remaining(), src.line(), (done.len() + 1) as nat);
            match rest {
                Ok(items) => {
                    assert(done.push(x) + items =~= done + (seq![x] + items));
                },
                Err(_) => {},
            }
            done = done.push(x);
            assert(done.drop_last() =~= before);
            assert(open.push(x).drop_last() =~= open);
            lemma_cut_bound(before, mem_limit);
        }
        buffered_bytes = buffered_bytes.saturating_add(entry.cost());
        buffer.push(entry);
        assert(spill::views(buffer@) =~= open.push(x));
        if buffered_bytes >= mem_limit {
            let ghost contents = spill.contents();
            let ghost full = cut(before, mem_limit).0;
            let ghost part = spill::views(buffer@);
            spill = match spill.spill_run(buffer) {
                Ok(next) => next,
                Err(e) => {
                    proof {
                        match loaded(rules, src.remaining(), src.line(), done.len()) {
                            Ok(items) => {
                                lemma_cut_grows(done, items, mem_limit);
                            },
                            Err(_) => {},
                        }
                    }
                    return Err(e);
                },
            };
            stats.runs_spilled = stats.runs_spilled + 1;
            buffer = Vec::new();
            buffered_bytes = 0;
            proof {
                assert(spill::views(buffer@) =~= Seq::<Item>::empty());
                let after = spill.contents();
                assert forall|i: int| 0 <= i < full.len() + 1 implies is_run(
                    #[trigger] after[i],
                    full.push(part)[i],
                ) by {
                    if i < full.len() {
                        assert(after[i] == contents[i]);
                    }
                }
            }
        }
    }
}

// ---------------------------------------------------------------------------
// Sorting

/// Merge open runs and emit each record in global order.
fn emit_merged<R: ByteSource, W: ByteSink>(
    emitter: &mut Emitter,
    out: &mut W,
    readers: Vec<RunReader<R>>,
    Ghost(header): Ghost<nat>,
) -> (r: Result<(), String>)
    requires
        old(emitter).has_emitted(Seq::empty(), header),
    ensures
        final(out).reliable() == old(out).reliable(),
        final(emitter).unique == old(emitter).unique,
        r is Ok ==> exists|list: Seq<Item>|
            {
                &&& #[trigger] merge::is_merge(merge::streams_in(merge::bytes_left(readers@)), list)
                &&& final(emitter).has_emitted(list, header)
                &&& final(out).written() == old(out).written() + lines(
                    kept(list, old(emitter).unique),
                )
            },
        merge::all_reliable(readers@) && merge::all_clean(merge::bytes_left(readers@)) && r is Err
            ==> !old(out).reliable() && is_write_error(r),
        r is Err && (old(out).reliable() || !is_write_error(r)) ==> exists|list: Seq<Item>|
            {
                &&& #[trigger] merge::is_merge(merge::streams_in(merge::bytes_left(readers@)), list)
                &&& cut_short(
                    old(out).written(),
                    final(out).written(),
                    list,
                    old(emitter).unique,
                )
            },
{
    let ghost runs = merge::bytes_left(readers@);
    let ghost all = merge::streams_in(runs);
    let ghost unique = emitter.unique;
    let ghost base = out.written();
    let mut merger = match Merger::begin(readers) {
        Ok(m) => m,
        Err(e) => {
            proof {
                let some = merge::lemma_some_merge(all);
                lemma_cut_short_at_once(base, some, unique);
            }
            return Err(e);
        },
    };
    let ghost mut list: Seq<Item> = Seq::empty();
    proof {
        assert forall|rest: Seq<Item>| #[trigger] merge::is_merge(all, rest) implies merge::is_merge(
            all,
            list + rest,
        ) by {
            assert(list + rest =~= rest);
        }
        assert(out.written() =~= base + lines(kept(list, unique)));
    }
    loop
        invariant
            runs == merge::bytes_left(readers@),
            all == merge::streams_in(runs),
            unique == old(emitter).unique,
            base == old(out).written(),
            merger.well_formed(),
            merge::completes(all, list, merger.streams()),
            merger.faults().len() == runs.len(),
            forall|i: int|
                0 <= i < runs.len() ==> #[trigger] merger.faults()[i] == spill::decoded(runs[i]).1,
            merge::all_reliable(readers@) ==> merge::all_reliable(merger.readers@),
            out.reliable() == old(out).reliable(),
            emitter.unique == unique,
            emitter.has_emitted(list, header),
            out.written() == base + lines(kept(list, unique)),
        decreases merge::together(merger.streams()).len(),
    {
        let ghost left = merger.streams();
        let ghost faults = merger.faults();
        match merger.next() {
            Ok(Some(rec)) => {
                proof {
                    let i = choose|i: int| #[trigger]
                        merge::takes(left, i, rec@) && merger.streams() == merge::taken(left, i);
                    merge::lemma_completes(all, list, left, i, rec@);
                    lemma_emission(list, rec@, unique);
                }
                match emitter.emit(out, &rec, Ghost(list), Ghost(header)) {
                    Ok(()) => {},
                    Err(e) => {
                        return Err(e);
                    },
                }
                proof {
                    list = list.push(rec@);
                    assert(out.written() =~= base + lines(kept(list, unique)));
                }
            },
            Ok(None) => {
                proof {
                    assert(merge::is_merge(all, list + Seq::<Item>::empty()));
                    assert(list + Seq::<Item>::empty() =~= list);
                }
                return Ok(());
            },
            Err(e) => {
                proof {
                    if merge::all_reliable(readers@) && merge::all_clean(runs) {
                        let i = choose|i: int|
                            0 <= i < faults.len() && #[trigger] faults[i] == Some(e@);
                        assert(spill::decoded(runs[i]).1 is None);
                    }
                    let rest = merge::lemma_some_merge(left);
                    assert(merge::is_merge(all, list + rest));
                    assert((list + rest).take(list.len() as int) =~= list);
                }
                return Err(e);
            },
        }
    }
}

/// The records are numbered in input order.
pub proof fn lemma_loaded_numbered(rules: Rules, s: Seq<u8>, line: int, n: nat)
    ensures
        loaded(rules, s, line, n) matches Ok(items) ==> {
            &&& items.len() <= s.len()
            &&& raw_bytes(items) <= s.len()
            &&& forall|i: int|
                0 <= i < items.len() ==> (#[trigger] items[i]).seq == (n + i) as u64
        },
    decreases s.len(),
{
    lemma_step_shorter(rules.format, s, rules.delim, line);
    match record_step(rules.format, s, rules.delim, line) {
        Step::Record { bytes, rest, next_line } => {
            if bytes.len() == 0 {
                lemma_loaded_numbered(rules, rest, next_line, n);
            } else if let Ok(key) = extract::record_key(rules, bytes) {
                lemma_loaded_numbered(rules, rest, next_line, n + 1);
                if let Ok(items) = loaded(rules, rest, next_line, n + 1) {
                    let x = Item { key, seq: n as u64, raw: bytes };
                    let all = seq![x] + items;
                    assert forall|i: int| 0 <= i < all.len() implies (#[trigger] all[i]).seq == (n
                        + i) as u64 by {
                        if i > 0 {
                            assert(all[i] == items[i - 1]);
                        }
                    }
                    lemma_raw_bytes_front(x, items);
                }
            }
        },
        _ => {},
    }
}

proof fn lemma_raw_bytes_front(x: Item, items: Seq<Item>)
    ensures
        raw_bytes(seq![x] + items) == x.raw.len() + raw_bytes(items),
    decreases items.len(),
{
    let all = seq![x] + items;
    if items.len() == 0 {
        assert(all.drop_last() =~= items);
        assert(all.last() == x);
    } else {
        assert(all.drop_last() =~= seq![x] + items.drop_last());
        assert(all.last() == items.last());
        lemma_raw_bytes_front(x, items.drop_last());
    }
}

/// Records of an input that can be counted have different numbers.
pub proof fn lemma_loaded_distinct(rules: Rules, s: Seq<u8>, line: int)
    requires
        s.len() < u64::MAX,
    ensures
        loaded(rules, s, line, 0) matches Ok(items) ==> arrange::told_apart(items.to_multiset()),
{
    lemma_loaded_numbered(rules, s, line, 0);
    if let Ok(items) = loaded(rules, s, line, 0) {
        assert(arrange::distinct(items));
        arrange::lemma_distinct_told_apart(items);
    }
}

/// The runs and what is left hold all the records.
proof fn lemma_cut_together(items: Seq<Item>, limit: u64)
    ensures
        merge::together(cut(items, limit).0).add(cut(items, limit).1.to_multiset())
            == items.to_multiset(),
    decreases items.len(),
{
    let (full, open) = cut(items, limit);
    if items.len() == 0 {
        assert(full =~= Seq::<Seq<Item>>::empty());
        assert(open =~= items);
        assert(merge::together(full).add(open.to_multiset()) =~= items.to_multiset());
    } else {
        let init = items.drop_last();
        let x = items.last();
        lemma_cut_together(init, limit);
        let (f0, o0) = cut(init, limit);
        let next = o0.push(x);
        init.to_multiset_ensures();
        o0.to_multiset_ensures();
        assert(items =~= init.push(x));
        assert(items.to_multiset() =~= init.to_multiset().insert(x));
        assert(next.to_multiset() =~= o0.to_multiset().insert(x));
        if total_cost(next) >= limit {
            assert(full.drop_last() =~= f0);
            assert(open.to_multiset() =~= vstd::multiset::Multiset::<Item>::empty()) by {
                open.to_multiset_ensures();
            }
        }
        assert(merge::together(full).add(open.to_multiset()) =~= items.to_multiset());
    }
}

/// Every record of a part is one of the records.
proof fn lemma_cut_fits(items: Seq<Item>, limit: u64)
    requires
        spill::all_fit(items),
    ensures
        forall|i: int|
            0 <= i < cut(items, limit).0.len() ==> spill::all_fit(#[trigger] cut(items, limit).0[i]),
        spill::all_fit(cut(items, limit).1),
    decreases items.len(),
{
    if items.len() > 0 {
        let init = items.drop_last();
        assert(spill::all_fit(init));
        lemma_cut_fits(init, limit);
        let (full, open) = cut(init, limit);
        assert(spill::fits(items.last()));
        assert(spill::all_fit(open.push(items.last())));
    }
}

proof fn lemma_arrangement_fits(items: Seq<Item>, list: Seq<Item>)
    requires
        arrange::is_arrangement(items, list),
        spill::all_fit(items),
    ensures
        spill::all_fit(list),
{
    items.to_multiset_ensures();
    list.to_multiset_ensures();
    assert forall|i: int| 0 <= i < list.len() implies spill::fits(#[trigger] list[i]) by {
        assert(list.contains(list[i]));
        assert(list.to_multiset().contains(list[i]));
        assert(items.contains(list[i]));
        let k = items.index_of(list[i]);
        assert(spill::fits(items[k]));
    }
}

/// The runs are intact, in order, and hold the records of their parts.
proof fn lemma_runs(contents: Seq<Seq<u8>>, full: Seq<Seq<Item>>)
    requires
        are_runs(contents, full),
        forall|i: int| 0 <= i < full.len() ==> spill::all_fit(#[trigger] full[i]),
    ensures
        merge::all_in_order(contents),
        merge::together(merge::streams_in(contents)) == merge::together(full),
    decreases contents.len(),
{
    assert forall|i: int| 0 <= i < contents.len() implies {
        &&& spill::decoded(#[trigger] contents[i]).1 is None
        &&& arrange::in_order(spill::decoded(contents[i]).0)
        &&& spill::decoded(contents[i]).0.to_multiset() == full[i].to_multiset()
    } by {
        assert(is_run(contents[i], full[i]));
        let list = choose|list: Seq<Item>| #[trigger]
            arrange::is_arrangement(full[i], list) && contents[i] == spill::run_bytes(list);
        lemma_arrangement_fits(full[i], list);
        spill::law_runs_read_back(list);
    }
    lemma_same_together(merge::streams_in(contents), full);
}

proof fn lemma_same_together(a: Seq<Seq<Item>>, b: Seq<Seq<Item>>)
    requires
        a.len() == b.len(),
        forall|i: int| 0 <= i < a.len() ==> (#[trigger] a[i]).to_multiset() == b[i].to_multiset(),
    ensures
        merge::together(a) == merge::together(b),
    decreases a.len(),
{
    if a.len() > 0 {
        let x = a.drop_last();
        let y = b.drop_last();
        assert forall|i: int| 0 <= i < x.len() implies (#[trigger] x[i]).to_multiset()
            == y[i].to_multiset() by {
            assert(a[i].to_multiset() == b[i].to_multiset());
        }
        lemma_same_together(x, y);
        assert(a[a.len() - 1].to_multiset() == b[b.len() - 1].to_multiset());
    }
}

/// What merging the runs gives, after any passes: the records in order.
proof fn lemma_merged(
    items: Seq<Item>,
    parts: Seq<Seq<Item>>,
    contents: Seq<Seq<u8>>,
    after: Seq<Seq<u8>>,
    fan_in: nat,
    list: Seq<Item>,
)
    requires
        are_runs(contents, parts),
        forall|i: int| 0 <= i < parts.len() ==> spill::all_fit(#[trigger] parts[i]),
        merge::together(parts) == items.to_multiset(),
        merge::reduced(contents, after, fan_in),
        merge::is_merge(merge::streams_in(after), list),
        arrange::told_apart(items.to_multiset()),
    ensures
        list == arrange::arranged(items),
{
    lemma_runs(contents, parts);
    merge::law_passes_keep_records(contents, after, fan_in);
    merge::law_merge_keeps_records(merge::streams_in(after), list);
    assert forall|j: int| 0 <= j < after.len() implies arrange::in_order(
        #[trigger] merge::streams_in(after)[j],
    ) by {
        assert(arrange::in_order(spill::decoded(after[j]).0));
    }
    merge::law_merge_keeps_order(merge::streams_in(after), list);
    arrange::lemma_arranged(items, list);
}

/// Whether `r` is the failure of a stream that may fail: of the input unless
/// `readable`, of the output unless `writable`.
pub open spec fn is_stream_error<T>(r: Result<T, String>, readable: bool, writable: bool) -> bool {
    (!readable && csv::is_read_error(r)) || (!writable && is_write_error(r))
}

/// What is promised of sorting the data records that begin at `start`.
pub open spec fn is_sorted_from(
    r: Result<Stats, String>,
    cfg: Config,
    start: Start,
    before: Seq<u8>,
    after: Seq<u8>,
    readable: bool,
    writable: bool,
    roomy: bool,
) -> bool {
    let top = before + header_line(start.header);
    // Whether all that was to be written by then has been.
    let intact = writable || !is_write_error(r);
    match loaded(start.rules, start.rest, start.line, 0) {
        Err(reason) => {
            &&& r is Err
            &&& roomy ==> r->Err_0@ == reason || is_stream_error(r, readable, writable)
            &&& intact ==> after == top
        },
        Ok(items) => {
            let whole = before + sorted_output(start, items, cfg.unique);
            let enough = roomy || run_count(items, cfg.mem_limit) == 0;
            &&& r is Err && enough ==> is_stream_error(r, readable, writable)
            &&& r is Err && enough && intact ==> after == top
            &&& r is Err && intact ==> top.is_prefix_of(after) && after.is_prefix_of(whole)
            &&& r matches Ok(stats) ==> after == whole && is_stats(stats, cfg, start, items)
        },
    }
}

/// What is promised of a sort of the input `s`: what it returns and what it
/// writes after `before`. The input never fails if `readable`, the output
/// never if `writable`, and the store for runs never if `roomy`.
///
/// Where the input is bad, the error says how, and no data record is written.
/// Where the input is good, only a stream or a store can fail; unless it is
/// the output, what has been written by then is the beginning of what a sort
/// writes, and no more than the header if the store has not failed. Where
/// everything fits in memory the store is not needed.
pub open spec fn is_sorted(
    r: Result<Stats, String>,
    cfg: Config,
    s: Seq<u8>,
    before: Seq<u8>,
    after: Seq<u8>,
    readable: bool,
    writable: bool,
    roomy: bool,
) -> bool {
    match started(cfg, s) {
        Err(reason) => {
            &&& r is Err
            &&& r->Err_0@ == reason || (!readable && csv::is_read_error(r))
            &&& after == before
        },
        Ok(start) => {
            ||| is_sorted_from(r, cfg, start, before, after, readable, writable, roomy)
            // The input failed before the header was read.
            ||| !readable && csv::is_read_error(r) && after == before
        },
    }
}

proof fn lemma_kept_bound(list: Seq<Item>, unique: bool)
    ensures
        kept(list, unique).len() <= list.len(),
    decreases list.len(),
{
    if unique && list.len() > 0 {
        lemma_kept_bound(list.drop_last(), unique);
    }
}

/// Merge the runs with what is left in the buffer and emit the records.
/// Returns how many runs were spilled in all, and how many merges were made.
fn emit_spilled<W: ByteSink, S: SpillStore>(
    spill: Spill<S>,
    buffer: Vec<Rec>,
    emitter: &mut Emitter,
    out: &mut W,
    fan_in: usize,
    Ghost(items): Ghost<Seq<Item>>,
    Ghost(limit): Ghost<u64>,
    Ghost(header): Ghost<nat>,
) -> (r: Result<(u64, u64), String>)
    requires
        spill is Used,
        spill.well_formed(),
        spill::views(buffer@) == cut(items, limit).1,
        are_runs(spill.contents(), cut(items, limit).0),
        items.len() <= i64::MAX,
        arrange::told_apart(items.to_multiset()),
        spill::all_fit(items),
        old(emitter).has_emitted(Seq::empty(), header),
    ensures
        final(out).reliable() == old(out).reliable(),
        final(emitter).unique == old(emitter).unique,
        spill.reliable() && r is Err ==> !old(out).reliable() && is_write_error(r),
        r is Err && (old(out).reliable() || !is_write_error(r)) ==> cut_short(
            old(out).written(),
            final(out).written(),
            arrange::arranged(items),
            old(emitter).unique,
        ),
        r matches Ok((spilled, merges)) ==> {
            &&& spilled == run_count(items, limit)
            &&& merges == merge_count(run_count(items, limit), fan_in)
            &&& final(emitter).has_emitted(arrange::arranged(items), header)
            &&& final(out).written() == old(out).written() + lines(
                kept(arrange::arranged(items), old(emitter).unique),
            )
        },
{
    let ghost (full, open) = cut(items, limit);
    let ghost parts = if open.len() > 0 {
        full.push(open)
    } else {
        full
    };
    let ghost contents = spill.contents();
    proof {
        lemma_cut_bound(items, limit);
        lemma_cut_short_at_once(out.written(), arrange::arranged(items), emitter.unique);
    }
    let mut state = spill;
    if buffer.len() > 0 {
        state = match state.spill_run(buffer) {
            Ok(next) => next,
            Err(e) => {
                return Err(e);
            },
        };
        proof {
            let after = state.contents();
            assert forall|i: int| 0 <= i < parts.len() implies is_run(
                #[trigger] after[i],
                parts[i],
            ) by {
                if i < full.len() {
                    assert(after[i] == contents[i]);
                }
            }
        }
    }
    let ghost written = state.contents();
    proof {
        assert(are_runs(written, parts));
        lemma_parts(items, limit);
        lemma_cut_fits(items, limit);
        assert forall|i: int| 0 <= i < parts.len() implies spill::all_fit(#[trigger] parts[i]) by {
            if i < full.len() {
                assert(parts[i] == full[i]);
            }
        }
        lemma_runs(written, parts);
    }
    let (mut area, runs) = match state {
        Spill::Used { area, runs } => (area, runs),
        Spill::Unused(_) => {
            return Ok((0, 0));
        },
    };
    let spilled: u64 = runs.len() as u64;
    assert(merge::all_given(area, runs@)) by {
        assert forall|i: int| 0 <= i < runs@.len() implies (#[trigger] runs@[i]).id
            < area.next_id by {
            assert(area.holds(runs@[i]));
        }
    }
    let (survivors, passes) = match reduce_runs(&mut area, runs, fan_in) {
        Ok(p) => p,
        Err(e) => {
            return Err(e);
        },
    };
    let ghost after = merge::run_contents(area, survivors@);
    proof {
        merge::lemma_pass_count(parts.len(), merge::width(fan_in));
        merge::law_passes_keep_records(written, after, merge::width(fan_in));
    }
    let readers = match open_all(&area, &survivors) {
        Ok(r) => r,
        Err(e) => {
            return Err(e);
        },
    };
    match emit_merged(emitter, out, readers, Ghost(header)) {
        Ok(()) => {},
        Err(e) => {
            proof {
                if out.reliable() || !text::announces(e@, "cannot write output: "@) {
                    let merged = choose|merged: Seq<Item>|
                        {
                            &&& #[trigger] merge::is_merge(merge::streams_in(after), merged)
                            &&& cut_short(
                                old(out).written(),
                                out.written(),
                                merged,
                                old(emitter).unique,
                            )
                        };
                    lemma_merged(items, parts, written, after, merge::width(fan_in), merged);
                }
            }
            return Err(e);
        },
    }
    proof {
        let merged = choose|merged: Seq<Item>|
            {
                &&& #[trigger] merge::is_merge(merge::streams_in(after), merged)
                &&& emitter.has_emitted(merged, header)
                &&& out.written() == old(out).written() + lines(kept(merged, old(emitter).unique))
            };
        lemma_merged(items, parts, written, after, merge::width(fan_in), merged);
    }
    // The final merge counts too.
    Ok((spilled, passes + 1))
}

/// Emit the records that have been loaded. Returns how many runs were spilled
/// in all, and how many merges were made.
fn emit_loaded<W: ByteSink, S: SpillStore>(
    records: Loaded<S>,
    emitter: &mut Emitter,
    out: &mut W,
    fan_in: usize,
    Ghost(items): Ghost<Seq<Item>>,
    Ghost(limit): Ghost<u64>,
    Ghost(header): Ghost<nat>,
) -> (r: Result<(u64, u64), String>)
    requires
        records.is_loaded(items, limit),
        items.len() <= i64::MAX,
        arrange::told_apart(items.to_multiset()),
        spill::all_fit(items),
        old(emitter).has_emitted(Seq::empty(), header),
    ensures
        final(out).reliable() == old(out).reliable(),
        final(emitter).unique == old(emitter).unique,
        r is Err && (records.spill.reliable() || run_count(items, limit) == 0)
            ==> !old(out).reliable() && is_write_error(r),
        r is Err && (old(out).reliable() || !is_write_error(r)) ==> cut_short(
            old(out).written(),
            final(out).written(),
            arrange::arranged(items),
            old(emitter).unique,
        ),
        r matches Ok((spilled, merges)) ==> {
            &&& spilled == run_count(items, limit)
            &&& merges == merge_count(run_count(items, limit), fan_in)
            &&& final(emitter).has_emitted(arrange::arranged(items), header)
            &&& final(out).written() == old(out).written() + lines(
                kept(arrange::arranged(items), old(emitter).unique),
            )
        },
{
    let in_memory = match &records.spill {
        Spill::Unused(_) => true,
        Spill::Used { .. } => false,
    };
    if in_memory {
        // Fast path: everything fit in memory; no run is written at all.
        let sorted = arrange::sort_records(records.buffer);
        proof {
            lemma_cut_together(items, limit);
            let (full, open) = cut(items, limit);
            assert(full =~= Seq::<Seq<Item>>::empty());
            assert(merge::together(full).add(open.to_multiset()) =~= open.to_multiset());
            arrange::lemma_arranged(items, spill::views(sorted@));
        }
        match emitter.emit_all(out, &sorted, Ghost(header)) {
            Ok(()) => Ok((0, 0)),
            Err(e) => Err(e),
        }
    } else {
        emit_spilled(
            records.spill,
            records.buffer,
            emitter,
            out,
            fan_in,
            Ghost(items),
            Ghost(limit),
            Ghost(header),
        )
    }
}

proof fn lemma_arranged_len(items: Seq<Item>)
    ensures
        arrange::arranged(items).len() == items.len(),
{
    arrange::lemma_some_arrangement(items);
    let list = arrange::arranged(items);
    items.to_multiset_ensures();
    list.to_multiset_ensures();
}

/// Sort the records that are still to be read into `output`, under the header
/// if there is one.
#[verifier::rlimit(40)]
fn sort_prepared<R: ByteSource, W: ByteSink, S: SpillStore>(
    prepared: Prepared<R>,
    output: &mut W,
    store: S,
    cfg: &Config,
    Ghost(start): Ghost<Start>,
) -> (r: Result<Stats, String>)
    requires
        prepared.is_at(start),
        start.rest.len() + header_count(start.header) <= i64::MAX,
    ensures
        final(output).reliable() == old(output).reliable(),
        is_sorted_from(
            r,
            *cfg,
            start,
            old(output).written(),
            final(output).written(),
            prepared.source.reliable(),
            old(output).reliable(),
            store.reliable(),
        ),
        r is Ok ==> final(output).delivered() == final(output).written(),
{
    let ghost base = output.written();
    let ghost whole = loaded(start.rules, start.rest, start.line, 0);
    proof {
        lemma_loaded_numbered(start.rules, start.rest, start.line, 0);
        lemma_loaded_distinct(start.rules, start.rest, start.line);
    }
    let mut emitter = Emitter { unique: cfg.unique, last_key: None, written: 0 };
    let ghost header = header_count(start.header);
    match &prepared.header {
        Some(h) => {
            match write_raw(output, h.as_slice()) {
                Ok(()) => {},
                Err(e) => {
                    return Err(e);
                },
            }
            emitter.written = 1;
        },
        None => {
            assert(output.written() =~= base + header_line(start.header));
        },
    }
    let ghost top = output.written();
    assert(emitter.has_emitted(Seq::empty(), header));
    let loaded_records = match load(prepared.source, &prepared.extractor, store, cfg.mem_limit) {
        Ok(l) => l,
        Err(e) => {
            return Err(e);
        },
    };
    let ghost items = whole->Ok_0;
    let mut stats = loaded_records.stats;
    let ghost list = arrange::arranged(items);
    match emit_loaded(
        loaded_records,
        &mut emitter,
        output,
        cfg.fan_in,
        Ghost(items),
        Ghost(cfg.mem_limit),
        Ghost(header),
    ) {
        Ok((spilled, merges)) => {
            stats.runs_spilled = spilled;
            stats.merge_passes = merges;
        },
        Err(e) => {
            proof {
                if output.reliable() || !text::announces(e@, "cannot write output: "@) {
                    let n = choose|n: int|
                        0 <= n <= list.len() && output.written() == top + lines(
                            kept(#[trigger] list.take(n), cfg.unique),
                        );
                    lemma_first_lines(list, n, cfg.unique);
                }
            }
            return Err(e);
        },
    }
    match output.flush() {
        Ok(()) => {},
        Err(e) => {
            return Err(text::join2("cannot write output: ", e.as_str()));
        },
    }
    stats.records_out = emitter.written;
    proof {
        lemma_kept_bound(list, cfg.unique);
        lemma_arranged_len(items);
        assert(output.written() =~= base + sorted_output(start, items, cfg.unique));
    }
    Ok(stats)
}

/// Sort `input` into `output` according to `cfg`, with `store` for the runs
/// that do not fit in memory.
pub fn sort<R: ByteSource, W: ByteSink, S: SpillStore>(
    input: R,
    output: &mut W,
    store: S,
    cfg: &Config,
) -> (r: Result<Stats, String>)
    requires
        input.remaining().len() <= i64::MAX,
    ensures
        final(output).reliable() == old(output).reliable(),
        is_sorted(
            r,
            *cfg,
            input.remaining(),
            old(output).written(),
            final(output).written(),
            input.reliable(),
            old(output).reliable(),
            store.reliable(),
        ),
        r is Ok ==> final(output).delivered() == final(output).written(),
{
    let ghost s = input.remaining();
    let prepared = match prepare(input, cfg) {
        Ok(p) => p,
        Err(e) => {
            return Err(e);
        },
    };
    let ghost start = started(*cfg, s)->Ok_0;
    proof {
        lemma_start(*cfg, s);
    }
    sort_prepared(prepared, output, store, cfg, Ghost(start))
}

/// The runs, with one more for what is left, hold all the records.
proof fn lemma_parts(items: Seq<Item>, limit: u64)
    ensures
        ({
            let (full, open) = cut(items, limit);
            &&& open.len() > 0 ==> merge::together(full.push(open)) == items.to_multiset()
            &&& open.len() == 0 ==> merge::together(full) == items.to_multiset()
        }),
{
    lemma_cut_together(items, limit);
    let (full, open) = cut(items, limit);
    open.to_multiset_ensures();
    assert(full.push(open).drop_last() =~= full);
    if open.len() == 0 {
        assert(merge::together(full).add(open.to_multiset()) =~= merge::together(full));
    }
}

/// The header is a part of the input.
pub proof fn lemma_start(cfg: Config, s: Seq<u8>)
    ensures
        started(cfg, s) matches Ok(start) ==> start.rest.len() + header_count(start.header)
            <= s.len(),
{
    lemma_step_shorter(Format::Csv, s, cfg.delim, 1);
}

// ---------------------------------------------------------------------------
// Checking

/// Whether the data records of the input `s` are in order, after one with
/// the key `prev` if any: the first that is not, or that repeats a key where
/// keys are to be unique; or the first thing that is wrong.
pub open spec fn checked(
    rules: Rules,
    unique: bool,
    s: Seq<u8>,
    line: int,
    n: nat,
    prev: Option<Seq<u8>>,
) -> Result<CheckOutcome, Seq<char>>
    decreases s.len(),
{
    match record_step(rules.format, s, rules.delim, line) {
        Step::End => Ok(CheckOutcome::Sorted),
        Step::Fail { reason } => Err(reason),
        Step::Record { bytes, rest, next_line } => {
            proof {
                lemma_step_shorter(rules.format, s, rules.delim, line);
            }
            if bytes.len() == 0 {
                checked(rules, unique, rest, next_line, n, prev)
            } else {
                match extract::record_key(rules, bytes) {
                    Err(e) => Err(location(rules.format, n + 1, line) + ": "@ + e),
                    Ok(key) => if prev is Some && order::bytes_lt(key, prev->Some_0) {
                        Ok(CheckOutcome::Disorder { record: (n + 1) as u64, line: line as u64 })
                    } else if prev is Some && unique && prev->Some_0 == key {
                        Ok(CheckOutcome::Duplicate { record: (n + 1) as u64, line: line as u64 })
                    } else {
                        checked(rules, unique, rest, next_line, n + 1, Some(key))
                    },
                }
            }
        },
    }
}

/// What checking the input `s` finds.
pub open spec fn check_result(cfg: Config, s: Seq<u8>) -> Result<CheckOutcome, Seq<char>> {
    match started(cfg, s) {
        Err(e) => Err(e),
        Ok(start) => checked(start.rules, cfg.unique, start.rest, start.line, 0, None),
    }
}

/// Verify that `input` is already ordered by the configured keys.
pub fn check<R: ByteSource>(input: R, cfg: &Config) -> (r: Result<CheckOutcome, String>)
    requires
        input.remaining().len() < u64::MAX,
    ensures
        match (r, check_result(*cfg, input.remaining())) {
            (Ok(a), Ok(b)) => a == b,
            (Ok(_), Err(_)) => false,
            (Err(a), Err(b)) => a@ == b || (!input.reliable() && csv::is_read_error(r)),
            (Err(_), Ok(_)) => !input.reliable() && csv::is_read_error(r),
        },
{
    let ghost s0 = input.remaining();
    let ghost steady = input.reliable();
    let prepared = match prepare(input, cfg) {
        Ok(p) => p,
        Err(e) => {
            return Err(e);
        },
    };
    proof {
        lemma_start(*cfg, s0);
    }
    let extractor = prepared.extractor;
    let mut source = prepared.source;
    let ghost rules = extractor@;
    let ghost whole = check_result(*cfg, s0);
    let mut prev: Option<Vec<u8>> = None;
    let mut record: u64 = 0;
    loop
        invariant
            s0 == input.remaining(),
            steady == input.reliable(),
            whole == check_result(*cfg, s0),
            rules == extractor@,
            extractor.well_formed(),
            source.format == rules.format,
            source.reader.delim == rules.delim,
            source.reader.countable(),
            source.reliable() == steady,
            extract::resolved(rules) || source.remaining().len() == 0,
            record + source.remaining().len() < u64::MAX,
            whole == checked(
                rules,
                cfg.unique,
                source.remaining(),
                source.line(),
                record as nat,
                match prev {
                    Some(k) => Some(k@),
                    None => None,
                },
            ),
        decreases source.remaining().len(),
    {
        let ghost s = source.remaining();
        proof {
            lemma_step_shorter(rules.format, s, rules.delim, source.line());
        }
        let rec = match source.next() {
            Ok(Some(rec)) => rec,
            Ok(None) => {
                return Ok(CheckOutcome::Sorted);
            },
            Err(e) => {
                return Err(e);
            },
        };
        if rec.bytes.len() == 0 {
            continue;
        }
        record = record + 1;
        let key = match extractor.key_for(rec.bytes.as_slice()) {
            Ok(k) => k,
            Err(e) => {
                let place = locate(extractor.format, record, rec.line);
                return Err(text::join3(place.as_str(), ": ", e.as_str()));
            },
        };
        if let Some(prev_key) = &prev {
            if order::before(key.as_slice(), prev_key.as_slice()) {
                return Ok(CheckOutcome::Disorder { record, line: rec.line });
            }
            if cfg.unique && order::same(prev_key.as_slice(), key.as_slice()) {
                return Ok(CheckOutcome::Duplicate { record, line: rec.line });
            }
        }
        prev = Some(key);
    }
}

} // verus!
