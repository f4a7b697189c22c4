//! Streaming RFC 4180 CSV reader that preserves raw record bytes.
//!
//! A quoted field may contain the delimiter, doubled quotes (`""`) and even
//! newlines, so a *record* is not a *line*. The reader returns each record's
//! raw bytes untouched (records are re-emitted verbatim after sorting) plus a
//! separate field splitter used only for key extraction. Both run the same
//! quote state machine, so record boundaries and field values can never
//! disagree.

use vstd::prelude::*;

use crate::io::ByteSource;
use crate::text;

verus! {

/// The byte `"`.
pub const QUOTE: u8 = 0x22;

/// The byte that ends a line.
pub const NEWLINE: u8 = 0x0A;

/// The carriage return that may stand before it.
pub const RETURN: u8 = 0x0D;

/// Quote state while scanning a record, byte by byte.
///
/// Quotes are special only when a field *starts* with one (tolerant mode:
/// `it"s,fine` splits as `it"s` | `fine`, like most real-world consumers).
/// Inside a quoted field, `""` decodes to a literal quote.
#[derive(Debug, Clone, Copy, PartialEq, Eq, Structural)]
pub enum FieldState {
    /// At the start of a field.
    Start,
    /// Inside an unquoted field; quotes here are literal bytes.
    Unquoted,
    /// Inside a quoted field; delimiter and newline are literal here.
    Quoted,
    /// Just saw a quote inside a quoted field: either the `""` escape or
    /// the closing quote, decided by the next byte.
    AfterQuote,
}

/// The quote state after one more byte.
pub open spec fn next_state(state: FieldState, b: u8, delim: u8) -> FieldState {
    match state {
        FieldState::Quoted => if b == QUOTE {
            FieldState::AfterQuote
        } else {
            FieldState::Quoted
        },
        FieldState::Unquoted => if b == delim {
            FieldState::Start
        } else {
            FieldState::Unquoted
        },
        FieldState::Start | FieldState::AfterQuote => if b == QUOTE {
            FieldState::Quoted
        } else if b == delim {
            FieldState::Start
        } else {
            FieldState::Unquoted
        },
    }
}

/// The quote state after the bytes `s` of a record.
pub open spec fn state_after(s: Seq<u8>, delim: u8) -> FieldState
    decreases s.len(),
{
    if s.len() == 0 {
        FieldState::Start
    } else {
        next_state(state_after(s.drop_last(), delim), s.last(), delim)
    }
}

/// Advance the quote state machine by one byte. Newline handling is the
/// caller's job (the reader ends the record, the splitter never sees one
/// outside quotes).
fn step(state: FieldState, b: u8, delim: u8) -> (r: FieldState)
    ensures
        r == next_state(state, b, delim),
{
    match state {
        FieldState::Quoted => if b == QUOTE {
            FieldState::AfterQuote
        } else {
            FieldState::Quoted
        },
        FieldState::Unquoted => if b == delim {
            FieldState::Start
        } else {
            FieldState::Unquoted
        },
        FieldState::Start | FieldState::AfterQuote => if b == QUOTE {
            FieldState::Quoted
        } else if b == delim {
            FieldState::Start
        } else {
            FieldState::Unquoted
        },
    }
}

// ---------------------------------------------------------------------------
// Records

/// One raw CSV record: the exact bytes between record terminators, and the
/// 1-based physical line on which it started (for error messages).
#[derive(Debug)]
pub struct RawRecord {
    pub bytes: Vec<u8>,
    pub line: u64,
}

/// What reading one record from a stream of bytes gives.
pub enum Step {
    /// The stream has ended.
    End,
    /// The rest of the stream is no record.
    Fail { reason: Seq<char> },
    /// A record, what follows it, and the line that follows it.
    Record { bytes: Seq<u8>, rest: Seq<u8>, next_line: int },
}

/// Whether the byte at `i` ends the record that `s` begins with: a newline
/// outside quotes.
pub open spec fn ends_record(s: Seq<u8>, i: int, delim: u8) -> bool {
    0 <= i < s.len() && s[i] == NEWLINE && state_after(s.take(i), delim) != FieldState::Quoted
}

/// The first place at or after `i` that ends the record, or the end.
pub open spec fn record_end(s: Seq<u8>, i: int, delim: u8) -> int
    decreases s.len() - i,
{
    if i < 0 || i >= s.len() || ends_record(s, i, delim) {
        i
    } else {
        record_end(s, i + 1, delim)
    }
}

/// How many newlines `s` holds.
pub open spec fn newlines(s: Seq<u8>) -> nat
    decreases s.len(),
{
    if s.len() == 0 {
        0
    } else {
        newlines(s.drop_last()) + (if s.last() == NEWLINE {
            1nat
        } else {
            0
        })
    }
}

/// `s` without a carriage return at its end.
pub open spec fn without_return(s: Seq<u8>) -> Seq<u8> {
    if s.len() > 0 && s.last() == RETURN {
        s.drop_last()
    } else {
        s
    }
}

/// What reading one CSV record gives, where the stream holds `s` and stands
/// at the given line. The record goes up to the first newline outside
/// quotes, which is dropped together with a carriage return before it; or to
/// the end, where nothing is dropped.
pub open spec fn csv_step(s: Seq<u8>, delim: u8, line: int) -> Step {
    let i = record_end(s, 0, delim);
    if i < s.len() {
        Step::Record {
            bytes: without_return(s.take(i)),
            rest: s.skip(i + 1),
            next_line: line + newlines(s.take(i + 1)),
        }
    } else if state_after(s, delim) == FieldState::Quoted {
        Step::Fail {
            reason: "line "@ + text::decimal_text(line as nat)
                + ": unterminated quoted field at end of input"@,
        }
    } else if s.len() == 0 {
        Step::End
    } else {
        Step::Record {
            bytes: s,
            rest: Seq::empty(),
            next_line: line + newlines(s),
        }
    }
}

/// Whether `r`, read at `line`, and what is left after it are what `step`
/// says.
pub open spec fn is_step(
    r: Result<Option<RawRecord>, String>,
    step: Step,
    line: int,
    rest: Seq<u8>,
    next_line: int,
) -> bool {
    match (r, step) {
        (Ok(None), Step::End) => rest.len() == 0 && next_line == line,
        (Err(e), Step::Fail { reason }) => e@ == reason,
        (Ok(Some(rec)), Step::Record { bytes, rest: after, next_line: next }) => {
            &&& rec.bytes@ == bytes
            &&& rec.line == line
            &&& rest == after
            &&& next_line == next
        },
        _ => false,
    }
}

/// Whether `r` is the failure of a stream that could not be read.
pub open spec fn is_read_error<T>(r: Result<T, String>) -> bool {
    r is Err && text::announces(r->Err_0@, "read error: "@)
}

/// There are no more newlines than bytes.
pub proof fn lemma_newlines_bound(s: Seq<u8>)
    ensures
        newlines(s) <= s.len(),
    decreases s.len(),
{
    if s.len() > 0 {
        lemma_newlines_bound(s.drop_last());
    }
}

/// Nothing before `j` ends the record, so its end is at or after `j`.
pub proof fn lemma_record_end_skips(s: Seq<u8>, i: int, j: int, delim: u8)
    requires
        0 <= i <= j <= s.len(),
        forall|k: int| i <= k < j ==> !#[trigger] ends_record(s, k, delim),
    ensures
        record_end(s, i, delim) == record_end(s, j, delim),
    decreases j - i,
{
    if i < j {
        assert(!ends_record(s, i, delim));
        lemma_record_end_skips(s, i + 1, j, delim);
    }
}

/// What the end of a record is: a place that ends it, or the end of all
/// bytes, and nothing before it ends it.
pub proof fn lemma_record_end(s: Seq<u8>, i: int, delim: u8)
    requires
        0 <= i <= s.len(),
    ensures
        i <= record_end(s, i, delim) <= s.len(),
        record_end(s, i, delim) < s.len() ==> ends_record(s, record_end(s, i, delim), delim),
        forall|k: int| i <= k < record_end(s, i, delim) ==> !#[trigger] ends_record(s, k, delim),
    decreases s.len() - i,
{
    if i < s.len() && !ends_record(s, i, delim) {
        lemma_record_end(s, i + 1, delim);
    }
}

/// Streaming record reader. Handles quoted newlines, CRLF and LF
/// terminators, and reports unterminated quotes with the offending line.
pub struct CsvReader<R: ByteSource> {
    pub inner: R,
    pub delim: u8,
    /// Physical line number of the *next* byte to be read (1-based).
    pub line: u64,
}

/// Remove a carriage return at the end.
pub fn strip_trailing_cr(buf: &mut Vec<u8>)
    ensures
        final(buf)@ == without_return(old(buf)@),
{
    let n: usize = buf.len();
    if n > 0 && buf[n - 1] == RETURN {
        buf.pop();
    }
}

impl<R: ByteSource> CsvReader<R> {
    /// Whether the line numbers of what is left can be counted.
    pub open spec fn countable(&self) -> bool {
        self.line + self.inner.remaining().len() <= u64::MAX
    }

    pub fn new(inner: R, delim: u8) -> (r: Self)
        ensures
            r.inner == inner,
            r.delim == delim,
            r.line == 1,
    {
        CsvReader { inner, delim, line: 1 }
    }

    /// Next record, or `None` at end of input. The record terminator is
    /// stripped (both `\n` and `\r\n`); bytes inside the record, quoted
    /// newlines among them, are preserved exactly.
    pub fn next_record(&mut self) -> (r: Result<Option<RawRecord>, String>)
        requires
            old(self).countable(),
        ensures
            final(self).delim == old(self).delim,
            final(self).inner.reliable() == old(self).inner.reliable(),
            final(self).countable(),
            is_step(
                r,
                csv_step(old(self).inner.remaining(), old(self).delim, old(self).line as int),
                old(self).line as int,
                final(self).inner.remaining(),
                final(self).line as int,
            ) || (!old(self).inner.reliable() && is_read_error(r)),
    {
        let mut buf: Vec<u8> = Vec::new();
        let start_line: u64 = self.line;
        let delim: u8 = self.delim;
        let mut state = FieldState::Start;
        let ghost s = self.inner.remaining();
        assert(buf@ + s =~= s);
        assert(newlines(buf@) == 0);
        loop
            invariant
                buf@ + self.inner.remaining() == s,
                self.delim == delim,
                delim == old(self).delim,
                s == old(self).inner.remaining(),
                start_line == old(self).line,
                self.inner.reliable() == old(self).inner.reliable(),
                start_line + s.len() <= u64::MAX,
                self.line == start_line + newlines(buf@),
                state == state_after(buf@, delim),
                forall|k: int| 0 <= k < buf@.len() ==> !#[trigger] ends_record(s, k, delim),
            decreases self.inner.remaining().len(),
        {
            proof {
                lemma_newlines_bound(buf@);
            }
            match self.inner.fill() {
                Ok(()) => {},
                Err(e) => {
                    return Err(text::join2("read error: ", e.as_str()));
                },
            }
            let ghost rest = self.inner.remaining();
            let chunk = self.inner.buffer();
            let len: usize = chunk.len();
            if len == 0 {
                proof {
                    assert(buf@ =~= s);
                    lemma_record_end_skips(s, 0, s.len() as int, delim);
                }
                // End of input: hand out whatever is pending (a final record
                // without a trailing newline is legal).
                if state == FieldState::Quoted {
                    let n = text::number_text(start_line);
                    return Err(
                        text::join3(
                            "line ",
                            n.as_str(),
                            ": unterminated quoted field at end of input",
                        ),
                    );
                }
                if buf.len() == 0 {
                    return Ok(None);
                }
                assert(self.inner.remaining() =~= Seq::<u8>::empty());
                return Ok(Some(RawRecord { bytes: buf, line: start_line }));
            }
            let mut line: u64 = self.line;
            let mut i: usize = 0;
            let mut ended = false;
            let ghost head = buf@;
            assert(head + chunk@.take(0) =~= head);
            while i < len && !ended
                invariant
                    i <= len,
                    len == chunk@.len(),
                    chunk@.is_prefix_of(rest),
                    head + rest == s,
                    start_line + s.len() <= u64::MAX,
                    !ended ==> line == start_line + newlines(head + chunk@.take(i as int)),
                    state == state_after(head + chunk@.take(i as int), delim),
                    forall|k: int|
                        0 <= k < head.len() + i ==> !#[trigger] ends_record(s, k, delim),
                    ended ==> i < len && ends_record(s, head.len() + i, delim) && line == start_line
                        + newlines(head + chunk@.take(i + 1)),
                decreases len - i + (if ended {
                    0int
                } else {
                    1
                }),
            {
                let b = chunk[i];
                proof {
                    let p = head + chunk@.take(i as int);
                    let q = head + chunk@.take(i + 1);
                    assert(q.drop_last() =~= p);
                    assert(q.last() == b);
                    assert(p =~= s.take(head.len() + i));
                    assert(s[head.len() + i] == rest[i as int]);
                    lemma_newlines_bound(p);
                }
                if b == NEWLINE {
                    line += 1;
                    if state != FieldState::Quoted {
                        ended = true;
                    }
                }
                if !ended {
                    state = step(state, b, delim);
                    i += 1;
                }
            }
            if ended {
                buf.extend_from_slice(vstd::slice::slice_subrange(chunk, 0, i));
                self.inner.consume(i + 1);
                self.line = line;
                proof {
                    let end = head.len() + i;
                    assert(buf@ =~= s.take(end));
                    assert(self.inner.remaining() =~= s.skip(end + 1));
                    lemma_record_end_skips(s, 0, end, delim);
                    assert(head + chunk@.take(i + 1) =~= s.take(end + 1));
                    lemma_newlines_bound(s.take(end + 1));
                }
                strip_trailing_cr(&mut buf);
                return Ok(Some(RawRecord { bytes: buf, line: start_line }));
            }
            buf.extend_from_slice(chunk);
            self.inner.consume(len);
            self.line = line;
            proof {
                assert(chunk@.take(len as int) =~= chunk@);
                assert(buf@ =~= head + chunk@);
                assert(buf@ + self.inner.remaining() =~= s);
            }
        }
    }
}

// ---------------------------------------------------------------------------
// Fields

/// Whether `b` separates two fields: the delimiter outside quotes.
pub open spec fn separates(state: FieldState, b: u8, delim: u8) -> bool {
    state != FieldState::Quoted && b == delim
}

/// Whether `b` belongs to a field's value. A quote does not where it opens or
/// may close a quoted field; elsewhere it is a stray one, or the second half
/// of `""`.
pub open spec fn is_content(state: FieldState, b: u8) -> bool {
    b != QUOTE || state == FieldState::Unquoted || state == FieldState::AfterQuote
}

/// The values of the fields of a record, as bytes.
pub open spec fn field_bytes(raw: Seq<u8>, delim: u8) -> Seq<Seq<u8>>
    decreases raw.len(),
{
    if raw.len() == 0 {
        seq![Seq::empty()]
    } else {
        let done = field_bytes(raw.drop_last(), delim);
        let state = state_after(raw.drop_last(), delim);
        let b = raw.last();
        if separates(state, b, delim) {
            done.push(Seq::empty())
        } else if is_content(state, b) {
            done.drop_last().push(done.last().push(b))
        } else {
            done
        }
    }
}

/// The values of the fields of a record, as text.
pub open spec fn fields(raw: Seq<u8>, delim: u8) -> Seq<Seq<char>> {
    Seq::new(
        field_bytes(raw, delim).len(),
        |i: int| text::readable_text(field_bytes(raw, delim)[i]),
    )
}

pub proof fn lemma_some_field(raw: Seq<u8>, delim: u8)
    ensures
        field_bytes(raw, delim).len() > 0,
    decreases raw.len(),
{
    if raw.len() > 0 {
        lemma_some_field(raw.drop_last(), delim);
    }
}

/// Split a raw record into unquoted field values, for key extraction only.
///
/// Runs the same state machine as the reader: quoted fields decode `""` and
/// keep delimiters and newlines literal; stray quotes inside unquoted fields
/// stay literal. Invalid UTF-8 is replaced only in this extracted copy; the
/// raw record bytes are emitted untouched.
pub fn split_fields(raw: &[u8], delim: u8) -> (r: Vec<String>)
    ensures
        text::texts(r@) == fields(raw@, delim),
{
    let mut out: Vec<String> = Vec::new();
    let mut field: Vec<u8> = Vec::new();
    let mut state = FieldState::Start;
    let mut i: usize = 0;
    let ghost mut done: Seq<Seq<u8>> = Seq::empty();
    assert(raw@.take(0) =~= Seq::<u8>::empty());
    assert(field_bytes(raw@.take(0), delim) =~= done.push(field@));
    while i < raw.len()
        invariant
            i <= raw@.len(),
            field_bytes(raw@.take(i as int), delim) == done.push(field@),
            state == state_after(raw@.take(i as int), delim),
            out@.len() == done.len(),
            forall|k: int| 0 <= k < done.len() ==> (#[trigger] out@[k])@ == text::readable_text(done[k]),
        decreases raw@.len() - i,
    {
        let b = raw[i];
        let ghost p = raw@.take(i as int);
        let ghost was = done.push(field@);
        proof {
            assert(raw@.take(i + 1).drop_last() =~= p);
            assert(was.drop_last() =~= done);
        }
        if state != FieldState::Quoted && b == delim {
            out.push(text::readable(&field));
            proof {
                done = done.push(field@);
            }
            field.clear();
        } else if b != QUOTE || state == FieldState::Unquoted || state == FieldState::AfterQuote {
            field.push(b);
        }
        state = step(state, b, delim);
        i += 1;
        assert(field_bytes(raw@.take(i as int), delim) =~= done.push(field@));
    }
    out.push(text::readable(&field));
    proof {
        assert(raw@.take(raw@.len() as int) =~= raw@);
        let all = done.push(field@);
        assert forall|k: int| 0 <= k < all.len() implies (#[trigger] out@[k])@ == text::readable_text(
            all[k],
        ) by {}
        assert(text::texts(out@) =~= fields(raw@, delim));
    }
    out
}

// ---------------------------------------------------------------------------
// Laws

/// A record that stands on its own: newlines only inside quotes, and no
/// quoted field left open.
pub open spec fn complete(raw: Seq<u8>, delim: u8) -> bool {
    &&& forall|k: int| 0 <= k < raw.len() ==> !#[trigger] ends_record(raw, k, delim)
    &&& state_after(raw, delim) != FieldState::Quoted
}

pub proof fn lemma_ends_record_prefix(s: Seq<u8>, p: Seq<u8>, k: int, delim: u8)
    requires
        p.is_prefix_of(s),
        0 <= k < p.len(),
    ensures
        ends_record(s, k, delim) == ends_record(p, k, delim),
{
    assert(s.take(k) =~= p.take(k));
}

/// Record boundaries and quoting never disagree: what the reader cuts out is
/// a record with newlines inside quotes only and no quote left open.
pub proof fn law_records_are_complete(s: Seq<u8>, delim: u8, line: int)
    ensures
        csv_step(s, delim, line) matches Step::Record { bytes, .. } ==> complete(bytes, delim),
{
    let i = record_end(s, 0, delim);
    lemma_record_end(s, 0, delim);
    if csv_step(s, delim, line) is Record {
        let p = s.take(i);
        let raw = csv_step(s, delim, line)->bytes;
        assert forall|k: int| 0 <= k < raw.len() implies !#[trigger] ends_record(raw, k, delim) by {
            lemma_ends_record_prefix(s, raw, k, delim);
        }
        if i == s.len() {
            assert(p =~= s);
        }
        assert(state_after(p, delim) != FieldState::Quoted);
    }
}

/// A complete record followed by a newline ends there, whatever follows.
proof fn lemma_record_ends(raw: Seq<u8>, rest: Seq<u8>, delim: u8)
    requires
        forall|k: int| 0 <= k < raw.len() ==> !#[trigger] ends_record(raw, k, delim),
        state_after(raw, delim) != FieldState::Quoted,
    ensures
        ({
            let s = raw + seq![NEWLINE] + rest;
            &&& record_end(s, 0, delim) == raw.len()
            &&& s.take(raw.len() as int) == raw
            &&& s.skip(raw.len() as int + 1) == rest
            &&& newlines(s.take(raw.len() as int + 1)) == newlines(raw) + 1
        }),
{
    let s = raw + seq![NEWLINE] + rest;
    let n = raw.len() as int;
    assert forall|k: int| 0 <= k < n implies !#[trigger] ends_record(s, k, delim) by {
        lemma_ends_record_prefix(s, raw, k, delim);
    }
    assert(s.take(n) =~= raw);
    assert(s[n] == NEWLINE);
    lemma_record_end_skips(s, 0, n, delim);
    assert(s.skip(n + 1) =~= rest);
    assert(s.take(n + 1).drop_last() =~= raw);
}

/// What is written verbatim with a newline reads back verbatim, whatever
/// follows it.
pub proof fn law_records_read_back(raw: Seq<u8>, rest: Seq<u8>, delim: u8, line: int)
    requires
        complete(raw, delim),
        without_return(raw) == raw,
    ensures
        csv_step(raw + seq![NEWLINE] + rest, delim, line) == (Step::Record {
            bytes: raw,
            rest,
            next_line: line + newlines(raw) + 1,
        }),
{
    lemma_record_ends(raw, rest, delim);
}

/// What is written verbatim with a carriage return and a newline reads back
/// verbatim, whatever follows it.
pub proof fn law_crlf_records_read_back(raw: Seq<u8>, rest: Seq<u8>, delim: u8, line: int)
    requires
        complete(raw, delim),
    ensures
        csv_step(raw + seq![RETURN, NEWLINE] + rest, delim, line) == (Step::Record {
            bytes: raw,
            rest,
            next_line: line + newlines(raw) + 1,
        }),
{
    let p = raw.push(RETURN);
    assert(p.drop_last() =~= raw);
    assert forall|k: int| 0 <= k < p.len() implies !#[trigger] ends_record(p, k, delim) by {
        if k < raw.len() {
            lemma_ends_record_prefix(p, raw, k, delim);
        }
    }
    lemma_record_ends(p, rest, delim);
    assert(raw + seq![RETURN, NEWLINE] + rest =~= p + seq![NEWLINE] + rest);
}

/// A last record without terminator is taken as it is.
pub proof fn law_last_record_reads_back(raw: Seq<u8>, delim: u8, line: int)
    requires
        complete(raw, delim),
        raw.len() > 0,
    ensures
        csv_step(raw, delim, line) == (Step::Record {
            bytes: raw,
            rest: Seq::empty(),
            next_line: line + newlines(raw),
        }),
{
    lemma_record_end_skips(raw, 0, raw.len() as int, delim);
}

/// Reading a record takes some bytes.
pub proof fn lemma_step_rest(s: Seq<u8>, delim: u8, line: int)
    ensures
        csv_step(s, delim, line) matches Step::Record { rest, .. } ==> rest.len() < s.len(),
{
    lemma_record_end(s, 0, delim);
}

/// All records of the stream `s`, read one after the other.
pub open spec fn all_records(s: Seq<u8>, delim: u8, line: int) -> Result<
    Seq<Seq<u8>>,
    Seq<char>,
>
    decreases s.len(),
{
    match csv_step(s, delim, line) {
        Step::End => Ok(Seq::empty()),
        Step::Fail { reason } => Err(reason),
        Step::Record { bytes, rest, next_line } => {
            proof {
                lemma_step_rest(s, delim, line);
            }
            match all_records(rest, delim, next_line) {
                Ok(more) => Ok(seq![bytes] + more),
                Err(e) => Err(e),
            }
        },
    }
}

/// Records with what stands behind each of them.
pub open spec fn with_ends(records: Seq<Seq<u8>>, ends: Seq<Seq<u8>>) -> Seq<u8>
    decreases records.len(),
{
    if records.len() == 0 || ends.len() == 0 {
        Seq::empty()
    } else {
        records[0] + ends[0] + with_ends(records.drop_first(), ends.drop_first())
    }
}

/// Whether `end` can stand behind `raw`: a carriage return and a newline; a
/// newline alone, unless the record ends in a carriage return; or nothing,
/// behind a last record that is not empty.
pub open spec fn is_end(raw: Seq<u8>, end: Seq<u8>, last: bool) -> bool {
    ||| end == seq![RETURN, NEWLINE]
    ||| end == seq![NEWLINE] && without_return(raw) == raw
    ||| end == Seq::<u8>::empty() && last && raw.len() > 0
}

/// A list of complete records, each with either terminator, the last one
/// perhaps with none, reads back record by record, and nothing follows.
pub proof fn law_lists_read_back(
    records: Seq<Seq<u8>>,
    ends: Seq<Seq<u8>>,
    delim: u8,
    line: int,
)
    requires
        records.len() == ends.len(),
        forall|i: int|
            0 <= i < records.len() ==> complete(#[trigger] records[i], delim) && is_end(
                records[i],
                ends[i],
                i == records.len() - 1,
            ),
    ensures
        all_records(with_ends(records, ends), delim, line) == Ok::<Seq<Seq<u8>>, Seq<char>>(
            records,
        ),
    decreases records.len(),
{
    let s = with_ends(records, ends);
    if records.len() == 0 {
        assert(record_end(s, 0, delim) == 0);
        assert(records =~= Seq::<Seq<u8>>::empty());
    } else {
        let raw = records[0];
        let end = ends[0];
        let more = records.drop_first();
        let tail = with_ends(more, ends.drop_first());
        assert(complete(records[0], delim));
        assert forall|i: int| 0 <= i < more.len() implies complete(#[trigger] more[i], delim)
            && is_end(more[i], ends.drop_first()[i], i == more.len() - 1) by {
            assert(complete(records[i + 1], delim));
        }
        if end.len() == 0 {
            assert(s =~= raw);
            assert(tail =~= Seq::<u8>::empty());
            law_last_record_reads_back(raw, delim, line);
            law_lists_read_back(more, ends.drop_first(), delim, line + newlines(raw));
        } else {
            if end == seq![RETURN, NEWLINE] {
                law_crlf_records_read_back(raw, tail, delim, line);
            } else {
                law_records_read_back(raw, tail, delim, line);
            }
            law_lists_read_back(more, ends.drop_first(), delim, line + newlines(raw) + 1);
        }
        assert(seq![raw] + more =~= records);
    }
}

pub proof fn lemma_state_append(a: Seq<u8>, b: Seq<u8>, delim: u8)
    requires
        state_after(a, delim) == FieldState::Start,
    ensures
        state_after(a + b, delim) == state_after(b, delim),
    decreases b.len(),
{
    if b.len() == 0 {
        assert(a + b =~= a);
    } else {
        assert((a + b).drop_last() =~= a + b.drop_last());
        lemma_state_append(a, b.drop_last(), delim);
    }
}

proof fn lemma_fields_append(a: Seq<u8>, b: Seq<u8>, delim: u8)
    requires
        state_after(a, delim) == FieldState::Start,
        field_bytes(a, delim).last() == Seq::<u8>::empty(),
    ensures
        field_bytes(a + b, delim) == field_bytes(a, delim).drop_last() + field_bytes(b, delim),
    decreases b.len(),
{
    lemma_some_field(a, delim);
    if b.len() == 0 {
        assert(a + b =~= a);
        assert(field_bytes(a, delim) =~= field_bytes(a, delim).drop_last() + field_bytes(b, delim));
    } else {
        assert((a + b).drop_last() =~= a + b.drop_last());
        lemma_fields_append(a, b.drop_last(), delim);
        lemma_state_append(a, b.drop_last(), delim);
        lemma_some_field(b.drop_last(), delim);
        assert(field_bytes(a + b, delim) =~= field_bytes(a, delim).drop_last() + field_bytes(
            b,
            delim,
        ));
    }
}

/// A delimiter outside quotes ends a field: the fields before it and after
/// it do not depend on each other.
pub proof fn law_delimiter_separates(a: Seq<u8>, b: Seq<u8>, delim: u8)
    requires
        delim != QUOTE,
        state_after(a, delim) != FieldState::Quoted,
    ensures
        field_bytes(a + seq![delim] + b, delim) == field_bytes(a, delim) + field_bytes(b, delim),
{
    let p = a + seq![delim];
    assert(p.drop_last() =~= a);
    lemma_some_field(a, delim);
    lemma_fields_append(p, b, delim);
    assert(field_bytes(p, delim).drop_last() =~= field_bytes(a, delim));
}

/// `value` with every quote doubled.
pub open spec fn doubled(value: Seq<u8>) -> Seq<u8>
    decreases value.len(),
{
    if value.len() == 0 {
        Seq::empty()
    } else if value.last() == QUOTE {
        doubled(value.drop_last()).push(QUOTE).push(QUOTE)
    } else {
        doubled(value.drop_last()).push(value.last())
    }
}

pub proof fn lemma_open_quote(value: Seq<u8>, delim: u8)
    requires
        delim != QUOTE,
    ensures
        state_after(seq![QUOTE] + doubled(value), delim) == FieldState::Quoted,
        field_bytes(seq![QUOTE] + doubled(value), delim) == seq![value],
    decreases value.len(),
{
    let q = seq![QUOTE];
    if value.len() == 0 {
        assert(q + doubled(value) =~= q);
        assert(q.drop_last() =~= Seq::<u8>::empty());
        reveal_with_fuel(state_after, 2);
        reveal_with_fuel(field_bytes, 2);
        assert(value =~= Seq::<u8>::empty());
        assert(field_bytes(q, delim) =~= seq![value]);
    } else {
        let v = value.drop_last();
        lemma_open_quote(v, delim);
        let p = q + doubled(v);
        assert(value =~= v.push(value.last()));
        if value.last() == QUOTE {
            let p1 = p.push(QUOTE);
            let p2 = p1.push(QUOTE);
            assert(q + doubled(value) =~= p2);
            assert(p2.drop_last() =~= p1);
            assert(p1.drop_last() =~= p);
            assert(field_bytes(p1, delim) == seq![v]);
            assert(field_bytes(p2, delim) =~= seq![value]);
        } else {
            let p1 = p.push(value.last());
            assert(q + doubled(value) =~= p1);
            assert(p1.drop_last() =~= p);
            assert(field_bytes(p1, delim) =~= seq![value]);
        }
    }
}

/// Quoting is faithful: any value at all, delimiters, quotes and newlines
/// with it, stands in quotes with its quotes doubled and is read back as it
/// was.
pub proof fn law_quoted_values_decode(value: Seq<u8>, delim: u8)
    requires
        delim != QUOTE,
    ensures
        field_bytes((seq![QUOTE] + doubled(value)).push(QUOTE), delim) == seq![value],
        complete((seq![QUOTE] + doubled(value)).push(QUOTE), delim),
{
    let p = seq![QUOTE] + doubled(value);
    let raw = p.push(QUOTE);
    lemma_open_quote(value, delim);
    assert(raw.drop_last() =~= p);
    lemma_quoted_inside(value, delim);
    assert forall|k: int| 0 <= k < raw.len() implies !#[trigger] ends_record(raw, k, delim) by {
        if k < p.len() {
            lemma_ends_record_prefix(raw, p, k, delim);
        }
    }
}

/// No byte between the quotes ends the record.
pub proof fn lemma_quoted_inside(value: Seq<u8>, delim: u8)
    requires
        delim != QUOTE,
    ensures
        forall|k: int|
            0 <= k < doubled(value).len() + 1 ==> !#[trigger] ends_record(
                seq![QUOTE] + doubled(value),
                k,
                delim,
            ),
    decreases value.len(),
{
    let q = seq![QUOTE];
    let all = q + doubled(value);
    if value.len() > 0 {
        let v = value.drop_last();
        let p = q + doubled(v);
        lemma_quoted_inside(v, delim);
        lemma_open_quote(v, delim);
        assert(p.is_prefix_of(all)) by {
            assert(all.take(p.len() as int) =~= p);
        }
        assert forall|k: int| 0 <= k < all.len() implies !#[trigger] ends_record(all, k, delim) by {
            if k < p.len() {
                lemma_ends_record_prefix(all, p, k, delim);
            } else if k == p.len() {
                assert(all.take(k) =~= p);
            }
        }
    }
}

/// Unquoted values stand for themselves: one that holds no delimiter and
/// does not begin with a quote is a field as it is.
pub proof fn law_unquoted_values_are_literal(value: Seq<u8>, delim: u8)
    requires
        forall|k: int| 0 <= k < value.len() ==> #[trigger] value[k] != delim,
        value.len() > 0 ==> value[0] != QUOTE,
    ensures
        field_bytes(value, delim) == seq![value],
        value.len() > 0 ==> state_after(value, delim) == FieldState::Unquoted,
    decreases value.len(),
{
    if value.len() > 0 {
        law_unquoted_values_are_literal(value.drop_last(), delim);
        assert(value =~= value.drop_last().push(value.last()));
        assert(field_bytes(value, delim) =~= seq![value]);
    } else {
        assert(value =~= Seq::<u8>::empty());
    }
}

} // verus!
