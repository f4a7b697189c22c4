//! Where bytes come from and where they go: the input, the output, and the
//! store that holds spilled runs.
//!
//! Each trait says what its methods do when they succeed. A value that is
//! `reliable` always succeeds; the ones in memory that stand here are. Any
//! other one may fail at any call, with a text that says why.
//!
//! What a stream or a store holds is a spec function of its trait, and each
//! implementation that is verified says what that is. The functions have a
//! body of their own only so that unverified code around the library, such
//! as a stream over a file, can implement the traits without any spec code:
//! such an implementation has to keep the contracts for what it really
//! holds, and nothing proves that it does.

use std::collections::HashMap;

use vstd::prelude::*;

verus! {

/// A buffered stream of input bytes.
pub trait ByteSource: Sized {
    /// The bytes that are still to be read.
    open spec fn remaining(&self) -> Seq<u8> {
        arbitrary()
    }

    /// The part of them that is at hand.
    open spec fn buffered(&self) -> Seq<u8> {
        arbitrary()
    }

    /// Whether reading never fails.
    open spec fn reliable(&self) -> bool {
        false
    }

    /// Make some bytes available unless the stream has ended.
    fn fill(&mut self) -> (r: Result<(), String>)
        ensures
            final(self).remaining() == old(self).remaining(),
            final(self).reliable() == old(self).reliable(),
            old(self).reliable() ==> r is Ok,
            r is Ok ==> final(self).buffered().is_prefix_of(final(self).remaining()),
            r is Ok && final(self).remaining().len() > 0 ==> final(self).buffered().len() > 0,
    ;

    /// The bytes at hand.
    fn buffer(&self) -> (r: &[u8])
        ensures
            r@ == self.buffered(),
    ;

    /// Take the first `n` of the bytes at hand.
    fn consume(&mut self, n: usize)
        requires
            n <= old(self).buffered().len(),
            old(self).buffered().is_prefix_of(old(self).remaining()),
        ensures
            final(self).remaining() == old(self).remaining().skip(n as int),
            final(self).reliable() == old(self).reliable(),
    ;
}

/// A slice is a stream of its bytes, all of them at hand.
impl<'a> ByteSource for &'a [u8] {
    open spec fn remaining(&self) -> Seq<u8> {
        (*self)@
    }

    open spec fn buffered(&self) -> Seq<u8> {
        (*self)@
    }

    open spec fn reliable(&self) -> bool {
        true
    }

    fn fill(&mut self) -> (r: Result<(), String>) {
        Ok(())
    }

    fn buffer(&self) -> (r: &[u8]) {
        *self
    }

    fn consume(&mut self, n: usize) {
        let rest = vstd::slice::slice_subrange(*self, n, self.len());
        assert(rest@ =~= old(self).remaining().skip(n as int));
        *self = rest;
    }
}

/// A place that output bytes are written to.
pub trait ByteSink: Sized {
    /// The bytes written so far.
    open spec fn written(&self) -> Seq<u8> {
        arbitrary()
    }

    /// The part of them that has been passed on to where it goes.
    open spec fn delivered(&self) -> Seq<u8> {
        arbitrary()
    }

    /// Whether writing never fails.
    open spec fn reliable(&self) -> bool {
        false
    }

    /// Write all of `bytes`.
    fn write_all(&mut self, bytes: &[u8]) -> (r: Result<(), String>)
        ensures
            final(self).reliable() == old(self).reliable(),
            old(self).reliable() ==> r is Ok,
            r is Ok ==> final(self).written() == old(self).written() + bytes@,
    ;

    /// Pass everything written on to where it goes.
    fn flush(&mut self) -> (r: Result<(), String>)
        ensures
            final(self).reliable() == old(self).reliable(),
            old(self).reliable() ==> r is Ok,
            r is Ok ==> final(self).written() == old(self).written(),
            r is Ok ==> final(self).delivered() == final(self).written(),
    ;
}

impl ByteSink for Vec<u8> {
    open spec fn written(&self) -> Seq<u8> {
        self@
    }

    open spec fn delivered(&self) -> Seq<u8> {
        self@
    }

    open spec fn reliable(&self) -> bool {
        true
    }

    fn write_all(&mut self, bytes: &[u8]) -> (r: Result<(), String>) {
        self.extend_from_slice(bytes);
        assert(self@ =~= old(self)@ + bytes@);
        Ok(())
    }

    fn flush(&mut self) -> (r: Result<(), String>) {
        Ok(())
    }
}

/// A place for temporary files, each known by a number.
pub trait SpillStore: Sized {
    /// What a new file is written with.
    type Writer: ByteSink;

    /// What a file is read with.
    type Reader: ByteSource;

    /// The finished files and what they hold.
    open spec fn files(&self) -> Map<u64, Seq<u8>> {
        arbitrary()
    }

    /// Whether no operation ever fails.
    open spec fn reliable(&self) -> bool {
        false
    }

    /// Set up a place of its own, with no files in it.
    fn prepare(&mut self) -> (r: Result<(), String>)
        ensures
            final(self).reliable() == old(self).reliable(),
            old(self).reliable() ==> r is Ok,
            r is Ok ==> final(self).files() == Map::<u64, Seq<u8>>::empty(),
    ;

    /// Begin a new file.
    fn create(&mut self, id: u64) -> (r: Result<Self::Writer, String>)
        requires
            !old(self).files().contains_key(id),
        ensures
            final(self).reliable() == old(self).reliable(),
            final(self).files() == old(self).files(),
            old(self).reliable() ==> r is Ok,
            r matches Ok(w) ==> w.written() == Seq::<u8>::empty() && (old(self).reliable()
                ==> w.reliable()),
    ;

    /// Finish a file with what has been written, all of it passed on.
    fn close(&mut self, id: u64, writer: Self::Writer) -> (r: Result<(), String>)
        requires
            !old(self).files().contains_key(id),
            writer.delivered() == writer.written(),
        ensures
            final(self).reliable() == old(self).reliable(),
            old(self).reliable() && writer.reliable() ==> r is Ok,
            r is Ok ==> final(self).files() == old(self).files().insert(id, writer.written()),
    ;

    /// Open a finished file, if there is one.
    fn open(&self, id: u64) -> (r: Result<Self::Reader, String>)
        ensures
            self.reliable() && self.files().contains_key(id) ==> r is Ok,
            r matches Ok(f) ==> {
                &&& self.files().contains_key(id)
                &&& f.remaining() == self.files()[id]
                &&& self.reliable() ==> f.reliable()
            },
    ;

    /// Delete a file that is not needed any more, if that is possible. The
    /// other files stay as they are.
    fn remove(&mut self, id: u64)
        ensures
            final(self).reliable() == old(self).reliable(),
            old(self).reliable() ==> final(self).files() == old(self).files().remove(id),
            final(self).files().dom().subset_of(old(self).files().dom()),
            forall|k: u64|
                #![trigger final(self).files()[k]]
                k != id && old(self).files().contains_key(k) ==> {
                    &&& final(self).files().contains_key(k)
                    &&& final(self).files()[k] == old(self).files()[k]
                },
    ;
}

/// Bytes held in memory, read from the front.
pub struct MemoryReader {
    pub bytes: Vec<u8>,
    pub pos: usize,
}

impl ByteSource for MemoryReader {
    open spec fn remaining(&self) -> Seq<u8> {
        if self.pos <= self.bytes@.len() {
            self.bytes@.skip(self.pos as int)
        } else {
            Seq::empty()
        }
    }

    open spec fn buffered(&self) -> Seq<u8> {
        self.remaining()
    }

    open spec fn reliable(&self) -> bool {
        true
    }

    fn fill(&mut self) -> (r: Result<(), String>) {
        Ok(())
    }

    fn buffer(&self) -> (r: &[u8]) {
        let n: usize = self.bytes.len();
        let from: usize = if self.pos <= n {
            self.pos
        } else {
            n
        };
        let rest = vstd::slice::slice_subrange(self.bytes.as_slice(), from, n);
        assert(rest@ =~= self.buffered());
        rest
    }

    fn consume(&mut self, n: usize) {
        let len: usize = self.bytes.len();
        if n > 0 {
            self.pos = self.pos + n;
        }
        assert(self.remaining() =~= old(self).remaining().skip(n as int));
    }
}

/// Temporary files held in memory.
pub struct MemoryStore {
    pub held: HashMap<u64, Vec<u8>>,
}

impl MemoryStore {
    pub fn new() -> (r: MemoryStore)
        ensures
            r.reliable(),
            r.files() == Map::<u64, Seq<u8>>::empty(),
    {
        let r = MemoryStore { held: HashMap::new() };
        assert(r.files() =~= Map::<u64, Seq<u8>>::empty());
        r
    }
}

impl SpillStore for MemoryStore {
    type Writer = Vec<u8>;

    type Reader = MemoryReader;

    open spec fn files(&self) -> Map<u64, Seq<u8>> {
        Map::new(|k: u64| self.held@.contains_key(k), |k: u64| self.held@[k]@)
    }

    open spec fn reliable(&self) -> bool {
        true
    }

    fn prepare(&mut self) -> (r: Result<(), String>) {
        self.held = HashMap::new();
        assert(self.files() =~= Map::<u64, Seq<u8>>::empty());
        Ok(())
    }

    fn create(&mut self, id: u64) -> (r: Result<Vec<u8>, String>) {
        Ok(Vec::new())
    }

    fn close(&mut self, id: u64, writer: Vec<u8>) -> (r: Result<(), String>) {
        broadcast use vstd::std_specs::hash::group_hash_axioms;

        let ghost bytes = writer@;
        self.held.insert(id, writer);
        assert(self.files() =~= old(self).files().insert(id, bytes));
        Ok(())
    }

    fn open(&self, id: u64) -> (r: Result<MemoryReader, String>) {
        broadcast use vstd::std_specs::hash::group_hash_axioms;

        match self.held.get(&id) {
            Some(bytes) => {
                let mut copy: Vec<u8> = Vec::new();
                copy.extend_from_slice(bytes.as_slice());
                let r = MemoryReader { bytes: copy, pos: 0 };
                assert(r.remaining() =~= self.files()[id]);
                Ok(r)
            },
            None => Err(crate::text::owned("no such file")),
        }
    }

    fn remove(&mut self, id: u64) {
        broadcast use vstd::std_specs::hash::group_hash_axioms;

        self.held.remove(&id);
        assert(self.files() =~= old(self).files().remove(id));
    }
}

} // verus!
