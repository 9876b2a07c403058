//! Trimming of records to the window in which the guide is looked for.

use crate::counter::window;
use crate::library::Record;
use vstd::prelude::*;
use vstd::slice::{slice_subrange, slice_to_vec};

verus! {

/// A record is too short for the window.
#[derive(Debug, Clone, Copy, PartialEq, Eq, Structural)]
pub struct TooShort;

/// Hands out the records of a reader one by one, each trimmed to the window
/// of `size` bytes from index `offset` on.
pub struct Trimmer {
    records: Vec<Record>,
    position: usize,
    offset: usize,
    size: usize,
}

impl Trimmer {
    /// The records that are still to be handed out.
    pub closed spec fn remaining(&self) -> Seq<Record> {
        self.records@.skip(self.position as int)
    }

    /// The index at which the window begins.
    pub closed spec fn spec_offset(&self) -> usize {
        self.offset
    }

    /// The length of the window.
    pub closed spec fn spec_size(&self) -> usize {
        self.size
    }

    /// The position is within the records.
    pub closed spec fn wf(&self) -> bool {
        self.position <= self.records.len()
    }

    /// A trimmer of the given records.
    pub fn from_reader(reader: Vec<Record>, offset: usize, size: usize) -> (trimmer: Trimmer)
        ensures
            trimmer.wf(),
            trimmer.remaining() == reader@,
            trimmer.spec_offset() == offset,
            trimmer.spec_size() == size,
    {
        assert(reader@.skip(0) =~= reader@);
        Trimmer { records: reader, position: 0, offset, size }
    }

    /// The window of a sequence, or nothing if the sequence is too short.
    pub fn trim_sequence(&self, token: &[u8]) -> (trimmed: Result<Vec<u8>, TooShort>)
        ensures
            trimmed is Ok == window(token@, self.spec_offset() as int, self.spec_size() as nat)
                is Some,
            trimmed matches Ok(t) ==> Some(t@) == window(
                token@,
                self.spec_offset() as int,
                self.spec_size() as nat,
            ),
    {
        if token.len() >= self.offset && token.len() - self.offset >= self.size {
            Ok(slice_to_vec(slice_subrange(token, self.offset, self.offset + self.size)))
        } else {
            Err(TooShort)
        }
    }

    /// The record with its sequence trimmed to the window.
    fn trim_record(&self, record: &Record) -> (trimmed: Result<Record, TooShort>)
        ensures
            trimmed is Ok == window(record.seq@, self.spec_offset() as int, self.spec_size() as nat)
                is Some,
            trimmed matches Ok(t) ==> t.id@ == record.id@ && Some(t.seq@) == window(
                record.seq@,
                self.spec_offset() as int,
                self.spec_size() as nat,
            ),
    {
        match self.trim_sequence(record.seq.as_slice()) {
            Ok(seq) => Ok(Record { id: slice_to_vec(record.id.as_slice()), seq }),
            Err(error) => Err(error),
        }
    }

    /// Hands out the next record, trimmed; nothing when no record is left.
    /// A record that is too short for the window is passed over with an
    /// error.
    pub fn next_record(&mut self) -> (next: Result<Option<Record>, TooShort>)
        requires
            old(self).wf(),
        ensures
            final(self).wf(),
            final(self).spec_offset() == old(self).spec_offset(),
            final(self).spec_size() == old(self).spec_size(),
            old(self).remaining().len() == 0 ==> next == Ok::<Option<Record>, TooShort>(None)
                && final(self).remaining() == old(self).remaining(),
            old(self).remaining().len() > 0 ==> {
                let first = old(self).remaining()[0];
                &&& final(self).remaining() == old(self).remaining().skip(1)
                &&& match window(
                    first.seq@,
                    old(self).spec_offset() as int,
                    old(self).spec_size() as nat,
                ) {
                    Some(w) => next matches Ok(Some(t)) && t.id@ == first.id@ && t.seq@ == w,
                    None => next is Err,
                }
            },
    {
        if self.position >= self.records.len() {
            return Ok(None);
        }
        let at = self.position;
        self.position = self.position + 1;
        proof {
            assert(old(self).remaining()[0] == self.records@[at as int]);
            assert(self.remaining() =~= old(self).remaining().skip(1));
        }
        match self.trim_record(&self.records[at]) {
            Ok(record) => Ok(Some(record)),
            Err(error) => Err(error),
        }
    }
}

} // verus!
