//! Log store: the bytes of the append-only log, with append at the end and
//! positioned reads. Bytes once appended are never changed.
use vstd::prelude::*;
use vstd::slice::{slice_subrange, slice_to_vec};

use crate::codec::extend_bytes;

verus! {

/// The bytes of an append-only log.
pub struct LogStore {
    bytes: Vec<u8>,
}

impl View for LogStore {
    type V = Seq<u8>;

    closed spec fn view(&self) -> Seq<u8> {
        self.bytes@
    }
}

impl LogStore {
    /// An empty log.
    pub fn new() -> (r: LogStore)
        ensures
            r@ == Seq::<u8>::empty(),
    {
        LogStore { bytes: Vec::new() }
    }

    /// A log that holds `bytes`.
    pub fn from_bytes(bytes: Vec<u8>) -> (r: LogStore)
        ensures
            r@ == bytes@,
    {
        LogStore { bytes }
    }

    /// The offset at which the next append starts: the log's length.
    pub fn end(&self) -> (r: usize)
        ensures
            r == self@.len(),
    {
        self.bytes.len()
    }

    /// The whole log.
    pub fn as_bytes(&self) -> (r: &[u8])
        ensures
            r@ == self@,
    {
        self.bytes.as_slice()
    }

    /// Appends `record` at the end of the log and returns the offset at which
    /// it starts.
    pub fn append(&mut self, record: &[u8]) -> (r: usize)
        requires
            old(self)@.len() + record@.len() <= usize::MAX,
        ensures
            r == old(self)@.len(),
            final(self)@ == old(self)@ + record@,
    {
        let start = self.bytes.len();
        extend_bytes(&mut self.bytes, record);
        start
    }

    /// The `length` bytes that start at `offset`; `None` where the log ends
    /// before them.
    pub fn read_exact_at(&self, offset: usize, length: usize) -> (r: Option<Vec<u8>>)
        ensures
            match r {
                Some(out) => {
                    &&& offset + length <= self@.len()
                    &&& out@ == self@.subrange(offset as int, offset + length)
                },
                None => offset + length > self@.len(),
            },
    {
        let len = self.bytes.len();
        if offset > len || length > len - offset {
            return None;
        }
        let part = slice_subrange(self.bytes.as_slice(), offset, offset + length);
        Some(slice_to_vec(part))
    }
}

} // verus!
