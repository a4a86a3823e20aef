//! Byte-addressable data sources.
//!
//! The parser and the sample engine read from a [`ByteSource`]: a seekable,
//! readable sequence of bytes whose abstract contents never change while it
//! is being read. [`MemorySource`] is the verified in-memory implementation;
//! file-backed implementations live outside the verified library and promise
//! the same contract.

use vstd::prelude::*;

verus! {

/// Why a read could not be served.
#[derive(Clone, Copy, Debug, PartialEq, Eq, Structural)]
pub enum SourceError {
    /// The requested range extends past the end of the source.
    Eof,
    /// The underlying device failed; the data may exist but was not read.
    Io,
}

/// A byte-addressable, seekable, readable source of data.
///
/// Reading never changes the abstract contents; `&mut self` only allows an
/// implementation to move an internal cursor or driver state.
pub trait ByteSource {
    /// The full byte contents of the source.
    spec fn contents(&self) -> Seq<u8>;

    /// Whether reads inside the contents always succeed: true of an
    /// in-memory source, false of a device-backed one, which may fail at
    /// any time.
    spec fn obeys_total_reads(&self) -> bool;

    /// The contents fit in a byte-addressable file, so positions fit in u64.
    proof fn contents_len_bounded(&self)
        ensures
            self.contents().len() <= u64::MAX,
    ;

    /// Reads exactly `n` bytes starting at absolute position `pos`.
    ///
    /// `Eof` is returned only when the range does not lie inside the
    /// contents; an `Io` failure may happen at any time.
    fn read_at(&mut self, pos: u64, n: usize) -> (r: Result<Vec<u8>, SourceError>)
        ensures
            final(self).contents() == old(self).contents(),
            final(self).obeys_total_reads() == old(self).obeys_total_reads(),
            r matches Ok(v) ==> pos + n <= old(self).contents().len() && v@ == old(self)
                .contents().subrange(pos as int, pos + n),
            r matches Err(SourceError::Eof) ==> pos + n > old(self).contents().len(),
            old(self).obeys_total_reads() && pos + n <= old(self).contents().len()
                ==> r matches Ok(v2),
    ;
}

/// A [`ByteSource`] over a byte vector, for data already in memory.
pub struct MemorySource {
    data: Vec<u8>,
}

impl MemorySource {
    /// Wraps a byte vector as a source.
    pub fn new(data: Vec<u8>) -> (r: MemorySource)
        ensures
            r.contents() == data@,
    {
        MemorySource { data }
    }
}

impl ByteSource for MemorySource {
    closed spec fn contents(&self) -> Seq<u8> {
        self.data@
    }

    closed spec fn obeys_total_reads(&self) -> bool {
        true
    }

    proof fn contents_len_bounded(&self) {
        assert(self.data@.len() == self.data.len());
    }

    fn read_at(&mut self, pos: u64, n: usize) -> (r: Result<Vec<u8>, SourceError>) {
        if pos > self.data.len() as u64 || n as u64 > self.data.len() as u64 - pos {
            return Err(SourceError::Eof);
        }
        let start: usize = pos as usize;
        let mut out: Vec<u8> = Vec::new();
        let mut i: usize = 0;
        while i < n
            invariant
                start + n <= self.data.len(),
                i <= n,
                out@ == self.data@.subrange(start as int, start + i),
            decreases n - i,
        {
            out.push(self.data[start + i]);
            proof {
                assert(out@ =~= self.data@.subrange(start as int, start + i + 1));
            }
            i = i + 1;
        }
        Ok(out)
    }
}

} // verus!
