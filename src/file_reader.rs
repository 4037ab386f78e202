//! Sources of bytes that a reader fetches the file from.
use vstd::prelude::*;
use crate::error::EdfError;

verus! {

/// A file that can be read at any offset, blocking until the bytes are there.
pub trait SyncFileReader {
    /// Reads `length` bytes from `offset`. Fails with `IoFailure` when the file
    /// cannot supply exactly that range.
    fn read(&self, offset: u64, length: u64) -> (r: Result<Vec<u8>, EdfError>)
        ensures
            r matches Ok(data) ==> data@.len() == length,
            r matches Err(e) ==> e == EdfError::IoFailure,
    ;
}

/// A file held in memory.
pub struct MemoryReader {
    pub bytes: Vec<u8>,
}

impl MemoryReader {
    pub fn new(bytes: Vec<u8>) -> (r: MemoryReader)
        ensures
            r.bytes@ == bytes@,
    {
        MemoryReader { bytes }
    }
}

impl SyncFileReader for MemoryReader {
    fn read(&self, offset: u64, length: u64) -> (r: Result<Vec<u8>, EdfError>) {
        let len = self.bytes.len();
        if offset as u128 + length as u128 > len as u128 {
            return Err(EdfError::IoFailure);
        }
        let lo = offset as usize;
        let hi = lo + length as usize;
        let mut out: Vec<u8> = Vec::new();
        let mut i: usize = lo;
        while i < hi
            invariant
                lo <= i <= hi <= self.bytes@.len(),
                lo == offset,
                hi == offset + length,
                out@ == self.bytes@.subrange(lo as int, i as int),
            decreases hi - i,
        {
            out.push(self.bytes[i]);
            i = i + 1;
            assert(out@ =~= self.bytes@.subrange(lo as int, i as int));
        }
        Ok(out)
    }
}

} // verus!
