//! Position-tracking access to one log segment.
//!
//! A `LogReader` holds the bytes of a segment, as they stand in its file, and
//! a cursor into them. A `LogWriter` tracks the end of the active segment and
//! buffers appended bytes until they are flushed.

use crate::codec::copy_range;
use crate::error::KvsError;
use vstd::prelude::*;

verus! {

/// Random access, with a cursor, to the bytes of one segment.
#[derive(Debug)]
pub struct LogReader {
    pub data: Vec<u8>,
    pub pos: u64,
}

impl LogReader {
    /// A reader over `data`, with its cursor at the start.
    pub fn new(data: Vec<u8>) -> (r: LogReader)
        ensures
            r.data@ == data@,
            r.pos == 0,
    {
        LogReader { data, pos: 0 }
    }

    /// Moves the cursor to `pos` and returns it.
    pub fn seek(&mut self, pos: u64) -> (r: u64)
        ensures
            r == pos,
            final(self).pos == pos,
            final(self).data@ == old(self).data@,
    {
        self.pos = pos;
        self.pos
    }

    /// Reads up to `len` bytes at the cursor and moves the cursor past them.
    pub fn read(&mut self, len: usize) -> (r: Vec<u8>)
        ensures
            final(self).data@ == old(self).data@,
            old(self).pos >= old(self).data@.len() ==> r@.len() == 0 && final(self).pos == old(
                self,
            ).pos,
            old(self).pos < old(self).data@.len() ==> {
                let end = if old(self).pos + len <= old(self).data@.len() {
                    old(self).pos + len
                } else {
                    old(self).data@.len() as int
                };
                &&& r@ == old(self).data@.subrange(old(self).pos as int, end)
                &&& final(self).pos == end
            },
    {
        let n: usize = self.data.len();
        if self.pos >= n as u64 {
            return Vec::new();
        }
        let start: usize = self.pos as usize;
        let end: usize = if len <= n - start {
            start + len
        } else {
            n
        };
        let out = copy_range(self.data.as_slice(), start, end);
        self.pos = end as u64;
        out
    }

    /// The `len` bytes at `start`, or `Truncated` when the segment ends before them.
    pub fn read_at(&self, start: u64, len: u64) -> (r: Result<Vec<u8>, KvsError>)
        ensures
            start + len <= self.data@.len() <==> r is Ok,
            r matches Ok(b) ==> b@ == self.data@.subrange(start as int, start + len)
                && start + len <= usize::MAX,
            r matches Err(e) ==> e is Truncated,
    {
        let n: usize = self.data.len();
        if start > n as u64 || len > n as u64 - start {
            return Err(KvsError::Truncated);
        }
        Ok(copy_range(self.data.as_slice(), start as usize, (start + len) as usize))
    }

    /// Moves the cursor to `start` and reads exactly `len` bytes there, or
    /// fails with `Truncated` when fewer are left.
    pub fn read_exact(&mut self, start: u64, len: u64) -> (r: Result<Vec<u8>, KvsError>)
        ensures
            final(self).data@ == old(self).data@,
            start + len <= old(self).data@.len() <==> r is Ok,
            r matches Ok(b) ==> b@ == old(self).data@.subrange(start as int, start + len)
                && final(self).pos == start + len,
            r matches Err(e) ==> e is Truncated && final(self).pos == start,
    {
        self.seek(start);
        match self.read_at(start, len) {
            Ok(b) => {
                self.pos = start + len;
                Ok(b)
            },
            Err(e) => Err(e),
        }
    }

    /// Adds bytes that were appended to the segment's file.
    pub fn append(&mut self, bytes: &Vec<u8>)
        ensures
            final(self).data@ == old(self).data@ + bytes@,
            final(self).pos == old(self).pos,
    {
        let n: usize = bytes.len();
        let ghost start = self.data@;
        let mut i: usize = 0;
        while i < n
            invariant
                n == bytes@.len(),
                0 <= i <= n,
                self.data@ == start + bytes@.subrange(0, i as int),
                self.pos == old(self).pos,
            decreases n - i,
        {
            self.data.push(bytes[i]);
            i = i + 1;
            proof {
                assert(bytes@.subrange(0, i as int) == bytes@.subrange(0, i - 1) + seq![
                    bytes@[i - 1],
                ]);
            }
        }
        proof {
            assert(bytes@.subrange(0, n as int) == bytes@);
        }
    }
}

/// Appends to the active segment, tracking where its end stands.
#[derive(Debug)]
pub struct LogWriter {
    pub filename: String,
    pub pos: u64,
    pub pending: Vec<u8>,
}

impl LogWriter {
    /// A writer for the segment `filename`, whose file ends at `end`.
    pub fn new(filename: String, end: u64) -> (r: LogWriter)
        ensures
            r.filename@ == filename@,
            r.pos == end,
            r.pending@.len() == 0,
    {
        LogWriter { filename, pos: end, pending: Vec::new() }
    }

    /// Buffers `buf` for appending and advances the end by its length, which it returns.
    pub fn write(&mut self, buf: &Vec<u8>) -> (r: usize)
        requires
            old(self).pos + buf@.len() <= u64::MAX,
        ensures
            r == buf@.len(),
            final(self).pos == old(self).pos + buf@.len(),
            final(self).pending@ == old(self).pending@ + buf@,
            final(self).filename@ == old(self).filename@,
    {
        let n: usize = buf.len();
        let ghost start = self.pending@;
        let mut i: usize = 0;
        while i < n
            invariant
                n == buf@.len(),
                0 <= i <= n,
                self.pending@ == start + buf@.subrange(0, i as int),
                self.pos == old(self).pos,
                self.filename@ == old(self).filename@,
            decreases n - i,
        {
            self.pending.push(buf[i]);
            i = i + 1;
            proof {
                assert(buf@.subrange(0, i as int) == buf@.subrange(0, i - 1) + seq![buf@[i - 1]]);
            }
        }
        proof {
            assert(buf@.subrange(0, n as int) == buf@);
        }
        self.pos = self.pos + n as u64;
        n
    }

    /// Hands over the buffered bytes, to be written to the file, and empties the buffer.
    pub fn flush(&mut self) -> (r: Vec<u8>)
        ensures
            r@ == old(self).pending@,
            final(self).pending@.len() == 0,
            final(self).pos == old(self).pos,
            final(self).filename@ == old(self).filename@,
    {
        let mut out: Vec<u8> = Vec::new();
        std::mem::swap(&mut out, &mut self.pending);
        out
    }
}

} // verus!
