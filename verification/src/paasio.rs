//! Statistics on what passes through a reader or a writer: how many bytes,
//! in how many operations.

use vstd::prelude::*;

verus! {

/// A reader together with the count of what was read through it.
pub struct ReadStats<R> {
    reader: R,
    bytes: usize,
    count: usize,
}

impl<R> ReadStats<R> {
    /// The wrapped reader.
    pub closed spec fn wrapped(&self) -> R {
        self.reader
    }

    /// The number of bytes read so far.
    pub closed spec fn total_bytes(&self) -> nat {
        self.bytes as nat
    }

    /// The number of read operations so far.
    pub closed spec fn total_reads(&self) -> nat {
        self.count as nat
    }

    /// Wraps `wrapped`, with nothing read yet.
    pub fn new(wrapped: R) -> (stats: ReadStats<R>)
        ensures
            stats.wrapped() == wrapped,
            stats.total_bytes() == 0,
            stats.total_reads() == 0,
    {
        ReadStats { reader: wrapped, bytes: 0, count: 0 }
    }

    /// The wrapped reader.
    pub fn get_ref(&self) -> (r: &R)
        ensures
            *r == self.wrapped(),
    {
        &self.reader
    }

    /// The wrapped reader, to read through.
    pub fn get_mut(&mut self) -> (r: &mut R)
        ensures
            *r == old(self).wrapped(),
            final(self).wrapped() == *final(r),
            final(self).total_bytes() == old(self).total_bytes(),
            final(self).total_reads() == old(self).total_reads(),
    {
        &mut self.reader
    }

    /// The number of bytes read so far.
    pub fn bytes_through(&self) -> (n: usize)
        ensures
            n == self.total_bytes(),
    {
        self.bytes
    }

    /// The number of read operations so far.
    pub fn reads(&self) -> (n: usize)
        ensures
            n == self.total_reads(),
    {
        self.count
    }

    /// Whether one more read operation of `bytes` bytes can be counted.
    pub fn can_record(&self, bytes: usize) -> (ok: bool)
        ensures
            ok == (self.total_bytes() + bytes <= usize::MAX && self.total_reads() < usize::MAX),
    {
        bytes <= usize::MAX - self.bytes && self.count < usize::MAX
    }

    /// Counts one read operation that read `bytes` bytes.
    pub fn record(&mut self, bytes: usize)
        requires
            old(self).total_bytes() + bytes <= usize::MAX,
            old(self).total_reads() < usize::MAX,
        ensures
            final(self).wrapped() == old(self).wrapped(),
            final(self).total_bytes() == old(self).total_bytes() + bytes,
            final(self).total_reads() == old(self).total_reads() + 1,
    {
        self.bytes += bytes;
        self.count += 1;
    }
}

/// A writer together with the count of what was written through it.
pub struct WriteStats<W> {
    writer: W,
    bytes: usize,
    count: usize,
}

impl<W> WriteStats<W> {
    /// The wrapped writer.
    pub closed spec fn wrapped(&self) -> W {
        self.writer
    }

    /// The number of bytes written so far.
    pub closed spec fn total_bytes(&self) -> nat {
        self.bytes as nat
    }

    /// The number of write operations so far.
    pub closed spec fn total_writes(&self) -> nat {
        self.count as nat
    }

    /// Wraps `wrapped`, with nothing written yet.
    pub fn new(wrapped: W) -> (stats: WriteStats<W>)
        ensures
            stats.wrapped() == wrapped,
            stats.total_bytes() == 0,
            stats.total_writes() == 0,
    {
        WriteStats { writer: wrapped, bytes: 0, count: 0 }
    }

    /// The wrapped writer.
    pub fn get_ref(&self) -> (w: &W)
        ensures
            *w == self.wrapped(),
    {
        &self.writer
    }

    /// The wrapped writer, to write through.
    pub fn get_mut(&mut self) -> (w: &mut W)
        ensures
            *w == old(self).wrapped(),
            final(self).wrapped() == *final(w),
            final(self).total_bytes() == old(self).total_bytes(),
            final(self).total_writes() == old(self).total_writes(),
    {
        &mut self.writer
    }

    /// The number of bytes written so far.
    pub fn bytes_through(&self) -> (n: usize)
        ensures
            n == self.total_bytes(),
    {
        self.bytes
    }

    /// The number of write operations so far.
    pub fn writes(&self) -> (n: usize)
        ensures
            n == self.total_writes(),
    {
        self.count
    }

    /// Whether one more write operation of `bytes` bytes can be counted.
    pub fn can_record(&self, bytes: usize) -> (ok: bool)
        ensures
            ok == (self.total_bytes() + bytes <= usize::MAX && self.total_writes() < usize::MAX),
    {
        bytes <= usize::MAX - self.bytes && self.count < usize::MAX
    }

    /// Counts one write operation that wrote `bytes` bytes.
    pub fn record(&mut self, bytes: usize)
        requires
            old(self).total_bytes() + bytes <= usize::MAX,
            old(self).total_writes() < usize::MAX,
        ensures
            final(self).wrapped() == old(self).wrapped(),
            final(self).total_bytes() == old(self).total_bytes() + bytes,
            final(self).total_writes() == old(self).total_writes() + 1,
    {
        self.bytes += bytes;
        self.count += 1;
    }
}

} // verus!
