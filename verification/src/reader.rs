//! Bounds-checked cursor over a byte buffer.

use vstd::prelude::*;
use crate::bytes::{be32, be64};
use crate::Mp4Error;

verus! {

/// A cursor over a borrowed byte buffer. Reads are bounds-checked and
/// fail with [`Mp4Error::TruncatedData`] instead of panicking.
pub struct Mp4Reader<'a> {
    data: &'a [u8],
    offset: usize,
}

impl<'a> Mp4Reader<'a> {
    /// The whole underlying buffer.
    pub closed spec fn buf(self) -> Seq<u8> {
        self.data@
    }

    /// The cursor position.
    pub closed spec fn pos(self) -> int {
        self.offset as int
    }

    /// A cursor at the start of `data`.
    pub fn new(data: &'a [u8]) -> (r: Self)
        ensures
            r.buf() == data@,
            r.pos() == 0,
    {
        Mp4Reader { data, offset: 0 }
    }

    /// Reads the big-endian 32-bit integer at the cursor and advances
    /// past it.
    pub fn read_u32(&mut self) -> (r: Result<u32, Mp4Error>)
        ensures
            final(self).buf() == old(self).buf(),
            old(self).pos() + 4 <= old(self).buf().len() ==> {
                &&& r == Ok::<u32, Mp4Error>(be32(old(self).buf(), old(self).pos()) as u32)
                &&& final(self).pos() == old(self).pos() + 4
            },
            old(self).pos() + 4 > old(self).buf().len() ==> {
                &&& r == Err::<u32, Mp4Error>(Mp4Error::TruncatedData)
                &&& final(self).pos() == old(self).pos()
            },
    {
        let n = self.data.len();
        if self.offset >= n || n - self.offset < 4 {
            return Err(Mp4Error::TruncatedData);
        }
        let v = crate::bytes::read_be_u32(self.data, self.offset);
        self.offset = self.offset + 4;
        Ok(v)
    }

    /// Reads the big-endian 64-bit integer at the cursor and advances
    /// past it.
    pub fn read_u64(&mut self) -> (r: Result<u64, Mp4Error>)
        ensures
            final(self).buf() == old(self).buf(),
            old(self).pos() + 8 <= old(self).buf().len() ==> {
                &&& r == Ok::<u64, Mp4Error>(be64(old(self).buf(), old(self).pos()) as u64)
                &&& final(self).pos() == old(self).pos() + 8
            },
            old(self).pos() + 8 > old(self).buf().len() ==> {
                &&& r == Err::<u64, Mp4Error>(Mp4Error::TruncatedData)
                &&& final(self).pos() == old(self).pos()
            },
    {
        let n = self.data.len();
        if self.offset >= n || n - self.offset < 8 {
            return Err(Mp4Error::TruncatedData);
        }
        let v = crate::bytes::read_be_u64(self.data, self.offset);
        self.offset = self.offset + 8;
        Ok(v)
    }

    /// Reads `len` bytes at the cursor and advances past them.
    pub fn read_bytes(&mut self, len: usize) -> (r: Result<&'a [u8], Mp4Error>)
        ensures
            final(self).buf() == old(self).buf(),
            old(self).pos() + len <= old(self).buf().len() ==> {
                &&& r matches Ok(b) && b@ == old(self).buf().subrange(
                    old(self).pos(), old(self).pos() + len)
                &&& final(self).pos() == old(self).pos() + len
            },
            old(self).pos() + len > old(self).buf().len() ==> {
                &&& r matches Err(e) && e == Mp4Error::TruncatedData
                &&& final(self).pos() == old(self).pos()
            },
    {
        let n = self.data.len();
        if self.offset > n || n - self.offset < len {
            return Err(Mp4Error::TruncatedData);
        }
        let b = vstd::slice::slice_subrange(self.data, self.offset, self.offset + len);
        self.offset = self.offset + len;
        Ok(b)
    }

    /// Moves the cursor to an absolute position.
    pub fn seek(&mut self, offset: usize)
        ensures
            final(self).buf() == old(self).buf(),
            final(self).pos() == offset,
    {
        self.offset = offset;
    }

    /// The cursor position.
    pub fn position(&self) -> (r: usize)
        ensures
            r == self.pos(),
    {
        self.offset
    }

    /// How many bytes remain between the cursor and the end of the
    /// buffer (zero when the cursor sits past the end).
    pub fn remaining(&self) -> (r: usize)
        ensures
            self.pos() <= self.buf().len() ==> r == self.buf().len() - self.pos(),
            self.pos() > self.buf().len() ==> r == 0,
    {
        let n = self.data.len();
        if self.offset >= n {
            0
        } else {
            n - self.offset
        }
    }
}

} // verus!
