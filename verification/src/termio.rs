//! A stream that knows how many bytes went through it, for outputs that cannot seek.
use vstd::prelude::*;

verus! {

/// A place to seek to, as `std::io::SeekFrom` gives it.
#[derive(Debug, Clone, Copy, PartialEq, Eq)]
pub enum SeekFrom {
    Start(u64),
    End(i64),
    Current(i64),
}

/// A seek that a `PartialCursor` cannot make: only asking for the current position works.
#[derive(Debug, Clone, Copy, PartialEq, Eq)]
pub struct NotSeekable;

/// A stream wrapped so that it counts the bytes read from it or written to it.
#[derive(Debug)]
pub struct PartialCursor<T> {
    pos: u64,
    inner: T,
}

impl<T> PartialCursor<T> {
    /// The number of bytes that went through the stream.
    pub closed spec fn spec_pos(&self) -> u64 {
        self.pos
    }

    /// The wrapped stream.
    pub closed spec fn spec_inner(&self) -> T {
        self.inner
    }

    pub fn new(inner: T) -> (c: Self)
        ensures
            c.spec_pos() == 0,
            c.spec_inner() == inner,
    {
        Self { inner, pos: 0 }
    }

    pub fn position(&self) -> (p: u64)
        ensures
            p == self.spec_pos(),
    {
        self.pos
    }

    /// The wrapped stream, to read from or write to.
    pub fn get_mut(&mut self) -> (inner: &mut T)
        ensures
            *inner == old(self).spec_inner(),
            final(self).spec_inner() == *final(inner),
            final(self).spec_pos() == old(self).spec_pos(),
    {
        &mut self.inner
    }

    /// Counts `n` more bytes that went through the stream.
    pub fn advance(&mut self, n: usize)
        requires
            old(self).spec_pos() + n <= u64::MAX,
        ensures
            final(self).spec_pos() == old(self).spec_pos() + n,
            final(self).spec_inner() == old(self).spec_inner(),
    {
        self.pos = self.pos + n as u64;
    }

    /// Seeking: only a seek by zero from the current position works, and gives the count of
    /// bytes that went through.
    pub fn seek(&self, pos: SeekFrom) -> (res: Result<u64, NotSeekable>)
        ensures
            res is Ok <==> pos == SeekFrom::Current(0),
            res matches Ok(p) ==> p == self.spec_pos(),
    {
        match pos {
            SeekFrom::Current(offset) => {
                if offset == 0 {
                    Ok(self.pos)
                } else {
                    Err(NotSeekable)
                }
            },
            _ => Err(NotSeekable),
        }
    }
}

} // verus!
