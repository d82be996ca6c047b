//! Errors of the codec, and a cursor over a byte buffer.

use crate::allocator::AllocError;
use vstd::prelude::*;

verus! {

/// The class of an [`Error`].
#[derive(Clone, Copy, Debug, PartialEq, Eq, Structural)]
pub enum ErrorKind {
    /// The bytes do not follow the format.
    InvalidInput,
    /// The value cannot be written in the format.
    InvalidData,
    /// The bytes end before the value does.
    UnexpectedEof,
    /// The arena refused to grow.
    Other,
}

/// What can go wrong while bytes are read or written.
#[derive(Clone, Copy, Debug, PartialEq, Eq, Structural)]
pub enum Error {
    /// A size prefix that is too long, or that announces an atom that is too
    /// large or longer than the input.
    BadEncoding,
    /// A size prefix was asked for where the first byte announces none.
    Internal,
    /// The atom has too many bytes for any size prefix.
    AtomTooBig,
    /// The input ended inside a value.
    UnexpectedEof,
    /// The arena could not hold the decoded value.
    Alloc(AllocError),
}

impl Error {
    /// The class of the error.
    pub open spec fn spec_kind(self) -> ErrorKind {
        match self {
            Error::BadEncoding => ErrorKind::InvalidInput,
            Error::Internal => ErrorKind::InvalidInput,
            Error::AtomTooBig => ErrorKind::InvalidData,
            Error::UnexpectedEof => ErrorKind::UnexpectedEof,
            Error::Alloc(_) => ErrorKind::Other,
        }
    }

    /// The error in words.
    pub open spec fn message(self) -> Seq<char> {
        match self {
            Error::BadEncoding => "bad encoding"@,
            Error::Internal => "internal error"@,
            Error::AtomTooBig => "atom too big"@,
            Error::UnexpectedEof => "unexpected end of input"@,
            Error::Alloc(AllocError::SizeLimitExceeded) => "size limit exceeded"@,
            Error::Alloc(AllocError::AllocationLimitExceeded) => "allocation limit exceeded"@,
        }
    }

    /// The class of the error.
    pub fn kind(&self) -> (k: ErrorKind)
        ensures
            k == self.spec_kind(),
    {
        match self {
            Error::BadEncoding => ErrorKind::InvalidInput,
            Error::Internal => ErrorKind::InvalidInput,
            Error::AtomTooBig => ErrorKind::InvalidData,
            Error::UnexpectedEof => ErrorKind::UnexpectedEof,
            Error::Alloc(_) => ErrorKind::Other,
        }
    }

    /// The error in words.
    pub fn to_string(&self) -> (s: String)
        ensures
            s@ == self.message(),
    {
        match self {
            Error::BadEncoding => "bad encoding".to_owned(),
            Error::Internal => "internal error".to_owned(),
            Error::AtomTooBig => "atom too big".to_owned(),
            Error::UnexpectedEof => "unexpected end of input".to_owned(),
            Error::Alloc(AllocError::SizeLimitExceeded) => "size limit exceeded".to_owned(),
            Error::Alloc(AllocError::AllocationLimitExceeded) => "allocation limit exceeded".to_owned(),
        }
    }
}

/// A place in a byte buffer from which values are read front to back.
pub struct Cursor<'a> {
    data: &'a [u8],
    pos: usize,
}

impl<'a> Cursor<'a> {
    /// The whole buffer.
    pub closed spec fn bytes(&self) -> Seq<u8> {
        self.data@
    }

    /// Number of bytes that lie before the cursor.
    pub closed spec fn offset(&self) -> int {
        self.pos as int
    }

    /// The cursor lies inside the buffer, or at its end.
    pub closed spec fn wf(&self) -> bool {
        self.pos <= self.data@.len()
    }

    /// A cursor in order lies between the start and the end of its buffer.
    pub proof fn lemma_bounds(&self)
        requires
            self.wf(),
        ensures
            0 <= self.offset() <= self.bytes().len(),
    {
    }

    /// A cursor at the start of `data`.
    pub fn new(data: &'a [u8]) -> (c: Cursor<'a>)
        ensures
            c.wf(),
            c.bytes() == data@,
            c.offset() == 0,
    {
        Cursor { data, pos: 0 }
    }

    /// Number of bytes that lie before the cursor.
    pub fn position(&self) -> (p: u64)
        ensures
            p == self.offset(),
    {
        self.pos as u64
    }

    /// The whole buffer.
    pub fn get_ref(&self) -> (d: &'a [u8])
        ensures
            d@ == self.bytes(),
    {
        self.data
    }

    /// Number of bytes from the cursor to the end.
    pub fn remaining(&self) -> (n: usize)
        requires
            self.wf(),
        ensures
            n == self.bytes().len() - self.offset(),
    {
        self.data.len() - self.pos
    }

    /// Reads one byte. At the end of the buffer there is none: the cursor
    /// stays at the end.
    pub fn read_u8(&mut self) -> (r: Result<u8, Error>)
        requires
            old(self).wf(),
        ensures
            final(self).wf(),
            final(self).bytes() == old(self).bytes(),
            match r {
                Ok(b) => {
                    &&& old(self).offset() < old(self).bytes().len()
                    &&& b == old(self).bytes()[old(self).offset()]
                    &&& final(self).offset() == old(self).offset() + 1
                },
                Err(e) => {
                    &&& e == Error::UnexpectedEof
                    &&& old(self).offset() == old(self).bytes().len()
                    &&& final(self).offset() == old(self).offset()
                },
            },
    {
        if self.pos < self.data.len() {
            let b: u8 = self.data[self.pos];
            self.pos = self.pos + 1;
            Ok(b)
        } else {
            Err(Error::UnexpectedEof)
        }
    }

    /// Reads the next `n` bytes. Where fewer are left, none is returned and
    /// the cursor moves to the end.
    pub fn read_exact(&mut self, n: u64) -> (r: Result<&'a [u8], Error>)
        requires
            old(self).wf(),
        ensures
            final(self).wf(),
            final(self).bytes() == old(self).bytes(),
            match r {
                Ok(s) => {
                    &&& old(self).offset() + n <= old(self).bytes().len()
                    &&& s@ == old(self).bytes().subrange(
                        old(self).offset(),
                        old(self).offset() + n,
                    )
                    &&& final(self).offset() == old(self).offset() + n
                },
                Err(e) => {
                    &&& e == Error::UnexpectedEof
                    &&& old(self).offset() + n > old(self).bytes().len()
                    &&& final(self).offset() == old(self).bytes().len()
                },
            },
    {
        if n <= (self.data.len() - self.pos) as u64 {
            let end: usize = self.pos + n as usize;
            let s: &'a [u8] = &self.data[self.pos..end];
            self.pos = end;
            Ok(s)
        } else {
            self.pos = self.data.len();
            Err(Error::UnexpectedEof)
        }
    }
}

} // verus!
