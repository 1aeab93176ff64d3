//! The errors of reading a binary format.
use vstd::prelude::*;

verus! {

/// The magic number found where a header should have started.
#[derive(Debug, Clone, Copy, PartialEq, Eq)]
pub struct BadMagicError(pub [u8; 6]);

impl BadMagicError {
    pub fn new(value: [u8; 6]) -> (res: Self)
        ensures
            res.0 == value,
    {
        BadMagicError(value)
    }

    pub fn into_inner(self) -> (res: [u8; 6])
        ensures
            res == self.0,
    {
        self.0
    }

    pub fn as_inner(&self) -> (res: &[u8; 6])
        ensures
            *res == self.0,
    {
        &self.0
    }
}

/// Why a name read from an archive is not a NUL-terminated C string
/// (what `CString::from_vec_with_nul` reports).
#[derive(Debug, Clone, Copy, PartialEq, Eq)]
pub enum NameError {
    /// A NUL byte stands at `position`, before the last byte.
    InteriorNul { position: usize },
    /// The bytes do not end in a NUL byte.
    NotNulTerminated,
}

/// An error of the format that is not a bad magic number.
#[derive(Debug, Clone, Copy, PartialEq, Eq)]
pub struct CustomError(pub NameError);

impl CustomError {
    pub fn new(value: NameError) -> (res: Self)
        ensures
            res.0 == value,
    {
        CustomError(value)
    }

    pub fn into_inner(self) -> (res: NameError)
        ensures
            res == self.0,
    {
        self.0
    }
}

/// The input/output failures that reading from a byte buffer can meet.
#[derive(Debug, Clone, Copy, PartialEq, Eq)]
pub enum IoErrorKind {
    /// The buffer ended before the value did (`read_exact` failing to fill its buffer).
    UnexpectedEof,
}

#[derive(Debug, Clone, Copy, PartialEq, Eq)]
pub enum MiniBinError {
    BadMagic(BadMagicError),
    Custom(CustomError),
    IoError(IoErrorKind),
}

/// The error of a buffer that ends too early.
pub open spec fn eof() -> MiniBinError {
    MiniBinError::IoError(IoErrorKind::UnexpectedEof)
}

} // verus!

verus! {

/// What an error says, as plain values.
pub enum ErrorView {
    BadMagic(Seq<u8>),
    Custom(NameError),
    IoError(IoErrorKind),
}

impl View for MiniBinError {
    type V = ErrorView;

    open spec fn view(&self) -> ErrorView {
        match self {
            MiniBinError::BadMagic(b) => ErrorView::BadMagic(b.0@),
            MiniBinError::Custom(c) => ErrorView::Custom(c.0),
            MiniBinError::IoError(k) => ErrorView::IoError(*k),
        }
    }
}

/// The view of the error of a buffer that ends too early.
pub open spec fn eof_view() -> ErrorView {
    ErrorView::IoError(IoErrorKind::UnexpectedEof)
}

} // verus!
