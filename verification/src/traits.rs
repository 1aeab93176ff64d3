//! Reading and writing values of a binary format from byte buffers.
use vstd::prelude::*;
use binrw::Endian;
use crate::error::{ErrorView, MiniBinError};

verus! {

#[verifier::external_type_specification]
#[verifier::external_body]
pub struct ExEndian(binrw::Endian);

/// `binrw::Endian::Big`. Nothing is claimed of the value: the formats here never look at it.
#[verifier::external_body]
pub(crate) fn endian_big() -> Endian {
    Endian::Big
}

/// `binrw::Endian::Little`. Nothing is claimed of the value.
#[verifier::external_body]
pub(crate) fn endian_little() -> Endian {
    Endian::Little
}

/// `binrw::Endian::NATIVE`, the byte order of the target. Nothing is claimed of the value.
#[verifier::external_body]
pub(crate) fn endian_native() -> Endian {
    Endian::NATIVE
}

} // verus!

verus! {

/// What a read gives back, by value: the value's view and the bytes it took, or the error's view.
pub open spec fn read_result_view<T: View>(res: Result<(T, usize), MiniBinError>) -> Result<
    (T::V, nat),
    ErrorView,
> {
    match res {
        Ok((v, n)) => Ok((v@, n as nat)),
        Err(e) => Err(e@),
    }
}

/// A value that can be read from the front of a byte buffer.
pub trait MiniBinRead: Sized + View {
    /// What reading from `input` gives: the value and how many bytes it takes, or the error.
    spec fn spec_m_read(input: Seq<u8>) -> Result<(Self::V, nat), ErrorView>;

    /// How many bytes reading takes from the front of `input`, whether it succeeds or fails
    /// (a failed read of a stream has taken bytes too).
    spec fn spec_read_consumed(input: Seq<u8>) -> nat;

    /// The inputs on which reading runs to an answer.
    spec fn read_requires(input: Seq<u8>) -> bool;

    fn m_read_options(reader: &[u8], endian: Endian) -> (res: Result<(Self, usize), MiniBinError>)
        requires
            Self::read_requires(reader@),
        ensures
            read_result_view(res) == Self::spec_m_read(reader@),
            Self::spec_read_consumed(reader@) <= reader@.len(),
            res matches Ok((_v, n)) ==> n as nat == Self::spec_read_consumed(reader@),
    ;

    fn m_read_be(reader: &[u8]) -> (res: Result<(Self, usize), MiniBinError>)
        requires
            Self::read_requires(reader@),
        ensures
            read_result_view(res) == Self::spec_m_read(reader@),
            Self::spec_read_consumed(reader@) <= reader@.len(),
            res matches Ok((_v, n)) ==> n as nat == Self::spec_read_consumed(reader@),
    {
        Self::m_read_options(reader, endian_big())
    }

    fn m_read_le(reader: &[u8]) -> (res: Result<(Self, usize), MiniBinError>)
        requires
            Self::read_requires(reader@),
        ensures
            read_result_view(res) == Self::spec_m_read(reader@),
            Self::spec_read_consumed(reader@) <= reader@.len(),
            res matches Ok((_v, n)) ==> n as nat == Self::spec_read_consumed(reader@),
    {
        Self::m_read_options(reader, endian_little())
    }

    fn m_read_ne(reader: &[u8]) -> (res: Result<(Self, usize), MiniBinError>)
        requires
            Self::read_requires(reader@),
        ensures
            read_result_view(res) == Self::spec_m_read(reader@),
            Self::spec_read_consumed(reader@) <= reader@.len(),
            res matches Ok((_v, n)) ==> n as nat == Self::spec_read_consumed(reader@),
    {
        Self::m_read_options(reader, endian_native())
    }
}

/// A value that can be written to the end of a byte buffer.
pub trait MiniBinWrite: Sized + View {
    /// The bytes that writing `v` appends.
    spec fn spec_m_write(v: Self::V) -> Seq<u8>;

    /// The values that can be written.
    spec fn write_requires(v: Self::V) -> bool;

    fn m_write_options(&self, writer: &mut Vec<u8>, endian: Endian)
        requires
            Self::write_requires(self@),
        ensures
            final(writer)@ == old(writer)@ + Self::spec_m_write(self@),
    ;

    fn m_write_be(&self, writer: &mut Vec<u8>)
        requires
            Self::write_requires(self@),
        ensures
            final(writer)@ == old(writer)@ + Self::spec_m_write(self@),
    {
        self.m_write_options(writer, endian_big())
    }

    fn m_write_le(&self, writer: &mut Vec<u8>)
        requires
            Self::write_requires(self@),
        ensures
            final(writer)@ == old(writer)@ + Self::spec_m_write(self@),
    {
        self.m_write_options(writer, endian_little())
    }

    fn m_write_ne(&self, writer: &mut Vec<u8>)
        requires
            Self::write_requires(self@),
        ensures
            final(writer)@ == old(writer)@ + Self::spec_m_write(self@),
    {
        self.m_write_options(writer, endian_native())
    }
}

} // verus!
