//! Padding of a `newc` archive, on byte buffers.
use vstd::prelude::*;
use crate::error::{eof, IoErrorKind, MiniBinError};

verus! {

/// How many bytes bring `size` up to a multiple of four.
pub open spec fn pad_len(size: nat) -> nat {
    ((4 - size % 4) % 4) as nat
}

/// `n` copies of `value`.
pub open spec fn repeat(value: u8, n: nat) -> Seq<u8> {
    Seq::new(n, |_i: int| value)
}

/// The padding that follows a field of `size` bytes: zeros up to a multiple of four.
pub open spec fn pad_bytes(size: nat) -> Seq<u8> {
    repeat(0, pad_len(size))
}

/// Steps over the padding that follows a field of `size` bytes at the front of `reader`.
///
/// Fails when `reader` holds fewer bytes than the padding; the padding bytes are not looked at.
pub fn read_pad(reader: &[u8], size: usize) -> (res: Result<(), MiniBinError>)
    ensures
        res is Ok <==> reader@.len() >= pad_len(size as nat),
        res matches Err(e) ==> e == eof(),
{
    let need: usize = match size % 4 {
        0 => 0,
        1 => 3,
        2 => 2,
        _ => 1,
    };
    if reader.len() < need {
        Err(MiniBinError::IoError(IoErrorKind::UnexpectedEof))
    } else {
        Ok(())
    }
}

fn push_repeat(writer: &mut Vec<u8>, value: u8, n: usize)
    ensures
        final(writer)@ == old(writer)@ + repeat(value, n as nat),
{
    let ghost start = writer@;
    let mut i: usize = 0;
    while i < n
        invariant
            i <= n,
            writer@ == start + repeat(value, i as nat),
        decreases n - i,
    {
        writer.push(value);
        i = i + 1;
        assert(writer@ =~= start + repeat(value, i as nat));
    }
}

/// Writes the zeros that follow a field of `size` bytes.
pub fn write_pad(writer: &mut Vec<u8>, size: usize)
    ensures
        final(writer)@ == old(writer)@ + pad_bytes(size as nat),
{
    let need: usize = match size % 4 {
        0 => 0,
        1 => 3,
        2 => 2,
        _ => 1,
    };
    push_repeat(writer, 0, need);
}

/// Brings a stream at position `pos` up to a multiple of `modulo` with copies of `value`,
/// and returns how far past the last multiple it stood.
pub fn write_padding_with_pos(writer: &mut Vec<u8>, pos: usize, modulo: usize, value: u8) -> (rem: usize)
    requires
        modulo > 0,
    ensures
        rem == pos % modulo,
        final(writer)@ == old(writer)@ + repeat(
            value,
            (if rem == 0 { 0 } else { modulo - rem }) as nat,
        ),
        (pos + (final(writer)@.len() - old(writer)@.len())) % (modulo as int) == 0,
{
    let rem = pos % modulo;
    if rem == 0 {
        assert(writer@ =~= writer@ + repeat(value, 0));
        return rem;
    }
    push_repeat(writer, value, modulo - rem);
    proof {
        vstd::arithmetic::div_mod::lemma_fundamental_div_mod(pos as int, modulo as int);
        vstd::arithmetic::div_mod::lemma_mod_multiples_basic(pos as int / modulo as int + 1, modulo as int);
        assert(pos + (modulo - rem) == (pos as int / modulo as int + 1) * modulo) by (nonlinear_arith)
            requires
                pos == modulo * (pos as int / modulo as int) + rem,
        ;
    }
    rem
}

/// Brings the buffer up to a multiple of `modulo` bytes with copies of `value`; the stream
/// position is the length of the buffer.
pub fn write_padding(writer: &mut Vec<u8>, modulo: usize, value: u8) -> (rem: usize)
    requires
        modulo > 0,
    ensures
        rem == old(writer)@.len() % (modulo as nat),
        final(writer)@ == old(writer)@ + repeat(
            value,
            (if rem == 0 { 0 } else { modulo - rem }) as nat,
        ),
        final(writer)@.len() % (modulo as nat) == 0,
{
    let pos = writer.len();
    write_padding_with_pos(writer, pos, modulo, value)
}

} // verus!
