//! The eight-digit hexadecimal fields of a `newc` header.
use vstd::prelude::*;
use crate::error::{eof, IoErrorKind, MiniBinError};

verus! {

/// `16` to the power `n`.
pub open spec fn pow16(n: nat) -> nat
    decreases n,
{
    if n == 0 {
        1
    } else {
        16 * pow16((n - 1) as nat)
    }
}

/// An ASCII hexadecimal digit, in either case.
pub open spec fn is_hex_digit(b: u8) -> bool {
    (0x30 <= b <= 0x39) || (0x41 <= b <= 0x46) || (0x61 <= b <= 0x66)
}

/// The value of a hexadecimal digit.
pub open spec fn hex_digit_value(b: u8) -> nat {
    if 0x30 <= b <= 0x39 {
        (b - 0x30) as nat
    } else if 0x41 <= b <= 0x46 {
        (b - 0x41 + 10) as nat
    } else {
        (b - 0x61 + 10) as nat
    }
}

pub open spec fn all_hex(s: Seq<u8>) -> bool {
    forall|i: int| 0 <= i < s.len() ==> is_hex_digit(#[trigger] s[i])
}

/// The number that the hexadecimal digits `s` write, most significant first.
pub open spec fn hex_value(s: Seq<u8>) -> nat
    decreases s.len(),
{
    if s.len() == 0 {
        0
    } else {
        hex_value(s.drop_last()) * 16 + hex_digit_value(s.last())
    }
}

/// The eight bytes that `u32::from_str_radix(_, 16)` accepts: eight hexadecimal digits,
/// or a `+` sign followed by seven.
pub open spec fn is_hex_field(s: Seq<u8>) -> bool {
    &&& s.len() == 8
    &&& (all_hex(s) || (s[0] == 0x2b && all_hex(s.skip(1))))
}

/// The number that a hex field writes.
pub open spec fn hex_field_value(s: Seq<u8>) -> nat {
    if s[0] == 0x2b {
        hex_value(s.skip(1))
    } else {
        hex_value(s)
    }
}

/// The upper-case digit for `d < 16`.
pub open spec fn hex_char(d: nat) -> u8 {
    if d < 10 {
        (0x30 + d) as u8
    } else {
        (0x41 + d - 10) as u8
    }
}

/// The last `n` upper-case hexadecimal digits of `v`, most significant first.
pub open spec fn hex_digits(v: nat, n: nat) -> Seq<u8>
    decreases n,
{
    if n == 0 {
        seq![]
    } else {
        hex_digits(v / 16, (n - 1) as nat).push(hex_char(v % 16))
    }
}

/// How a header writes a number: eight upper-case digits, zero-padded (`{:08X}`).
pub open spec fn hex_field(v: u32) -> Seq<u8> {
    hex_digits(v as nat, 8)
}

pub proof fn lemma_pow16_pos(n: nat)
    ensures
        pow16(n) > 0,
    decreases n,
{
    if n > 0 {
        lemma_pow16_pos((n - 1) as nat);
    }
}

pub proof fn lemma_pow16_8()
    ensures
        pow16(8) == 0x1_0000_0000,
{
    reveal_with_fuel(pow16, 9);
}

pub proof fn lemma_hex_value_bound(s: Seq<u8>)
    requires
        all_hex(s),
    ensures
        hex_value(s) < pow16(s.len()),
    decreases s.len(),
{
    if s.len() > 0 {
        let t = s.drop_last();
        assert(all_hex(t)) by {
            assert forall|i: int| 0 <= i < t.len() implies is_hex_digit(#[trigger] t[i]) by {
                assert(t[i] == s[i]);
            }
        }
        lemma_hex_value_bound(t);
        assert(is_hex_digit(s[s.len() - 1]));
        let a = hex_value(t);
        let p = pow16(t.len());
        let d = hex_digit_value(s.last());
        assert(d < 16);
        assert(a * 16 + d < p * 16) by (nonlinear_arith)
            requires
                a < p,
                d < 16,
        ;
    }
}

/// Encoding `v` in `n` digits and reading them back gives `v` modulo `16^n`.
pub proof fn lemma_hex_digits(v: nat, n: nat)
    ensures
        hex_digits(v, n).len() == n,
        all_hex(hex_digits(v, n)),
        hex_value(hex_digits(v, n)) == v % pow16(n),
        n > 0 ==> hex_digits(v, n)[0] != 0x2b,
    decreases n,
{
    if n == 0 {
        assert(v % 1 == 0);
    } else {
        let m = (n - 1) as nat;
        lemma_hex_digits(v / 16, m);
        let s = hex_digits(v, n);
        let t = hex_digits(v / 16, m);
        assert(s.drop_last() =~= t);
        assert forall|i: int| 0 <= i < s.len() implies is_hex_digit(#[trigger] s[i]) by {
            if i < m {
                assert(s[i] == t[i]);
            }
        }
        assert(hex_digit_value(hex_char(v % 16)) == v % 16);
        assert(pow16(n) == 16 * pow16(m));
        lemma_pow16_pos(m);
        vstd::arithmetic::div_mod::lemma_breakdown(v as int, 16, pow16(m) as int);
        assert(hex_value(s) == (v / 16) % pow16(m) * 16 + v % 16);
        assert((v / 16) % pow16(m) * 16 == 16 * ((v / 16) % pow16(m))) by (nonlinear_arith);
        if m > 0 {
            assert(s[0] == t[0]);
        }
    }
}

/// A header field reads back the number it was written from.
pub proof fn lemma_hex_field_roundtrip(v: u32)
    ensures
        is_hex_field(hex_field(v)),
        hex_field_value(hex_field(v)) == v,
{
    lemma_hex_digits(v as nat, 8);
    lemma_pow16_8();
}

} // verus!

verus! {

pub proof fn lemma_pow16_mono(a: nat, b: nat)
    requires
        a <= b,
    ensures
        pow16(a) <= pow16(b),
    decreases b,
{
    if a < b {
        lemma_pow16_mono(a, (b - 1) as nat);
        lemma_pow16_pos((b - 1) as nat);
    }
}

fn hex_digit(b: u8) -> (d: u64)
    requires
        is_hex_digit(b),
    ensures
        d == hex_digit_value(b),
        d < 16,
{
    if b <= 0x39 {
        (b - 0x30) as u64
    } else if b <= 0x46 {
        (b - 0x41 + 10) as u64
    } else {
        (b - 0x61 + 10) as u64
    }
}

fn digit_char(d: u32) -> (c: u8)
    requires
        d < 16,
    ensures
        c == hex_char(d as nat),
{
    if d < 10 {
        (0x30 + d) as u8
    } else {
        (0x41 + d - 10) as u8
    }
}

/// Reads a number written as an eight-byte hexadecimal field from the front of `input`.
///
/// Fails when `input` holds fewer than eight bytes. The field must be one that
/// `u32::from_str_radix(_, 16)` accepts.
pub fn read_u32_hex(input: &[u8]) -> (res: Result<u32, MiniBinError>)
    requires
        input@.len() >= 8 ==> is_hex_field(input@.take(8)),
    ensures
        match res {
            Ok(v) => input@.len() >= 8 && v == hex_field_value(input@.take(8)),
            Err(e) => input@.len() < 8 && e == eof(),
        },
{
    if input.len() < 8 {
        return Err(MiniBinError::IoError(IoErrorKind::UnexpectedEof));
    }
    let ghost field = input@.take(8);
    let start: usize = if input[0] == 0x2b { 1 } else { 0 };
    proof {
        if start == 1 {
            assert(field.skip(1) =~= input@.subrange(1, 8));
        } else {
            assert(field =~= input@.subrange(0, 8));
        }
        assert(all_hex(input@.subrange(start as int, 8)));
    }
    let mut acc: u64 = 0;
    let mut i: usize = start;
    assert(input@.subrange(start as int, start as int) =~= Seq::<u8>::empty());
    while i < 8
        invariant
            start <= i <= 8,
            input@.len() >= 8,
            all_hex(input@.subrange(start as int, 8)),
            acc == hex_value(input@.subrange(start as int, i as int)),
            acc < pow16((i - start) as nat),
        decreases 8 - i,
    {
        assert(is_hex_digit(input@.subrange(start as int, 8)[i - start]));
        let d = hex_digit(input[i]);
        proof {
            let s = input@.subrange(start as int, i + 1);
            assert(s.drop_last() =~= input@.subrange(start as int, i as int));
            lemma_pow16_mono((i - start) as nat, 8);
            lemma_pow16_8();
            assert(acc * 16 + d < pow16((i + 1 - start) as nat)) by (nonlinear_arith)
                requires
                    acc < pow16((i - start) as nat),
                    d < 16,
                    pow16((i + 1 - start) as nat) == 16 * pow16((i - start) as nat),
            ;
        }
        acc = acc * 16 + d;
        i = i + 1;
    }
    proof {
        lemma_pow16_mono((8 - start) as nat, 8);
        lemma_pow16_8();
    }
    Ok(acc as u32)
}

/// Writes `val` as eight upper-case hexadecimal digits (`{:08X}`).
pub fn write_u32_hex(writer: &mut Vec<u8>, val: u32)
    ensures
        final(writer)@ == old(writer)@ + hex_field(val),
{
    let mut digits: Vec<u8> = Vec::new();
    let mut w: u32 = val;
    let mut k: usize = 0;
    assert(hex_digits(val as nat, 8) =~= hex_digits(w as nat, 8) + digits@);
    while k < 8
        invariant
            k <= 8,
            hex_digits(val as nat, 8) == hex_digits(w as nat, (8 - k) as nat) + digits@,
        decreases 8 - k,
    {
        let c = digit_char(w % 16);
        proof {
            let m = (8 - k - 1) as nat;
            assert(hex_digits(w as nat, (8 - k) as nat) == hex_digits((w / 16) as nat, m).push(c));
            assert(hex_digits((w / 16) as nat, m).push(c) + digits@ =~= hex_digits(
                (w / 16) as nat,
                m,
            ) + seq![c].add(digits@));
        }
        let ghost before = digits@;
        digits.insert(0, c);
        assert(digits@ =~= seq![c].add(before));
        w = w / 16;
        k = k + 1;
    }
    assert(digits@ =~= hex_field(val));
    writer.append(&mut digits);
}

} // verus!

verus! {

/// Whether eight bytes form a field that `u32::from_str_radix(_, 16)` accepts.
pub fn hex_field_is_valid(s: &[u8]) -> (b: bool)
    ensures
        b == is_hex_field(s@),
{
    if s.len() != 8 {
        return false;
    }
    let start: usize = if s[0] == 0x2b { 1 } else { 0 };
    let mut i: usize = start;
    while i < 8
        invariant
            start <= i <= 8,
            s@.len() == 8,
            start == 1 <==> s@[0] == 0x2b,
            forall|j: int| start <= j < i ==> is_hex_digit(#[trigger] s@[j]),
        decreases 8 - i,
    {
        let c = s[i];
        if !((0x30 <= c && c <= 0x39) || (0x41 <= c && c <= 0x46) || (0x61 <= c && c <= 0x66)) {
            proof {
                if start == 1 {
                    assert(s@.skip(1)[i - 1] == c);
                }
            }
            return false;
        }
        i = i + 1;
    }
    proof {
        if start == 1 {
            assert forall|j: int| 0 <= j < 7 implies is_hex_digit(#[trigger] s@.skip(1)[j]) by {
                assert(s@.skip(1)[j] == s@[j + 1]);
            }
        }
    }
    true
}

} // verus!

verus! {

/// An upper-case hexadecimal digit.
pub open spec fn is_upper_hex_digit(b: u8) -> bool {
    (0x30 <= b <= 0x39) || (0x41 <= b <= 0x46)
}

/// Eight upper-case hexadecimal digits: a field as headers write it.
pub open spec fn is_canonical_hex_field(s: Seq<u8>) -> bool {
    s.len() == 8 && forall|i: int| 0 <= i < 8 ==> is_upper_hex_digit(#[trigger] s[i])
}

proof fn lemma_hex_digits_of_value(s: Seq<u8>)
    requires
        forall|i: int| 0 <= i < s.len() ==> is_upper_hex_digit(#[trigger] s[i]),
    ensures
        hex_digits(hex_value(s), s.len()) == s,
    decreases s.len(),
{
    if s.len() > 0 {
        let init = s.drop_last();
        assert forall|i: int| 0 <= i < init.len() implies is_upper_hex_digit(#[trigger] init[i]) by {
            assert(init[i] == s[i]);
        }
        lemma_hex_digits_of_value(init);
        let a = hex_value(init);
        let d = hex_digit_value(s.last());
        assert(is_upper_hex_digit(s[s.len() - 1]));
        assert(d < 16);
        let v = a * 16 + d;
        assert(v / 16 == a && v % 16 == d) by (nonlinear_arith)
            requires
                v == a * 16 + d,
                d < 16,
        ;
        assert(hex_char(d) == s.last());
        assert(hex_digits(v, s.len()) =~= init.push(s.last()));
        assert(s =~= init.push(s.last()));
    }
}

/// A field as headers write it is written back as itself from the number it holds.
pub proof fn lemma_hex_field_canonical(s: Seq<u8>)
    requires
        is_canonical_hex_field(s),
    ensures
        is_hex_field(s),
        hex_field_value(s) < 0x1_0000_0000,
        hex_field(hex_field_value(s) as u32) == s,
{
    assert(s[0] != 0x2b);
    assert(all_hex(s));
    lemma_hex_value_bound(s);
    lemma_pow16_8();
    lemma_hex_digits_of_value(s);
}

} // verus!
