//! The primitive codec: fixed-width little-endian scalars on a byte vector
//! (encoding) and on a byte slice read at a position (decoding).
use vstd::prelude::*;

use crate::error::{DecodeError, UnionKind};

verus! {

/// An executable decoding result read as a specification one: the position
/// after the value becomes an `int`.
pub open spec fn with_int_pos<T>(r: Result<(T, usize), DecodeError>) -> Result<(T, int), DecodeError> {
    match r {
        Ok((v, q)) => Ok((v, q as int)),
        Err(e) => Err(e),
    }
}

/// Reads one byte at `p`.
pub open spec fn parse_u8(s: Seq<u8>, p: int) -> Result<(u8, int), DecodeError> {
    if 0 <= p < s.len() {
        Ok((s[p], p + 1))
    } else {
        Err(DecodeError::UnexpectedEnd)
    }
}

/// A discriminant byte of a union with `cases` cases, numbered from zero.
/// A byte that names no case is refused, and nothing after it is read.
pub open spec fn parse_tag(s: Seq<u8>, p: int, cases: u8, union_kind: UnionKind) -> Result<
    (u8, int),
    DecodeError,
> {
    match parse_u8(s, p) {
        Ok((t, q)) => if t < cases {
            Ok((t, q))
        } else {
            Err(DecodeError::InvalidTag { union_kind, value: t })
        },
        Err(e) => Err(e),
    }
}

/// A boolean is one byte: 1 for true, 0 for false.
pub open spec fn bool_byte(b: bool) -> u8 {
    if b {
        1
    } else {
        0
    }
}

/// Any non-zero byte reads as true.
pub open spec fn parse_bool(s: Seq<u8>, p: int) -> Result<(bool, int), DecodeError> {
    match parse_u8(s, p) {
        Ok((b, q)) => Ok((b != 0, q)),
        Err(e) => Err(e),
    }
}

/// Bytes of a `u32`, least significant first.
pub open spec fn le_u32(x: u32) -> Seq<u8> {
    seq![
        (x & 0xff) as u8,
        ((x >> 8u32) & 0xff) as u8,
        ((x >> 16u32) & 0xff) as u8,
        ((x >> 24u32) & 0xff) as u8,
    ]
}

/// The `u32` whose little-endian bytes are `b0..b3`.
pub open spec fn u32_of_le(b0: u8, b1: u8, b2: u8, b3: u8) -> u32 {
    (b0 as u32) | ((b1 as u32) << 8u32) | ((b2 as u32) << 16u32) | ((b3 as u32) << 24u32)
}

proof fn lemma_u32_le(x: u32)
    by (bit_vector)
    ensures
        u32_of_le(
            (x & 0xff) as u8,
            ((x >> 8u32) & 0xff) as u8,
            ((x >> 16u32) & 0xff) as u8,
            ((x >> 24u32) & 0xff) as u8,
        ) == x,
{
}

pub open spec fn parse_u32(s: Seq<u8>, p: int) -> Result<(u32, int), DecodeError> {
    if 0 <= p && p + 4 <= s.len() {
        Ok((u32_of_le(s[p], s[p + 1], s[p + 2], s[p + 3]), p + 4))
    } else {
        Err(DecodeError::UnexpectedEnd)
    }
}

/// A signed 32-bit integer travels as its two's-complement bit pattern.
pub open spec fn le_i32(x: i32) -> Seq<u8> {
    le_u32(x as u32)
}

pub open spec fn parse_i32(s: Seq<u8>, p: int) -> Result<(i32, int), DecodeError> {
    match parse_u32(s, p) {
        Ok((x, q)) => Ok((x as i32, q)),
        Err(e) => Err(e),
    }
}

/// Bytes of a `u64`, least significant first.
pub open spec fn le_u64(x: u64) -> Seq<u8> {
    seq![
        (x & 0xff) as u8,
        ((x >> 8u64) & 0xff) as u8,
        ((x >> 16u64) & 0xff) as u8,
        ((x >> 24u64) & 0xff) as u8,
        ((x >> 32u64) & 0xff) as u8,
        ((x >> 40u64) & 0xff) as u8,
        ((x >> 48u64) & 0xff) as u8,
        ((x >> 56u64) & 0xff) as u8,
    ]
}

/// The `u64` whose little-endian bytes are `b0..b7`.
pub open spec fn u64_of_le(b0: u8, b1: u8, b2: u8, b3: u8, b4: u8, b5: u8, b6: u8, b7: u8) -> u64 {
    (b0 as u64) | ((b1 as u64) << 8u64) | ((b2 as u64) << 16u64) | ((b3 as u64) << 24u64) | ((
    b4 as u64) << 32u64) | ((b5 as u64) << 40u64) | ((b6 as u64) << 48u64) | ((b7 as u64)
        << 56u64)
}

pub open spec fn parse_u64(s: Seq<u8>, p: int) -> Result<(u64, int), DecodeError> {
    if 0 <= p && p + 8 <= s.len() {
        Ok(
            (
                u64_of_le(s[p], s[p + 1], s[p + 2], s[p + 3], s[p + 4], s[p + 5], s[p + 6], s[p + 7]),
                p + 8,
            ),
        )
    } else {
        Err(DecodeError::UnexpectedEnd)
    }
}

proof fn lemma_u64_le(x: u64)
    by (bit_vector)
    ensures
        u64_of_le(
            (x & 0xff) as u8,
            ((x >> 8u64) & 0xff) as u8,
            ((x >> 16u64) & 0xff) as u8,
            ((x >> 24u64) & 0xff) as u8,
            ((x >> 32u64) & 0xff) as u8,
            ((x >> 40u64) & 0xff) as u8,
            ((x >> 48u64) & 0xff) as u8,
            ((x >> 56u64) & 0xff) as u8,
        ) == x,
{
}

proof fn lemma_i32_bits(x: i32)
    by (bit_vector)
    ensures
        (x as u32) as i32 == x,
{
}

/// The bytes of `w`, placed between `pre` and `post`, are found again at
/// position `pre.len()`.
pub proof fn lemma_framed(pre: Seq<u8>, w: Seq<u8>, post: Seq<u8>)
    ensures
        (pre + w + post).subrange(pre.len() as int, (pre.len() + w.len()) as int) == w,
{
    assert((pre + w + post).subrange(pre.len() as int, (pre.len() + w.len()) as int) =~= w);
}

/// A window inside a window of `s` is a window of `s`.
pub proof fn lemma_window(s: Seq<u8>, p: int, n: int, i: int, m: int)
    requires
        0 <= p,
        p + n <= s.len(),
        0 <= i,
        0 <= m,
        i + m <= n,
    ensures
        s.subrange(p + i, p + i + m) == s.subrange(p, p + n).subrange(i, i + m),
{
    assert(s.subrange(p + i, p + i + m) =~= s.subrange(p, p + n).subrange(i, i + m));
}

/// One byte written at `p` reads back.
pub proof fn lemma_parse_u8(s: Seq<u8>, p: int, x: u8)
    requires
        0 <= p,
        p + 1 <= s.len(),
        s.subrange(p, p + 1) == seq![x],
    ensures
        parse_u8(s, p) == Ok::<(u8, int), DecodeError>((x, p + 1)),
{
    assert(s[p] == s.subrange(p, p + 1)[0]);
}

pub proof fn lemma_parse_bool(s: Seq<u8>, p: int, b: bool)
    requires
        0 <= p,
        p + 1 <= s.len(),
        s.subrange(p, p + 1) == seq![bool_byte(b)],
    ensures
        parse_bool(s, p) == Ok::<(bool, int), DecodeError>((b, p + 1)),
{
    lemma_parse_u8(s, p, bool_byte(b));
}

pub proof fn lemma_parse_u32(s: Seq<u8>, p: int, x: u32)
    requires
        0 <= p,
        p + 4 <= s.len(),
        s.subrange(p, p + 4) == le_u32(x),
    ensures
        parse_u32(s, p) == Ok::<(u32, int), DecodeError>((x, p + 4)),
{
    let w = s.subrange(p, p + 4);
    assert(s[p] == w[0] && s[p + 1] == w[1] && s[p + 2] == w[2] && s[p + 3] == w[3]);
    lemma_u32_le(x);
}

pub proof fn lemma_parse_i32(s: Seq<u8>, p: int, x: i32)
    requires
        0 <= p,
        p + 4 <= s.len(),
        s.subrange(p, p + 4) == le_i32(x),
    ensures
        parse_i32(s, p) == Ok::<(i32, int), DecodeError>((x, p + 4)),
{
    lemma_parse_u32(s, p, x as u32);
    lemma_i32_bits(x);
}

pub proof fn lemma_parse_u64(s: Seq<u8>, p: int, x: u64)
    requires
        0 <= p,
        p + 8 <= s.len(),
        s.subrange(p, p + 8) == le_u64(x),
    ensures
        parse_u64(s, p) == Ok::<(u64, int), DecodeError>((x, p + 8)),
{
    let w = s.subrange(p, p + 8);
    assert(s[p] == w[0] && s[p + 1] == w[1] && s[p + 2] == w[2] && s[p + 3] == w[3]);
    assert(s[p + 4] == w[4] && s[p + 5] == w[5] && s[p + 6] == w[6] && s[p + 7] == w[7]);
    lemma_u64_le(x);
}

pub fn write_u8(out: &mut Vec<u8>, x: u8)
    ensures
        final(out)@ == old(out)@ + seq![x],
{
    out.push(x);
    assert(out@ =~= old(out)@ + seq![x]);
}

pub fn write_bool(out: &mut Vec<u8>, b: bool)
    ensures
        final(out)@ == old(out)@ + seq![bool_byte(b)],
{
    write_u8(out, if b { 1 } else { 0 });
}

pub fn write_u32(out: &mut Vec<u8>, x: u32)
    ensures
        final(out)@ == old(out)@ + le_u32(x),
{
    out.push((x & 0xff) as u8);
    out.push(((x >> 8u32) & 0xff) as u8);
    out.push(((x >> 16u32) & 0xff) as u8);
    out.push(((x >> 24u32) & 0xff) as u8);
    assert(out@ =~= old(out)@ + le_u32(x));
}

pub fn write_i32(out: &mut Vec<u8>, x: i32)
    ensures
        final(out)@ == old(out)@ + le_i32(x),
{
    write_u32(out, x as u32);
}

pub fn write_u64(out: &mut Vec<u8>, x: u64)
    ensures
        final(out)@ == old(out)@ + le_u64(x),
{
    out.push((x & 0xff) as u8);
    out.push(((x >> 8u64) & 0xff) as u8);
    out.push(((x >> 16u64) & 0xff) as u8);
    out.push(((x >> 24u64) & 0xff) as u8);
    out.push(((x >> 32u64) & 0xff) as u8);
    out.push(((x >> 40u64) & 0xff) as u8);
    out.push(((x >> 48u64) & 0xff) as u8);
    out.push(((x >> 56u64) & 0xff) as u8);
    assert(out@ =~= old(out)@ + le_u64(x));
}

pub fn read_u8(input: &[u8], pos: usize) -> (r: Result<(u8, usize), DecodeError>)
    ensures
        with_int_pos(r) == parse_u8(input@, pos as int),
{
    if pos < input.len() {
        Ok((input[pos], pos + 1))
    } else {
        Err(DecodeError::UnexpectedEnd)
    }
}

/// Reads the discriminant of a union with `cases` cases: one shared routine
/// for every union of the format.
pub fn read_tag(input: &[u8], pos: usize, cases: u8, union_kind: UnionKind) -> (r: Result<
    (u8, usize),
    DecodeError,
>)
    ensures
        with_int_pos(r) == parse_tag(input@, pos as int, cases, union_kind),
{
    match read_u8(input, pos) {
        Ok((t, q)) => if t < cases {
            Ok((t, q))
        } else {
            Err(DecodeError::InvalidTag { union_kind, value: t })
        },
        Err(e) => Err(e),
    }
}

pub fn read_bool(input: &[u8], pos: usize) -> (r: Result<(bool, usize), DecodeError>)
    ensures
        with_int_pos(r) == parse_bool(input@, pos as int),
{
    match read_u8(input, pos) {
        Ok((b, q)) => Ok((b != 0, q)),
        Err(e) => Err(e),
    }
}

pub fn read_u32(input: &[u8], pos: usize) -> (r: Result<(u32, usize), DecodeError>)
    ensures
        with_int_pos(r) == parse_u32(input@, pos as int),
{
    if pos <= input.len() && input.len() - pos >= 4 {
        let x = (input[pos] as u32) | ((input[pos + 1] as u32) << 8u32) | ((input[pos + 2] as u32)
            << 16u32) | ((input[pos + 3] as u32) << 24u32);
        Ok((x, pos + 4))
    } else {
        Err(DecodeError::UnexpectedEnd)
    }
}

pub fn read_i32(input: &[u8], pos: usize) -> (r: Result<(i32, usize), DecodeError>)
    ensures
        with_int_pos(r) == parse_i32(input@, pos as int),
{
    match read_u32(input, pos) {
        Ok((x, q)) => Ok((x as i32, q)),
        Err(e) => Err(e),
    }
}

pub fn read_u64(input: &[u8], pos: usize) -> (r: Result<(u64, usize), DecodeError>)
    ensures
        with_int_pos(r) == parse_u64(input@, pos as int),
{
    if pos <= input.len() && input.len() - pos >= 8 {
        let x = (input[pos] as u64) | ((input[pos + 1] as u64) << 8u64) | ((input[pos + 2] as u64)
            << 16u64) | ((input[pos + 3] as u64) << 24u64) | ((input[pos + 4] as u64) << 32u64)
            | ((input[pos + 5] as u64) << 40u64) | ((input[pos + 6] as u64) << 48u64) | ((input[pos
            + 7] as u64) << 56u64);
        Ok((x, pos + 8))
    } else {
        Err(DecodeError::UnexpectedEnd)
    }
}

} // verus!
