//! Bounds-checked reads at an offset into the file's bytes.

use vstd::prelude::*;
use vstd::slice::slice_subrange;
use crate::endianness::{signed16, signed32, Endianness};
use crate::error::{outcome, ErrorView, TiffParserError};
use crate::value::uint_at;

verus! {

/// The `n` bytes of `buf` from index `at` on, where the buffer has them.
pub open spec fn window_at(buf: Seq<u8>, at: int, n: int) -> Result<Seq<u8>, ErrorView> {
    if 0 <= at && 0 <= n && at + n <= buf.len() {
        Ok(buf.subrange(at, at + n))
    } else {
        Err(ErrorView::TryFromSlice)
    }
}

/// The unsigned 16-bit integer stored at index `at`, where the buffer has
/// its two bytes.
pub open spec fn u16_from(e: Endianness, buf: Seq<u8>, at: int) -> Result<u16, ErrorView> {
    if 0 <= at && at + 2 <= buf.len() {
        Ok(uint_at(e, buf, at, 2) as u16)
    } else {
        Err(ErrorView::TryFromSlice)
    }
}

/// The unsigned 32-bit integer stored at index `at`, where the buffer has
/// its four bytes.
pub open spec fn u32_from(e: Endianness, buf: Seq<u8>, at: int) -> Result<u32, ErrorView> {
    if 0 <= at && at + 4 <= buf.len() {
        Ok(uint_at(e, buf, at, 4) as u32)
    } else {
        Err(ErrorView::TryFromSlice)
    }
}

/// The signed 16-bit integer stored at index `at`, where the buffer has
/// its two bytes.
pub open spec fn i16_from(e: Endianness, buf: Seq<u8>, at: int) -> Result<i16, ErrorView> {
    if 0 <= at && at + 2 <= buf.len() {
        Ok(signed16(uint_at(e, buf, at, 2) as u16))
    } else {
        Err(ErrorView::TryFromSlice)
    }
}

/// The signed 32-bit integer stored at index `at`, where the buffer has
/// its four bytes.
pub open spec fn i32_from(e: Endianness, buf: Seq<u8>, at: int) -> Result<i32, ErrorView> {
    if 0 <= at && at + 4 <= buf.len() {
        Ok(signed32(uint_at(e, buf, at, 4) as u32))
    } else {
        Err(ErrorView::TryFromSlice)
    }
}

/// The `n` bytes of `buf` from index `at` on. Fails when the buffer ends
/// before them.
pub fn window(buf: &[u8], at: u64, n: u64) -> (r: Result<&[u8], TiffParserError>)
    ensures
        outcome(r) == window_at(buf@, at as int, n as int),
{
    let len = buf.len() as u64;
    if at > len || n > len - at {
        return Err(TiffParserError::TryFromSlice);
    }
    Ok(slice_subrange(buf, at as usize, (at + n) as usize))
}

/// Reads the unsigned 16-bit integer stored at index `at`.
pub fn read_u16_at(endianness: Endianness, buf: &[u8], at: u64) -> (r: Result<
    u16,
    TiffParserError,
>)
    ensures
        outcome(r) == u16_from(endianness, buf@, at as int),
{
    match window(buf, at, 2) {
        Ok(bytes) => endianness.read_u16(bytes),
        Err(x) => Err(x),
    }
}

/// Reads the unsigned 32-bit integer stored at index `at`.
pub fn read_u32_at(endianness: Endianness, buf: &[u8], at: u64) -> (r: Result<
    u32,
    TiffParserError,
>)
    ensures
        outcome(r) == u32_from(endianness, buf@, at as int),
{
    match window(buf, at, 4) {
        Ok(bytes) => endianness.read_u32(bytes),
        Err(x) => Err(x),
    }
}

/// Reads the signed 16-bit integer stored at index `at`.
pub fn read_i16_at(endianness: Endianness, buf: &[u8], at: u64) -> (r: Result<
    i16,
    TiffParserError,
>)
    ensures
        outcome(r) == i16_from(endianness, buf@, at as int),
{
    match window(buf, at, 2) {
        Ok(bytes) => endianness.read_i16(bytes),
        Err(x) => Err(x),
    }
}

/// Reads the signed 32-bit integer stored at index `at`.
pub fn read_i32_at(endianness: Endianness, buf: &[u8], at: u64) -> (r: Result<
    i32,
    TiffParserError,
>)
    ensures
        outcome(r) == i32_from(endianness, buf@, at as int),
{
    match window(buf, at, 4) {
        Ok(bytes) => endianness.read_i32(bytes),
        Err(x) => Err(x),
    }
}

/// The index `by` places after `start`, where the machine has such an
/// index.
pub fn index_after(start: usize, by: usize) -> (r: Option<usize>)
    ensures
        r == (if start + by <= usize::MAX {
            Some((start + by) as usize)
        } else {
            None
        }),
{
    if by > usize::MAX - start {
        None
    } else {
        Some(start + by)
    }
}

/// Reading at index `at` of what follows index `start` is reading at
/// index `start + at` of the whole.
pub proof fn lemma_reads_in_tail(e: Endianness, buf: Seq<u8>, start: int, at: int, n: int)
    requires
        0 <= start <= buf.len(),
        0 <= at,
        0 <= n,
    ensures
        u16_from(e, buf.subrange(start, buf.len() as int), at) == u16_from(e, buf, start + at),
        u32_from(e, buf.subrange(start, buf.len() as int), at) == u32_from(e, buf, start + at),
        window_at(buf.subrange(start, buf.len() as int), at, n) == window_at(
            buf,
            start + at,
            n,
        ),
{
    let rest = buf.subrange(start, buf.len() as int);
    if at + 2 <= rest.len() {
        assert(rest.subrange(at, at + 2) =~= buf.subrange(start + at, start + at + 2));
    }
    if at + 4 <= rest.len() {
        assert(rest.subrange(at, at + 4) =~= buf.subrange(start + at, start + at + 4));
    }
    if at + n <= rest.len() {
        assert(rest.subrange(at, at + n) =~= buf.subrange(start + at, start + at + n));
    }
}

} // verus!
