//! The decoded value of a directory entry.

use vstd::prelude::*;
use vstd::slice::{slice_subrange, slice_to_vec};
use vstd::utf8::{decode_utf8, encode_utf8, valid_utf8};
use std::string::FromUtf8Error;
use crate::endianness::{signed16, signed32, Endianness};
use crate::error::{outcome, ErrorView, TiffParserError};
use crate::field::Field;

verus! {

/// The value array of one entry, by field type.
///
/// `Floats` and `Doubles` keep each element as its IEEE 754 bit pattern, in
/// the order the file's byte order gives; turning a pattern into a number is
/// left to the caller.
#[derive(Debug, PartialEq)]
pub enum Value {
    Bytes(Vec<u8>),
    Sbytes(Vec<i8>),
    Shorts(Vec<u16>),
    Sshorts(Vec<i16>),
    Longs(Vec<u32>),
    Slongs(Vec<i32>),
    Rationals(Vec<(u32, u32)>),
    Srationals(Vec<(i32, i32)>),
    Floats(Vec<u32>),
    Doubles(Vec<u64>),
    Ascii(String),
    Undefined(Vec<u8>),
}

/// What a [`Value`] holds, as mathematical sequences.
pub enum ValueView {
    Bytes(Seq<u8>),
    Sbytes(Seq<i8>),
    Shorts(Seq<u16>),
    Sshorts(Seq<i16>),
    Longs(Seq<u32>),
    Slongs(Seq<i32>),
    Rationals(Seq<(u32, u32)>),
    Srationals(Seq<(i32, i32)>),
    Floats(Seq<u32>),
    Doubles(Seq<u64>),
    Ascii(Seq<char>),
    Undefined(Seq<u8>),
}

impl View for Value {
    type V = ValueView;

    open spec fn view(&self) -> ValueView {
        match self {
            Value::Bytes(v) => ValueView::Bytes(v@),
            Value::Sbytes(v) => ValueView::Sbytes(v@),
            Value::Shorts(v) => ValueView::Shorts(v@),
            Value::Sshorts(v) => ValueView::Sshorts(v@),
            Value::Longs(v) => ValueView::Longs(v@),
            Value::Slongs(v) => ValueView::Slongs(v@),
            Value::Rationals(v) => ValueView::Rationals(v@),
            Value::Srationals(v) => ValueView::Srationals(v@),
            Value::Floats(v) => ValueView::Floats(v@),
            Value::Doubles(v) => ValueView::Doubles(v@),
            Value::Ascii(s) => ValueView::Ascii(s@),
            Value::Undefined(v) => ValueView::Undefined(v@),
        }
    }
}

/// The signed 8-bit integer with the same two's complement bits.
pub open spec fn signed8(x: u8) -> i8 {
    if x < 0x80 {
        x as i8
    } else {
        (x - 0x100) as i8
    }
}

/// The unsigned number that the `n` bytes from index `at` on spell.
pub open spec fn uint_at(e: Endianness, bytes: Seq<u8>, at: int, n: nat) -> nat {
    e.number(bytes.subrange(at, at + n), n)
}

/// The elements of `width` bytes each that `bytes` is made of, each given
/// by `pick` from the index of its first byte. A last element cut short
/// makes the whole read fail.
pub open spec fn elements<T>(bytes: Seq<u8>, width: nat, pick: spec_fn(int) -> T) -> Result<
    Seq<T>,
    ErrorView,
> {
    if width == 0 || bytes.len() % width != 0 {
        Err(ErrorView::TryFromSlice)
    } else {
        Ok(Seq::new(bytes.len() / width, |i: int| pick(i * width)))
    }
}

/// The unsigned 16-bit elements of `bytes`.
pub open spec fn shorts_of(e: Endianness, bytes: Seq<u8>) -> Result<Seq<u16>, ErrorView> {
    elements(bytes, 2, |at: int| uint_at(e, bytes, at, 2) as u16)
}

/// The signed 16-bit elements of `bytes`.
pub open spec fn sshorts_of(e: Endianness, bytes: Seq<u8>) -> Result<Seq<i16>, ErrorView> {
    elements(bytes, 2, |at: int| signed16(uint_at(e, bytes, at, 2) as u16))
}

/// The unsigned 32-bit elements of `bytes`.
pub open spec fn longs_of(e: Endianness, bytes: Seq<u8>) -> Result<Seq<u32>, ErrorView> {
    elements(bytes, 4, |at: int| uint_at(e, bytes, at, 4) as u32)
}

/// The signed 32-bit elements of `bytes`.
pub open spec fn slongs_of(e: Endianness, bytes: Seq<u8>) -> Result<Seq<i32>, ErrorView> {
    elements(bytes, 4, |at: int| signed32(uint_at(e, bytes, at, 4) as u32))
}

/// The unsigned 64-bit elements of `bytes`.
pub open spec fn doubles_of(e: Endianness, bytes: Seq<u8>) -> Result<Seq<u64>, ErrorView> {
    elements(bytes, 8, |at: int| uint_at(e, bytes, at, 8) as u64)
}

/// The pairs of numerator and denominator, unsigned, that `bytes` holds.
pub open spec fn rationals_of(e: Endianness, bytes: Seq<u8>) -> Result<
    Seq<(u32, u32)>,
    ErrorView,
> {
    elements(
        bytes,
        8,
        |at: int| (uint_at(e, bytes, at, 4) as u32, uint_at(e, bytes, at + 4, 4) as u32),
    )
}

/// The pairs of numerator and denominator, signed, that `bytes` holds.
pub open spec fn srationals_of(e: Endianness, bytes: Seq<u8>) -> Result<
    Seq<(i32, i32)>,
    ErrorView,
> {
    elements(
        bytes,
        8,
        |at: int|
            (
                signed32(uint_at(e, bytes, at, 4) as u32),
                signed32(uint_at(e, bytes, at + 4, 4) as u32),
            ),
    )
}

/// The text of a field: the bytes before the closing zero byte, as UTF-8.
pub open spec fn text_of(bytes: Seq<u8>) -> Result<Seq<char>, ErrorView> {
    if bytes.len() == 0 || bytes.last() != 0 {
        Err(ErrorView::StringNotNullTerminated(bytes))
    } else if !valid_utf8(bytes.drop_last()) {
        Err(ErrorView::Utf8)
    } else {
        Ok(decode_utf8(bytes.drop_last()))
    }
}

/// What the bytes of an entry decode to under a byte order and a field
/// type.
pub open spec fn decoded(e: Endianness, field: Field, bytes: Seq<u8>) -> Result<
    ValueView,
    ErrorView,
> {
    match field {
        Field::Byte => Ok(ValueView::Bytes(bytes)),
        Field::Undefined => Ok(ValueView::Undefined(bytes)),
        Field::Sbyte => Ok(ValueView::Sbytes(Seq::new(bytes.len(), |i: int| signed8(bytes[i])))),
        Field::Ascii => match text_of(bytes) {
            Ok(t) => Ok(ValueView::Ascii(t)),
            Err(x) => Err(x),
        },
        Field::Short => match shorts_of(e, bytes) {
            Ok(v) => Ok(ValueView::Shorts(v)),
            Err(x) => Err(x),
        },
        Field::Sshort => match sshorts_of(e, bytes) {
            Ok(v) => Ok(ValueView::Sshorts(v)),
            Err(x) => Err(x),
        },
        Field::Long => match longs_of(e, bytes) {
            Ok(v) => Ok(ValueView::Longs(v)),
            Err(x) => Err(x),
        },
        Field::Slong => match slongs_of(e, bytes) {
            Ok(v) => Ok(ValueView::Slongs(v)),
            Err(x) => Err(x),
        },
        Field::Rational => match rationals_of(e, bytes) {
            Ok(v) => Ok(ValueView::Rationals(v)),
            Err(x) => Err(x),
        },
        Field::Srational => match srationals_of(e, bytes) {
            Ok(v) => Ok(ValueView::Srationals(v)),
            Err(x) => Err(x),
        },
        Field::Float => match longs_of(e, bytes) {
            Ok(v) => Ok(ValueView::Floats(v)),
            Err(x) => Err(x),
        },
        Field::Double => match doubles_of(e, bytes) {
            Ok(v) => Ok(ValueView::Doubles(v)),
            Err(x) => Err(x),
        },
    }
}

/// Both results if both succeeded, else the first failure.
pub fn try_tuple<T1, T2, E>(res1: Result<T1, E>, res2: Result<T2, E>) -> (r: Result<(T1, T2), E>)
    ensures
        r == (match (res1, res2) {
            (Ok(a), Ok(b)) => Ok::<(T1, T2), E>((a, b)),
            (Err(x), _) => Err::<(T1, T2), E>(x),
            (Ok(_), Err(x)) => Err::<(T1, T2), E>(x),
        }),
{
    let r1 = match res1 {
        Ok(a) => a,
        Err(x) => {
            return Err(x);
        },
    };
    let r2 = match res2 {
        Ok(b) => b,
        Err(x) => {
            return Err(x);
        },
    };
    Ok((r1, r2))
}

/// Reads `buf` as unsigned 16-bit elements.
fn read_shorts(endianness: Endianness, buf: &[u8]) -> (r: Result<Vec<u16>, TiffParserError>)
    ensures
        outcome(r) == shorts_of(endianness, buf@),
{
    if buf.len() % 2 != 0 {
        return Err(TiffParserError::TryFromSlice);
    }
    let count: usize = buf.len() / 2;
    let mut vals: Vec<u16> = Vec::new();
    let mut i: usize = 0;
    while i < count
        invariant
            i <= count,
            count * 2 == buf@.len(),
            buf@.len() <= usize::MAX,
            vals@.len() == i,
            forall|k: int| 0 <= k < i ==> vals@[k] == shorts_of(endianness, buf@)->Ok_0[k],
        decreases count - i,
    {
        let chunk = slice_subrange(buf, 2 * i, 2 * i + 2);
        match endianness.read_u16(chunk) {
            Ok(v) => {
                vals.push(v);
            },
            Err(x) => {
                return Err(x);
            },
        }
        i = i + 1;
    }
    assert(vals@ =~= shorts_of(endianness, buf@)->Ok_0);
    Ok(vals)
}

/// Reads `buf` as signed 16-bit elements.
fn read_sshorts(endianness: Endianness, buf: &[u8]) -> (r: Result<Vec<i16>, TiffParserError>)
    ensures
        outcome(r) == sshorts_of(endianness, buf@),
{
    if buf.len() % 2 != 0 {
        return Err(TiffParserError::TryFromSlice);
    }
    let count: usize = buf.len() / 2;
    let mut vals: Vec<i16> = Vec::new();
    let mut i: usize = 0;
    while i < count
        invariant
            i <= count,
            count * 2 == buf@.len(),
            buf@.len() <= usize::MAX,
            vals@.len() == i,
            forall|k: int| 0 <= k < i ==> vals@[k] == sshorts_of(endianness, buf@)->Ok_0[k],
        decreases count - i,
    {
        let chunk = slice_subrange(buf, 2 * i, 2 * i + 2);
        match endianness.read_i16(chunk) {
            Ok(v) => {
                vals.push(v);
            },
            Err(x) => {
                return Err(x);
            },
        }
        i = i + 1;
    }
    assert(vals@ =~= sshorts_of(endianness, buf@)->Ok_0);
    Ok(vals)
}

/// Reads `buf` as unsigned 32-bit elements.
fn read_longs(endianness: Endianness, buf: &[u8]) -> (r: Result<Vec<u32>, TiffParserError>)
    ensures
        outcome(r) == longs_of(endianness, buf@),
{
    if buf.len() % 4 != 0 {
        return Err(TiffParserError::TryFromSlice);
    }
    let count: usize = buf.len() / 4;
    let mut vals: Vec<u32> = Vec::new();
    let mut i: usize = 0;
    while i < count
        invariant
            i <= count,
            count * 4 == buf@.len(),
            buf@.len() <= usize::MAX,
            vals@.len() == i,
            forall|k: int| 0 <= k < i ==> vals@[k] == longs_of(endianness, buf@)->Ok_0[k],
        decreases count - i,
    {
        let chunk = slice_subrange(buf, 4 * i, 4 * i + 4);
        match endianness.read_u32(chunk) {
            Ok(v) => {
                vals.push(v);
            },
            Err(x) => {
                return Err(x);
            },
        }
        i = i + 1;
    }
    assert(vals@ =~= longs_of(endianness, buf@)->Ok_0);
    Ok(vals)
}

/// Reads `buf` as signed 32-bit elements.
fn read_slongs(endianness: Endianness, buf: &[u8]) -> (r: Result<Vec<i32>, TiffParserError>)
    ensures
        outcome(r) == slongs_of(endianness, buf@),
{
    if buf.len() % 4 != 0 {
        return Err(TiffParserError::TryFromSlice);
    }
    let count: usize = buf.len() / 4;
    let mut vals: Vec<i32> = Vec::new();
    let mut i: usize = 0;
    while i < count
        invariant
            i <= count,
            count * 4 == buf@.len(),
            buf@.len() <= usize::MAX,
            vals@.len() == i,
            forall|k: int| 0 <= k < i ==> vals@[k] == slongs_of(endianness, buf@)->Ok_0[k],
        decreases count - i,
    {
        let chunk = slice_subrange(buf, 4 * i, 4 * i + 4);
        match endianness.read_i32(chunk) {
            Ok(v) => {
                vals.push(v);
            },
            Err(x) => {
                return Err(x);
            },
        }
        i = i + 1;
    }
    assert(vals@ =~= slongs_of(endianness, buf@)->Ok_0);
    Ok(vals)
}

/// Reads `buf` as unsigned 64-bit elements.
fn read_doubles(endianness: Endianness, buf: &[u8]) -> (r: Result<Vec<u64>, TiffParserError>)
    ensures
        outcome(r) == doubles_of(endianness, buf@),
{
    if buf.len() % 8 != 0 {
        return Err(TiffParserError::TryFromSlice);
    }
    let count: usize = buf.len() / 8;
    let mut vals: Vec<u64> = Vec::new();
    let mut i: usize = 0;
    while i < count
        invariant
            i <= count,
            count * 8 == buf@.len(),
            buf@.len() <= usize::MAX,
            vals@.len() == i,
            forall|k: int| 0 <= k < i ==> vals@[k] == doubles_of(endianness, buf@)->Ok_0[k],
        decreases count - i,
    {
        let chunk = slice_subrange(buf, 8 * i, 8 * i + 8);
        match endianness.read_u64(chunk) {
            Ok(v) => {
                vals.push(v);
            },
            Err(x) => {
                return Err(x);
            },
        }
        i = i + 1;
    }
    assert(vals@ =~= doubles_of(endianness, buf@)->Ok_0);
    Ok(vals)
}

/// Reads `buf` as pairs of unsigned 32-bit integers.
fn read_rationals(endianness: Endianness, buf: &[u8]) -> (r: Result<Vec<(u32, u32)>, TiffParserError>)
    ensures
        outcome(r) == rationals_of(endianness, buf@),
{
    if buf.len() % 8 != 0 {
        return Err(TiffParserError::TryFromSlice);
    }
    let count: usize = buf.len() / 8;
    let mut vals: Vec<(u32, u32)> = Vec::new();
    let mut i: usize = 0;
    while i < count
        invariant
            i <= count,
            count * 8 == buf@.len(),
            buf@.len() <= usize::MAX,
            vals@.len() == i,
            forall|k: int| 0 <= k < i ==> vals@[k] == rationals_of(endianness, buf@)->Ok_0[k],
        decreases count - i,
    {
        let upper = slice_subrange(buf, 8 * i, 8 * i + 4);
        let lower = slice_subrange(buf, 8 * i + 4, 8 * i + 8);
        match try_tuple(endianness.read_u32(upper), endianness.read_u32(lower)) {
            Ok(pair) => {
                vals.push(pair);
            },
            Err(x) => {
                return Err(x);
            },
        }
        i = i + 1;
    }
    assert(vals@ =~= rationals_of(endianness, buf@)->Ok_0);
    Ok(vals)
}

/// Reads `buf` as pairs of signed 32-bit integers.
fn read_srationals(endianness: Endianness, buf: &[u8]) -> (r: Result<Vec<(i32, i32)>, TiffParserError>)
    ensures
        outcome(r) == srationals_of(endianness, buf@),
{
    if buf.len() % 8 != 0 {
        return Err(TiffParserError::TryFromSlice);
    }
    let count: usize = buf.len() / 8;
    let mut vals: Vec<(i32, i32)> = Vec::new();
    let mut i: usize = 0;
    while i < count
        invariant
            i <= count,
            count * 8 == buf@.len(),
            buf@.len() <= usize::MAX,
            vals@.len() == i,
            forall|k: int| 0 <= k < i ==> vals@[k] == srationals_of(endianness, buf@)->Ok_0[k],
        decreases count - i,
    {
        let upper = slice_subrange(buf, 8 * i, 8 * i + 4);
        let lower = slice_subrange(buf, 8 * i + 4, 8 * i + 8);
        match try_tuple(endianness.read_i32(upper), endianness.read_i32(lower)) {
            Ok(pair) => {
                vals.push(pair);
            },
            Err(x) => {
                return Err(x);
            },
        }
        i = i + 1;
    }
    assert(vals@ =~= srationals_of(endianness, buf@)->Ok_0);
    Ok(vals)
}

/// Reads `buf` as signed bytes.
fn read_sbytes(buf: &[u8]) -> (r: Vec<i8>)
    ensures
        r@ == Seq::new(buf@.len(), |i: int| signed8(buf@[i])),
{
    let mut vals: Vec<i8> = Vec::new();
    let mut i: usize = 0;
    while i < buf.len()
        invariant
            i <= buf@.len(),
            vals@.len() == i,
            forall|k: int| 0 <= k < i ==> vals@[k] == signed8(buf@[k]),
        decreases buf@.len() - i,
    {
        let b: u8 = buf[i];
        if b < 0x80 {
            vals.push(b as i8);
        } else {
            vals.push((b as i16 - 0x100) as i8);
        }
        i = i + 1;
    }
    vals
}

/// `String::from_utf8`: succeeds exactly on well-formed UTF-8, and the
/// string it then gives is spelled by the very bytes handed in.
#[verifier::external_body]
fn string_from_utf8(bytes: Vec<u8>) -> (r: Result<String, FromUtf8Error>)
    ensures
        r is Ok <==> valid_utf8(bytes@),
        r matches Ok(s) ==> encode_utf8(s@) == bytes@,
{
    String::from_utf8(bytes)
}

/// Reads `buf` as text closed by a zero byte.
fn read_text(buf: &[u8]) -> (r: Result<String, TiffParserError>)
    ensures
        outcome(r) == text_of(buf@),
{
    let len = buf.len();
    if len == 0 || buf[len - 1] != 0 {
        return Err(TiffParserError::StringNotNullTerminated(slice_to_vec(buf)));
    }
    let text = slice_to_vec(slice_subrange(buf, 0, len - 1));
    match string_from_utf8(text) {
        Ok(s) => {
            proof {
                vstd::utf8::encode_utf8_decode_utf8(s@);
            }
            Ok(s)
        },
        Err(x) => Err(TiffParserError::Utf8(x)),
    }
}

impl ValueView {
    /// The first element of an unsigned 16-bit value.
    pub open spec fn short(self) -> Result<u16, ErrorView> {
        match self {
            ValueView::Shorts(v) => if v.len() > 0 {
                Ok(v[0])
            } else {
                Err(ErrorView::TryFromSlice)
            },
            _ => Err(ErrorView::InvalidValue(self, "expected short"@)),
        }
    }

    /// The first element of an unsigned 32-bit value.
    pub open spec fn long(self) -> Result<u32, ErrorView> {
        match self {
            ValueView::Longs(v) => if v.len() > 0 {
                Ok(v[0])
            } else {
                Err(ErrorView::TryFromSlice)
            },
            _ => Err(ErrorView::InvalidValue(self, "expected long"@)),
        }
    }

    /// All elements of an unsigned 16-bit value.
    pub open spec fn shorts(self) -> Result<Seq<u16>, ErrorView> {
        match self {
            ValueView::Shorts(v) => Ok(v),
            _ => Err(ErrorView::InvalidValue(self, "expected shorts"@)),
        }
    }

    /// All elements of an unsigned 32-bit value.
    pub open spec fn longs(self) -> Result<Seq<u32>, ErrorView> {
        match self {
            ValueView::Longs(v) => Ok(v),
            _ => Err(ErrorView::InvalidValue(self, "expected longs"@)),
        }
    }
}

/// A vector with the same elements.
fn copy_of<T: Copy>(v: &Vec<T>) -> (r: Vec<T>)
    ensures
        r@ == v@,
{
    let mut out: Vec<T> = Vec::new();
    let mut i: usize = 0;
    while i < v.len()
        invariant
            i <= v@.len(),
            out@ == v@.subrange(0, i as int),
        decreases v@.len() - i,
    {
        out.push(v[i]);
        i = i + 1;
    }
    out
}

impl Clone for Value {
    fn clone(&self) -> (r: Self)
        ensures
            r@ == self@,
    {
        match self {
            Value::Bytes(v) => Value::Bytes(v.clone()),
            Value::Sbytes(v) => Value::Sbytes(v.clone()),
            Value::Shorts(v) => Value::Shorts(v.clone()),
            Value::Sshorts(v) => Value::Sshorts(v.clone()),
            Value::Longs(v) => Value::Longs(v.clone()),
            Value::Slongs(v) => Value::Slongs(v.clone()),
            Value::Rationals(v) => Value::Rationals(copy_of(v)),
            Value::Srationals(v) => Value::Srationals(copy_of(v)),
            Value::Floats(v) => Value::Floats(v.clone()),
            Value::Doubles(v) => Value::Doubles(v.clone()),
            Value::Ascii(s) => Value::Ascii(s.clone()),
            Value::Undefined(v) => Value::Undefined(v.clone()),
        }
    }
}

impl Value {
    /// Decodes the bytes of an entry's value. Bytes, signed bytes and
    /// undefined data are copied; numbers are read element by element in
    /// the given byte order, rationals as pairs without dividing; text must
    /// end in a zero byte, which is dropped, and be UTF-8.
    pub fn from_bytes(endianness: Endianness, field: Field, buf: &[u8]) -> (r: Result<
        Value,
        TiffParserError,
    >)
        ensures
            outcome(r) == decoded(endianness, field, buf@),
    {
        match field {
            Field::Byte => Ok(Value::Bytes(slice_to_vec(buf))),
            Field::Sbyte => Ok(Value::Sbytes(read_sbytes(buf))),
            Field::Short => match read_shorts(endianness, buf) {
                Ok(vals) => Ok(Value::Shorts(vals)),
                Err(x) => Err(x),
            },
            Field::Sshort => match read_sshorts(endianness, buf) {
                Ok(vals) => Ok(Value::Sshorts(vals)),
                Err(x) => Err(x),
            },
            Field::Long => match read_longs(endianness, buf) {
                Ok(vals) => Ok(Value::Longs(vals)),
                Err(x) => Err(x),
            },
            Field::Slong => match read_slongs(endianness, buf) {
                Ok(vals) => Ok(Value::Slongs(vals)),
                Err(x) => Err(x),
            },
            Field::Rational => match read_rationals(endianness, buf) {
                Ok(vals) => Ok(Value::Rationals(vals)),
                Err(x) => Err(x),
            },
            Field::Srational => match read_srationals(endianness, buf) {
                Ok(vals) => Ok(Value::Srationals(vals)),
                Err(x) => Err(x),
            },
            Field::Ascii => match read_text(buf) {
                Ok(text) => Ok(Value::Ascii(text)),
                Err(x) => Err(x),
            },
            Field::Undefined => Ok(Value::Undefined(slice_to_vec(buf))),
            Field::Float => match read_longs(endianness, buf) {
                Ok(vals) => Ok(Value::Floats(vals)),
                Err(x) => Err(x),
            },
            Field::Double => match read_doubles(endianness, buf) {
                Ok(vals) => Ok(Value::Doubles(vals)),
                Err(x) => Err(x),
            },
        }
    }

    /// The first element of an unsigned 16-bit value. Fails on a value of
    /// another kind, and on one without elements.
    pub fn short(&self) -> (r: Result<u16, TiffParserError>)
        ensures
            outcome(r) == self@.short(),
    {
        match self {
            Value::Shorts(vals) => if vals.len() > 0 {
                Ok(vals[0])
            } else {
                Err(TiffParserError::TryFromSlice)
            },
            val => Err(TiffParserError::InvalidValue(val.clone(), "expected short")),
        }
    }

    /// The first element of an unsigned 32-bit value. Fails on a value of
    /// another kind, and on one without elements.
    pub fn long(&self) -> (r: Result<u32, TiffParserError>)
        ensures
            outcome(r) == self@.long(),
    {
        match self {
            Value::Longs(vals) => if vals.len() > 0 {
                Ok(vals[0])
            } else {
                Err(TiffParserError::TryFromSlice)
            },
            val => Err(TiffParserError::InvalidValue(val.clone(), "expected long")),
        }
    }

    /// All elements of an unsigned 16-bit value. Fails on a value of
    /// another kind.
    pub fn shorts(&self) -> (r: Result<&[u16], TiffParserError>)
        ensures
            outcome(r) == self@.shorts(),
    {
        match self {
            Value::Shorts(vals) => Ok(vals.as_slice()),
            val => Err(TiffParserError::InvalidValue(val.clone(), "expected shorts")),
        }
    }

    /// All elements of an unsigned 32-bit value. Fails on a value of
    /// another kind.
    pub fn longs(&self) -> (r: Result<&[u32], TiffParserError>)
        ensures
            outcome(r) == self@.longs(),
    {
        match self {
            Value::Longs(vals) => Ok(vals.as_slice()),
            val => Err(TiffParserError::InvalidValue(val.clone(), "expected longs")),
        }
    }
}

impl ValueView {
    /// The field type whose values are of this kind.
    pub open spec fn field(self) -> Field {
        match self {
            ValueView::Bytes(_) => Field::Byte,
            ValueView::Sbytes(_) => Field::Sbyte,
            ValueView::Shorts(_) => Field::Short,
            ValueView::Sshorts(_) => Field::Sshort,
            ValueView::Longs(_) => Field::Long,
            ValueView::Slongs(_) => Field::Slong,
            ValueView::Rationals(_) => Field::Rational,
            ValueView::Srationals(_) => Field::Srational,
            ValueView::Floats(_) => Field::Float,
            ValueView::Doubles(_) => Field::Double,
            ValueView::Ascii(_) => Field::Ascii,
            ValueView::Undefined(_) => Field::Undefined,
        }
    }

    /// How many elements the value holds; for text, how many characters.
    pub open spec fn count(self) -> nat {
        match self {
            ValueView::Bytes(v) => v.len(),
            ValueView::Sbytes(v) => v.len(),
            ValueView::Shorts(v) => v.len(),
            ValueView::Sshorts(v) => v.len(),
            ValueView::Longs(v) => v.len(),
            ValueView::Slongs(v) => v.len(),
            ValueView::Rationals(v) => v.len(),
            ValueView::Srationals(v) => v.len(),
            ValueView::Floats(v) => v.len(),
            ValueView::Doubles(v) => v.len(),
            ValueView::Ascii(v) => v.len(),
            ValueView::Undefined(v) => v.len(),
        }
    }
}

/// A decoded value is of the kind of the field type it was decoded under,
/// and, text apart, holds one element for each `width` bytes.
pub proof fn lemma_decoded_kind(e: Endianness, field: Field, bytes: Seq<u8>)
    requires
        decoded(e, field, bytes) is Ok,
    ensures
        decoded(e, field, bytes)->Ok_0.field() == field,
        field != Field::Ascii ==> decoded(e, field, bytes)->Ok_0.count() * field.width()
            == bytes.len(),
{
    let n = bytes.len() as int;
    let w = field.width() as int;
    if field != Field::Ascii && w > 1 {
        assert((n / w) * w == n) by (nonlinear_arith)
            requires
                n % w == 0,
                w > 0,
        ;
    }
}

/// Numbers decode exactly from whole elements: bytes that do not divide
/// into elements of the field type's width are refused.
pub proof fn lemma_decoded_needs_whole_elements(e: Endianness, field: Field, bytes: Seq<u8>)
    requires
        field != Field::Ascii,
    ensures
        decoded(e, field, bytes) is Ok <==> bytes.len() % field.width() == 0,
        decoded(e, field, bytes) is Err ==> decoded(e, field, bytes) == Err::<
            ValueView,
            ErrorView,
        >(ErrorView::TryFromSlice),
{
}

/// Text followed by a zero byte decodes to the text.
pub proof fn lemma_terminated_text(e: Endianness, text: Seq<char>)
    ensures
        decoded(e, Field::Ascii, encode_utf8(text) + seq![0u8]) == Ok::<ValueView, ErrorView>(
            ValueView::Ascii(text),
        ),
{
    let bytes = encode_utf8(text) + seq![0u8];
    assert(bytes.drop_last() =~= encode_utf8(text));
    vstd::utf8::encode_utf8_valid_utf8(text);
    vstd::utf8::encode_utf8_decode_utf8(text);
}

/// Bytes that do not end in a zero byte do not decode as text: the error
/// hands the bytes back.
pub proof fn lemma_unterminated_text(e: Endianness, bytes: Seq<u8>)
    requires
        bytes.len() == 0 || bytes.last() != 0,
    ensures
        decoded(e, Field::Ascii, bytes) == Err::<ValueView, ErrorView>(
            ErrorView::StringNotNullTerminated(bytes),
        ),
{
}

/// The accessors give what a value of their kind holds, and refuse every
/// other kind with an error that hands the value back.
pub proof fn lemma_accessors(v: ValueView)
    ensures
        v.shorts() is Ok <==> v is Shorts,
        v.longs() is Ok <==> v is Longs,
        v.short() is Ok <==> v is Shorts && v->Shorts_0.len() > 0,
        v.long() is Ok <==> v is Longs && v->Longs_0.len() > 0,
        v.short() is Ok ==> v.short()->Ok_0 == v.shorts()->Ok_0[0],
        v.long() is Ok ==> v.long()->Ok_0 == v.longs()->Ok_0[0],
        v !is Shorts ==> v.short() == Err::<u16, ErrorView>(
            ErrorView::InvalidValue(v, "expected short"@),
        ),
        v !is Longs ==> v.long() == Err::<u32, ErrorView>(
            ErrorView::InvalidValue(v, "expected long"@),
        ),
{
}

} // verus!
