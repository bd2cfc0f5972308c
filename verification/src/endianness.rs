//! Reading fixed-width integers under a byte order.

use vstd::prelude::*;
use crate::error::{outcome, ErrorView, TiffParserError};

verus! {

/// The order in which the bytes of a multi-byte integer are stored.
#[derive(Debug, Clone, Copy, PartialEq, Eq, Structural)]
pub enum Endianness {
    LittleEndian,
    BigEndian,
}

impl View for Endianness {
    type V = Endianness;

    open spec fn view(&self) -> Endianness {
        *self
    }
}

/// The signed 16-bit integer with the same two's complement bits.
pub open spec fn signed16(x: u16) -> i16 {
    if x < 0x8000 {
        x as i16
    } else {
        (x - 0x1_0000) as i16
    }
}

/// The signed 32-bit integer with the same two's complement bits.
pub open spec fn signed32(x: u32) -> i32 {
    if x < 0x8000_0000 {
        x as i32
    } else {
        (x - 0x1_0000_0000) as i32
    }
}

/// The bits of a signed 16-bit integer, read as unsigned.
pub open spec fn unsigned16(x: i16) -> u16 {
    if x >= 0 {
        x as u16
    } else {
        (x + 0x1_0000) as u16
    }
}

/// The bits of a signed 32-bit integer, read as unsigned.
pub open spec fn unsigned32(x: i32) -> u32 {
    if x >= 0 {
        x as u32
    } else {
        (x + 0x1_0000_0000) as u32
    }
}

/// The number that `n` bytes spell, least significant byte first.
pub open spec fn le_number(bytes: Seq<u8>, n: nat) -> nat
    decreases n,
{
    if n == 0 {
        0
    } else {
        bytes[0] as nat + 256 * le_number(bytes.drop_first(), (n - 1) as nat)
    }
}

/// The number that the first `n` bytes spell, most significant byte first.
pub open spec fn be_number(bytes: Seq<u8>, n: nat) -> nat
    decreases n,
{
    if n == 0 {
        0
    } else {
        256 * be_number(bytes, (n - 1) as nat) + bytes[n - 1] as nat
    }
}

/// The `n` bytes that spell `x`, least significant byte first.
pub open spec fn le_bytes(x: nat, n: nat) -> Seq<u8>
    decreases n,
{
    if n == 0 {
        Seq::empty()
    } else {
        seq![(x % 256) as u8] + le_bytes(x / 256, (n - 1) as nat)
    }
}

/// The `n` bytes that spell `x`, most significant byte first.
pub open spec fn be_bytes(x: nat, n: nat) -> Seq<u8>
    decreases n,
{
    if n == 0 {
        Seq::empty()
    } else {
        be_bytes(x / 256, (n - 1) as nat) + seq![(x % 256) as u8]
    }
}

impl Endianness {
    /// The number that the first `n` bytes spell in this byte order.
    pub open spec fn number(self, bytes: Seq<u8>, n: nat) -> nat {
        match self {
            Endianness::LittleEndian => le_number(bytes, n),
            Endianness::BigEndian => be_number(bytes, n),
        }
    }

    /// The `n` bytes that spell `x` in this byte order.
    pub open spec fn bytes_of(self, x: nat, n: nat) -> Seq<u8> {
        match self {
            Endianness::LittleEndian => le_bytes(x, n),
            Endianness::BigEndian => be_bytes(x, n),
        }
    }

    /// What reading an unsigned 16-bit integer from the start of `bytes`
    /// gives.
    pub open spec fn u16_at(self, bytes: Seq<u8>) -> Result<u16, ErrorView> {
        if bytes.len() < 2 {
            Err(ErrorView::TryFromSlice)
        } else {
            Ok(self.number(bytes, 2) as u16)
        }
    }

    /// What reading a signed 16-bit integer from the start of `bytes` gives.
    pub open spec fn i16_at(self, bytes: Seq<u8>) -> Result<i16, ErrorView> {
        if bytes.len() < 2 {
            Err(ErrorView::TryFromSlice)
        } else {
            Ok(signed16(self.number(bytes, 2) as u16))
        }
    }

    /// What reading an unsigned 32-bit integer from the start of `bytes`
    /// gives.
    pub open spec fn u32_at(self, bytes: Seq<u8>) -> Result<u32, ErrorView> {
        if bytes.len() < 4 {
            Err(ErrorView::TryFromSlice)
        } else {
            Ok(self.number(bytes, 4) as u32)
        }
    }

    /// What reading a signed 32-bit integer from the start of `bytes` gives.
    pub open spec fn i32_at(self, bytes: Seq<u8>) -> Result<i32, ErrorView> {
        if bytes.len() < 4 {
            Err(ErrorView::TryFromSlice)
        } else {
            Ok(signed32(self.number(bytes, 4) as u32))
        }
    }

    /// What reading an unsigned 64-bit integer from the start of `bytes`
    /// gives.
    pub open spec fn u64_at(self, bytes: Seq<u8>) -> Result<u64, ErrorView> {
        if bytes.len() < 8 {
            Err(ErrorView::TryFromSlice)
        } else {
            Ok(self.number(bytes, 8) as u64)
        }
    }
}

impl Endianness {
    /// Reads an unsigned 16-bit integer from the first two bytes of `buf`.
    /// Fails when `buf` holds fewer than two bytes.
    pub fn read_u16(&self, buf: &[u8]) -> (r: Result<u16, TiffParserError>)
        ensures
            outcome(r) == self.u16_at(buf@),
    {
        if buf.len() < 2 {
            return Err(TiffParserError::TryFromSlice);
        }
        proof {
            lemma_number_unfold(*self, buf@);
        }
        let b0: u16 = buf[0] as u16;
        let b1: u16 = buf[1] as u16;
        let val: u16 = match self {
            Endianness::LittleEndian => b0 + 256 * b1,
            Endianness::BigEndian => 256 * b0 + b1,
        };
        Ok(val)
    }

    /// Reads a signed 16-bit integer from the first two bytes of `buf`.
    /// Fails when `buf` holds fewer than two bytes.
    pub fn read_i16(&self, buf: &[u8]) -> (r: Result<i16, TiffParserError>)
        ensures
            outcome(r) == self.i16_at(buf@),
    {
        match self.read_u16(buf) {
            Ok(bits) => {
                if bits < 0x8000 {
                    Ok(bits as i16)
                } else {
                    Ok((bits as i32 - 0x1_0000) as i16)
                }
            },
            Err(e) => Err(e),
        }
    }

    /// Reads an unsigned 32-bit integer from the first four bytes of `buf`.
    /// Fails when `buf` holds fewer than four bytes.
    pub fn read_u32(&self, buf: &[u8]) -> (r: Result<u32, TiffParserError>)
        ensures
            outcome(r) == self.u32_at(buf@),
    {
        if buf.len() < 4 {
            return Err(TiffParserError::TryFromSlice);
        }
        proof {
            lemma_number_unfold(*self, buf@);
        }
        let b0: u32 = buf[0] as u32;
        let b1: u32 = buf[1] as u32;
        let b2: u32 = buf[2] as u32;
        let b3: u32 = buf[3] as u32;
        let val: u32 = match self {
            Endianness::LittleEndian => b0 + 256 * b1 + 65536 * b2 + 16777216 * b3,
            Endianness::BigEndian => 16777216 * b0 + 65536 * b1 + 256 * b2 + b3,
        };
        Ok(val)
    }

    /// Reads a signed 32-bit integer from the first four bytes of `buf`.
    /// Fails when `buf` holds fewer than four bytes.
    pub fn read_i32(&self, buf: &[u8]) -> (r: Result<i32, TiffParserError>)
        ensures
            outcome(r) == self.i32_at(buf@),
    {
        match self.read_u32(buf) {
            Ok(bits) => {
                if bits < 0x8000_0000 {
                    Ok(bits as i32)
                } else {
                    Ok((bits as i64 - 0x1_0000_0000) as i32)
                }
            },
            Err(e) => Err(e),
        }
    }

    /// Reads an unsigned 64-bit integer from the first eight bytes of
    /// `buf`. Fails when `buf` holds fewer than eight bytes.
    pub fn read_u64(&self, buf: &[u8]) -> (r: Result<u64, TiffParserError>)
        ensures
            outcome(r) == self.u64_at(buf@),
    {
        if buf.len() < 8 {
            return Err(TiffParserError::TryFromSlice);
        }
        proof {
            lemma_number_unfold(*self, buf@);
        }
        let b0: u64 = buf[0] as u64;
        let b1: u64 = buf[1] as u64;
        let b2: u64 = buf[2] as u64;
        let b3: u64 = buf[3] as u64;
        let b4: u64 = buf[4] as u64;
        let b5: u64 = buf[5] as u64;
        let b6: u64 = buf[6] as u64;
        let b7: u64 = buf[7] as u64;
        let val: u64 = match self {
            Endianness::LittleEndian => b0 + 256 * b1 + 65536 * b2 + 16777216 * b3 + 4294967296
                * b4 + 1099511627776 * b5 + 281474976710656 * b6 + 72057594037927936 * b7,
            Endianness::BigEndian => 72057594037927936 * b0 + 281474976710656 * b1
                + 1099511627776 * b2 + 4294967296 * b3 + 16777216 * b4 + 65536 * b5 + 256 * b6
                + b7,
        };
        Ok(val)
    }
}

/// The numbers that two, four and eight bytes spell, written out.
pub proof fn lemma_number_unfold(e: Endianness, b: Seq<u8>)
    ensures
        b.len() >= 2 ==> e.number(b, 2) == (match e {
            Endianness::LittleEndian => b[0] + 256 * b[1],
            Endianness::BigEndian => 256 * b[0] + b[1],
        }),
        b.len() >= 4 ==> e.number(b, 4) == (match e {
            Endianness::LittleEndian => b[0] + 256 * b[1] + 65536 * b[2] + 16777216 * b[3],
            Endianness::BigEndian => 16777216 * b[0] + 65536 * b[1] + 256 * b[2] + b[3],
        }),
        b.len() >= 8 ==> e.number(b, 8) == (match e {
            Endianness::LittleEndian => b[0] + 256 * b[1] + 65536 * b[2] + 16777216 * b[3]
                + 4294967296 * b[4] + 1099511627776 * b[5] + 281474976710656 * b[6]
                + 72057594037927936 * b[7],
            Endianness::BigEndian => 72057594037927936 * b[0] + 281474976710656 * b[1]
                + 1099511627776 * b[2] + 4294967296 * b[3] + 16777216 * b[4] + 65536 * b[5]
                + 256 * b[6] + b[7],
        }),
{
    reveal_with_fuel(le_number, 9);
    reveal_with_fuel(be_number, 9);
    if b.len() >= 2 {
        let b1 = b.drop_first();
        assert(b1[0] == b[1]);
        if b.len() >= 4 {
            let b2 = b1.drop_first();
            let b3 = b2.drop_first();
            assert(b2[0] == b[2]);
            assert(b3[0] == b[3]);
            if b.len() >= 8 {
                let b4 = b3.drop_first();
                let b5 = b4.drop_first();
                let b6 = b5.drop_first();
                let b7 = b6.drop_first();
                assert(b4[0] == b[4]);
                assert(b5[0] == b[5]);
                assert(b6[0] == b[6]);
                assert(b7[0] == b[7]);
            }
        }
    }
}

/// 256 to the power `n`: how many numbers `n` bytes can spell.
pub open spec fn radix(n: nat) -> nat
    decreases n,
{
    if n == 0 {
        1
    } else {
        256 * radix((n - 1) as nat)
    }
}

/// Only the first `n` bytes matter to the number that they spell.
pub proof fn lemma_number_of_prefix(e: Endianness, a: Seq<u8>, rest: Seq<u8>, n: nat)
    requires
        n <= a.len(),
    ensures
        e.number(a + rest, n) == e.number(a, n),
    decreases n,
{
    if n > 0 {
        match e {
            Endianness::LittleEndian => {
                assert((a + rest).drop_first() =~= a.drop_first() + rest);
                lemma_number_of_prefix(e, a.drop_first(), rest, (n - 1) as nat);
            },
            Endianness::BigEndian => {
                lemma_number_of_prefix(e, a, rest, (n - 1) as nat);
            },
        }
    }
}

/// Writing a number that fits in `n` bytes and reading the bytes back
/// gives the number, in either byte order.
pub proof fn lemma_number_round_trip(e: Endianness, x: nat, n: nat)
    requires
        x < radix(n),
    ensures
        e.bytes_of(x, n).len() == n,
        e.number(e.bytes_of(x, n), n) == x,
    decreases n,
{
    if n > 0 {
        let m = (n - 1) as nat;
        assert(x / 256 < radix(m));
        lemma_number_round_trip(e, x / 256, m);
        match e {
            Endianness::LittleEndian => {
                assert(le_bytes(x, n).drop_first() =~= le_bytes(x / 256, m));
            },
            Endianness::BigEndian => {
                lemma_number_of_prefix(e, be_bytes(x / 256, m), seq![(x % 256) as u8], m);
            },
        }
    }
}

/// Reading back the two bytes written for an unsigned 16-bit integer gives
/// that integer, whatever follows the two bytes.
pub proof fn lemma_u16_round_trip(e: Endianness, x: u16, rest: Seq<u8>)
    ensures
        e.bytes_of(x as nat, 2).len() == 2,
        e.u16_at(e.bytes_of(x as nat, 2) + rest) == Ok::<u16, ErrorView>(x),
{
    reveal_with_fuel(radix, 3);
    lemma_number_round_trip(e, x as nat, 2);
    lemma_number_of_prefix(e, e.bytes_of(x as nat, 2), rest, 2);
}

/// Reading back the two bytes written for a signed 16-bit integer gives
/// that integer, whatever follows the two bytes.
pub proof fn lemma_i16_round_trip(e: Endianness, x: i16, rest: Seq<u8>)
    ensures
        e.bytes_of(unsigned16(x) as nat, 2).len() == 2,
        e.i16_at(e.bytes_of(unsigned16(x) as nat, 2) + rest) == Ok::<i16, ErrorView>(x),
{
    lemma_u16_round_trip(e, unsigned16(x), rest);
}

/// Reading back the four bytes written for an unsigned 32-bit integer
/// gives that integer, whatever follows the four bytes.
pub proof fn lemma_u32_round_trip(e: Endianness, x: u32, rest: Seq<u8>)
    ensures
        e.bytes_of(x as nat, 4).len() == 4,
        e.u32_at(e.bytes_of(x as nat, 4) + rest) == Ok::<u32, ErrorView>(x),
{
    reveal_with_fuel(radix, 5);
    lemma_number_round_trip(e, x as nat, 4);
    lemma_number_of_prefix(e, e.bytes_of(x as nat, 4), rest, 4);
}

/// Reading back the four bytes written for a signed 32-bit integer gives
/// that integer, whatever follows the four bytes.
pub proof fn lemma_i32_round_trip(e: Endianness, x: i32, rest: Seq<u8>)
    ensures
        e.bytes_of(unsigned32(x) as nat, 4).len() == 4,
        e.i32_at(e.bytes_of(unsigned32(x) as nat, 4) + rest) == Ok::<i32, ErrorView>(x),
{
    lemma_u32_round_trip(e, unsigned32(x), rest);
}

/// Reading back the eight bytes written for an unsigned 64-bit integer
/// gives that integer, whatever follows the eight bytes.
pub proof fn lemma_u64_round_trip(e: Endianness, x: u64, rest: Seq<u8>)
    ensures
        e.bytes_of(x as nat, 8).len() == 8,
        e.u64_at(e.bytes_of(x as nat, 8) + rest) == Ok::<u64, ErrorView>(x),
{
    reveal_with_fuel(radix, 9);
    lemma_number_round_trip(e, x as nat, 8);
    lemma_number_of_prefix(e, e.bytes_of(x as nat, 8), rest, 8);
}

} // verus!
