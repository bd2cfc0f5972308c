//! The tag numbers that the decoder itself interprets.

use vstd::prelude::*;

verus! {

pub const TAG_IMAGE_WIDTH: u16 = 256;

pub const TAG_IMAGE_LENGTH: u16 = 257;

pub const TAG_BITS_PER_SAMPLE: u16 = 258;

pub const TAG_COMPRESSION: u16 = 259;

pub const TAG_STRIP_OFFSETS: u16 = 273;

pub const TAG_SAMPLES_PER_PIXEL: u16 = 277;

pub const TAG_ROWS_PER_STRIP: u16 = 278;

pub const TAG_STRIP_BYTE_COUNTS: u16 = 279;

pub const TAG_TILE_WIDTH: u16 = 322;

pub const TAG_TILE_LENGTH: u16 = 323;

pub const TAG_TILE_OFFSETS: u16 = 324;

pub const TAG_TILE_BYTE_COUNTS: u16 = 325;

pub const TAG_SUB_IFDS: u16 = 330;

} // verus!
