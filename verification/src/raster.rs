//! Rebuilding the pixels of a tiled image.

use vstd::prelude::*;
use vstd::arithmetic::div_mod::lemma_fundamental_div_mod_converse;
use crate::buffer::{i16_from, i32_from, read_i16_at, read_i32_at, window, window_at};
use crate::compression::{
    create_decompressor, lemma_unpacking_errors, unpacked_by, Decompressor, COMPRESSION_LZW,
    COMPRESSION_NONE,
};
use crate::endianness::Endianness;
use crate::error::{outcome, ErrorView, TiffParserError};
use crate::gather::{
    gathered, lemma_gathered_error, lemma_gathered_failure, lemma_gathered_values,
};
use crate::ifd::{find, lookup, Ifd, IfdEntryView};
use crate::tags::{
    TAG_BITS_PER_SAMPLE, TAG_COMPRESSION, TAG_IMAGE_LENGTH, TAG_IMAGE_WIDTH, TAG_ROWS_PER_STRIP,
    TAG_SAMPLES_PER_PIXEL, TAG_STRIP_BYTE_COUNTS, TAG_STRIP_OFFSETS, TAG_TILE_BYTE_COUNTS,
    TAG_TILE_LENGTH, TAG_TILE_OFFSETS, TAG_TILE_WIDTH,
};

verus! {

/// What a directory states about its tiled image.
pub struct Tiling<'a> {
    pub tile_width: u16,
    pub tile_length: u16,
    pub tile_offsets: &'a [u32],
    pub tile_byte_counts: &'a [u32],
    pub image_width: u16,
    pub image_length: u16,
    pub bits_per_sample: u16,
    pub samples_per_pixel: u16,
    pub compression: u16,
}

/// What a directory states about its tiled image, as a mathematical value.
pub struct TilingView {
    pub tile_width: u16,
    pub tile_length: u16,
    pub tile_offsets: Seq<u32>,
    pub tile_byte_counts: Seq<u32>,
    pub image_width: u16,
    pub image_length: u16,
    pub bits_per_sample: u16,
    pub samples_per_pixel: u16,
    pub compression: u16,
}

impl<'a> View for Tiling<'a> {
    type V = TilingView;

    open spec fn view(&self) -> TilingView {
        TilingView {
            tile_width: self.tile_width,
            tile_length: self.tile_length,
            tile_offsets: self.tile_offsets@,
            tile_byte_counts: self.tile_byte_counts@,
            image_width: self.image_width,
            image_length: self.image_length,
            bits_per_sample: self.bits_per_sample,
            samples_per_pixel: self.samples_per_pixel,
            compression: self.compression,
        }
    }
}

/// The first element of the unsigned 16-bit value under `tag`.
pub open spec fn required_short(entries: Seq<IfdEntryView>, tag: u16) -> Result<u16, ErrorView> {
    match lookup(entries, tag) {
        Ok(v) => v.short(),
        Err(x) => Err(x),
    }
}

/// The elements of the unsigned 32-bit value under `tag`.
pub open spec fn required_longs(entries: Seq<IfdEntryView>, tag: u16) -> Result<
    Seq<u32>,
    ErrorView,
> {
    match lookup(entries, tag) {
        Ok(v) => v.longs(),
        Err(x) => Err(x),
    }
}

/// What the entries state about a tiled image. Nine values are asked for:
/// tile width, tile length, tile offsets, tile byte counts, image width,
/// image length, bits per sample, samples per pixel and compression. The
/// first of them, in this order, that is missing or of the wrong kind
/// decides the error.
pub open spec fn tiling_of(entries: Seq<IfdEntryView>) -> Result<TilingView, ErrorView> {
    let tile_width = required_short(entries, TAG_TILE_WIDTH);
    let tile_length = required_short(entries, TAG_TILE_LENGTH);
    let tile_offsets = required_longs(entries, TAG_TILE_OFFSETS);
    let tile_byte_counts = required_longs(entries, TAG_TILE_BYTE_COUNTS);
    let image_width = required_short(entries, TAG_IMAGE_WIDTH);
    let image_length = required_short(entries, TAG_IMAGE_LENGTH);
    let bits_per_sample = required_short(entries, TAG_BITS_PER_SAMPLE);
    let samples_per_pixel = required_short(entries, TAG_SAMPLES_PER_PIXEL);
    let compression = required_short(entries, TAG_COMPRESSION);
    if tile_width is Err {
        Err(tile_width->Err_0)
    } else if tile_length is Err {
        Err(tile_length->Err_0)
    } else if tile_offsets is Err {
        Err(tile_offsets->Err_0)
    } else if tile_byte_counts is Err {
        Err(tile_byte_counts->Err_0)
    } else if image_width is Err {
        Err(image_width->Err_0)
    } else if image_length is Err {
        Err(image_length->Err_0)
    } else if bits_per_sample is Err {
        Err(bits_per_sample->Err_0)
    } else if samples_per_pixel is Err {
        Err(samples_per_pixel->Err_0)
    } else if compression is Err {
        Err(compression->Err_0)
    } else {
        Ok(
            TilingView {
                tile_width: tile_width->Ok_0,
                tile_length: tile_length->Ok_0,
                tile_offsets: tile_offsets->Ok_0,
                tile_byte_counts: tile_byte_counts->Ok_0,
                image_width: image_width->Ok_0,
                image_length: image_length->Ok_0,
                bits_per_sample: bits_per_sample->Ok_0,
                samples_per_pixel: samples_per_pixel->Ok_0,
                compression: compression->Ok_0,
            },
        )
    }
}

/// Reads the first element of the unsigned 16-bit value under `tag`.
fn short_under(ifd: &Ifd, tag: u16) -> (r: Result<u16, TiffParserError>)
    ensures
        outcome(r) == required_short(ifd@.entries, tag),
{
    ifd.get_value(tag)?.short()
}

/// Reads the elements of the unsigned 32-bit value under `tag`.
fn longs_under(ifd: &Ifd, tag: u16) -> (r: Result<&[u32], TiffParserError>)
    ensures
        outcome(r) == required_longs(ifd@.entries, tag),
{
    ifd.get_value(tag)?.longs()
}

/// Gathers what a directory states about its tiled image.
pub fn tiling(ifd: &Ifd) -> (r: Result<Tiling<'_>, TiffParserError>)
    ensures
        outcome(r) == tiling_of(ifd@.entries),
{
    let tile_width = short_under(ifd, TAG_TILE_WIDTH)?;
    let tile_length = short_under(ifd, TAG_TILE_LENGTH)?;
    let tile_offsets = longs_under(ifd, TAG_TILE_OFFSETS)?;
    let tile_byte_counts = longs_under(ifd, TAG_TILE_BYTE_COUNTS)?;
    let image_width = short_under(ifd, TAG_IMAGE_WIDTH)?;
    let image_length = short_under(ifd, TAG_IMAGE_LENGTH)?;
    let bits_per_sample = short_under(ifd, TAG_BITS_PER_SAMPLE)?;
    let samples_per_pixel = short_under(ifd, TAG_SAMPLES_PER_PIXEL)?;
    let compression = short_under(ifd, TAG_COMPRESSION)?;
    Ok(
        Tiling {
            tile_width,
            tile_length,
            tile_offsets,
            tile_byte_counts,
            image_width,
            image_length,
            bits_per_sample,
            samples_per_pixel,
            compression,
        },
    )
}

impl TilingView {
    /// How many bytes one pixel takes.
    pub open spec fn bytes_per_pixel(self) -> nat {
        (self.bits_per_sample as nat * self.samples_per_pixel as nat) / 8
    }

    /// How many bytes one unpacked tile holds.
    pub open spec fn tile_size(self) -> nat {
        (self.tile_width as nat * self.tile_length as nat * self.bits_per_sample as nat) / 8
    }

    /// How many tiles are stated by both an offset and a byte count.
    pub open spec fn tile_count(self) -> nat {
        if self.tile_offsets.len() <= self.tile_byte_counts.len() {
            self.tile_offsets.len()
        } else {
            self.tile_byte_counts.len()
        }
    }

    /// The unpacked bytes of tile `k`: what its stored bytes, cut from the
    /// buffer at its offset in its byte count, unpack to under the
    /// directory's compression, in the size of one tile.
    pub open spec fn tile_at(self, buf: Seq<u8>, k: int) -> Result<Seq<u8>, ErrorView> {
        match window_at(buf, self.tile_offsets[k] as int, self.tile_byte_counts[k] as int) {
            Err(x) => Err(x),
            Ok(stored) => if (self.compression == COMPRESSION_NONE || self.compression
                == COMPRESSION_LZW) && self.tile_size() > usize::MAX {
                Err(ErrorView::TryFromSlice)
            } else {
                unpacked_by(self.compression, stored, self.tile_size())
            },
        }
    }

    /// The unpacked bytes of all tiles, in the order of their offsets.
    pub open spec fn tiles(self, buf: Seq<u8>) -> Result<Seq<Seq<u8>>, ErrorView> {
        gathered(|k: int| self.tile_at(buf, k), self.tile_count())
    }
}

/// The contents of a vector of byte vectors.
pub open spec fn tile_views(tiles: Seq<Vec<u8>>) -> Seq<Seq<u8>> {
    Seq::new(tiles.len(), |i: int| tiles[i]@)
}

/// The size of one unpacked tile in bytes.
fn tile_size(tiling: &Tiling) -> (r: u64)
    ensures
        r == tiling@.tile_size(),
{
    let width = tiling.tile_width as u64;
    let length = tiling.tile_length as u64;
    let bits = tiling.bits_per_sample as u64;
    assert(width * length <= 0xffff * 0xffff) by (nonlinear_arith)
        requires
            width <= 0xffff,
            length <= 0xffff,
    ;
    assert(width * length * bits <= 0xffff * 0xffff * 0xffff) by (nonlinear_arith)
        requires
            width * length <= 0xffff * 0xffff,
            bits <= 0xffff,
    ;
    width * length * bits / 8
}

/// Unpacks every tile of the image, each with a decompressor of its own.
pub fn unpack_tiles(buf: &[u8], tiling: &Tiling) -> (r: Result<Vec<Vec<u8>>, TiffParserError>)
    ensures
        match r {
            Ok(tiles) => {
                &&& tiling@.tiles(buf@) == Ok::<Seq<Seq<u8>>, ErrorView>(tile_views(tiles@))
                &&& tiles@.len() == tiling@.tile_count()
                &&& forall|k: int|
                    0 <= k < tiles@.len() ==> (#[trigger] tiles@[k])@.len() == tiling@.tile_size()
            },
            Err(x) => tiling@.tiles(buf@) == Err::<Seq<Seq<u8>>, ErrorView>(x@),
        },
{
    let count = if tiling.tile_offsets.len() <= tiling.tile_byte_counts.len() {
        tiling.tile_offsets.len()
    } else {
        tiling.tile_byte_counts.len()
    };
    let ghost item = |k: int| tiling@.tile_at(buf@, k);
    let mut tiles: Vec<Vec<u8>> = Vec::new();
    assert(tile_views(tiles@) =~= Seq::<Seq<u8>>::empty());
    let mut i: usize = 0;
    while i < count
        invariant
            i <= count,
            count == tiling@.tile_count(),
            item == (|k: int| tiling@.tile_at(buf@, k)),
            gathered(item, i as nat) == Ok::<Seq<Seq<u8>>, ErrorView>(tile_views(tiles@)),
            tiles@.len() == i,
            forall|k: int|
                0 <= k < tiles@.len() ==> (#[trigger] tiles@[k])@.len() == tiling@.tile_size(),
        decreases count - i,
    {
        proof {
            if item(i as int) is Err {
                lemma_gathered_failure(item, (i + 1) as nat, count as nat);
            }
        }
        let stored = window(
            buf,
            tiling.tile_offsets[i] as u64,
            tiling.tile_byte_counts[i] as u64,
        )?;
        let mut decompressor = create_decompressor(tiling.compression)?;
        let size = tile_size(tiling);
        if size > usize::MAX as u64 {
            return Err(TiffParserError::TryFromSlice);
        }
        let tile = decompressor.decompress(stored, size as usize)?;
        assert(tile_views(tiles@.push(tile)) =~= tile_views(tiles@).push(tile@));
        tiles.push(tile);
        i = i + 1;
    }
    Ok(tiles)
}

impl TilingView {
    /// How many tiles lie side by side: as many as it takes to cover the
    /// image's width.
    pub open spec fn tiles_across(self) -> int {
        (self.image_width + self.tile_width - 1) / (self.tile_width as int)
    }

    /// The pixel in row `row` and column `col` of the image, rows counted
    /// from the top: the tile that the pixel lies in is found by dividing
    /// row and column by the tile's length and width, tiles counted row by
    /// row; the remainders give the pixel's place in the tile, where it is
    /// stored as a signed integer of two or of four bytes.
    pub open spec fn pixel(self, e: Endianness, tiles: Seq<Seq<u8>>, row: int, col: int) -> Result<
        i32,
        ErrorView,
    > {
        let tile = (row / (self.tile_length as int)) * self.tiles_across() + col / (
        self.tile_width as int);
        let at = self.bytes_per_pixel() * ((row % (self.tile_length as int)) * self.tile_width
            + col % (self.tile_width as int));
        if tile >= tiles.len() {
            Err(ErrorView::TryFromSlice)
        } else if self.bytes_per_pixel() == 2 {
            match i16_from(e, tiles[tile], at) {
                Ok(v) => Ok(v as i32),
                Err(x) => Err(x),
            }
        } else {
            i32_from(e, tiles[tile], at)
        }
    }

    /// The pixels of the image, row by row from the top: as many as the
    /// image's length times its width.
    pub open spec fn raster(self, e: Endianness, tiles: Seq<Seq<u8>>) -> Result<
        Seq<i32>,
        ErrorView,
    > {
        gathered(
            |k: int|
                self.pixel(e, tiles, k / (self.image_width as int), k % (self.image_width as int)),
            self.image_length as nat * self.image_width as nat,
        )
    }

    /// Whether the pixels of unpacked tiles can be read: a pixel takes two
    /// or four bytes, and the tiles have a width and, where the image has
    /// rows, a length.
    pub open spec fn readable(self) -> bool {
        &&& self.bytes_per_pixel() == 2 || self.bytes_per_pixel() == 4
        &&& self.tile_width > 0
        &&& self.tile_length > 0 || self.image_length == 0
    }
}

/// The number of bytes that one pixel takes.
pub fn bytes_per_pixel(tiling: &Tiling) -> (r: u64)
    ensures
        r == tiling@.bytes_per_pixel(),
{
    let bits = tiling.bits_per_sample as u64;
    let samples = tiling.samples_per_pixel as u64;
    assert(bits * samples <= 0xffff * 0xffff) by (nonlinear_arith)
        requires
            bits <= 0xffff,
            samples <= 0xffff,
    ;
    bits * samples / 8
}

/// Puts the pixels of the unpacked tiles in the order of the image, row by
/// row from the top. Fails when a pixel lies in a tile that is not there,
/// or beyond the end of its tile.
pub fn assemble(endianness: Endianness, tiles: &Vec<Vec<u8>>, tiling: &Tiling) -> (r: Result<
    Vec<i32>,
    TiffParserError,
>)
    requires
        tiling@.readable(),
    ensures
        outcome(r) == tiling@.raster(endianness, tile_views(tiles@)),
{
    let width = tiling.image_width as u64;
    let length = tiling.image_length as u64;
    let tile_width = tiling.tile_width as u64;
    let tile_length = tiling.tile_length as u64;
    let pixel_bytes = bytes_per_pixel(tiling);
    let across = (width + tile_width - 1) / tile_width;
    assert(across <= 0x1_ffff) by (nonlinear_arith)
        requires
            across == (width + tile_width - 1) / (tile_width as int),
            1 <= tile_width <= 0xffff,
            width <= 0xffff,
    ;
    let ghost t = tiling@;
    let ghost views = tile_views(tiles@);
    let ghost item = |k: int| t.pixel(endianness, views, k / (width as int), k % (width as int));
    let mut data: Vec<i32> = Vec::new();
    let mut j: u64 = 0;
    while j < length
        invariant
            j <= length,
            t == tiling@,
            t.readable(),
            views == tile_views(tiles@),
            width == t.image_width,
            length == t.image_length,
            tile_width == t.tile_width,
            tile_length == t.tile_length,
            pixel_bytes == t.bytes_per_pixel(),
            across == t.tiles_across(),
            across <= 0x1_ffff,
            item == (|k: int|
                t.pixel(endianness, views, k / (width as int), k % (width as int))),
            gathered(item, (j * width) as nat) == Ok::<Seq<i32>, ErrorView>(data@),
        decreases length - j,
    {
        let tile_row = j / tile_length;
        let jt = j % tile_length;
        let mut i: u64 = 0;
        while i < width
            invariant
                i <= width,
                j < length,
                t == tiling@,
                t.readable(),
                views == tile_views(tiles@),
                width == t.image_width,
                length == t.image_length,
                tile_width == t.tile_width,
                tile_length == t.tile_length,
                tile_length > 0,
                pixel_bytes == t.bytes_per_pixel(),
                across == t.tiles_across(),
                across <= 0x1_ffff,
                tile_row == j / tile_length,
                jt == j % tile_length,
                item == (|k: int|
                    t.pixel(endianness, views, k / (width as int), k % (width as int))),
                gathered(item, (j * width + i) as nat) == Ok::<Seq<i32>, ErrorView>(data@),
            decreases width - i,
        {
            let tile_col = i / tile_width;
            let it = i % tile_width;
            proof {
                let k = j * width + i;
                lemma_fundamental_div_mod_converse(k as int, width as int, j as int, i as int);
                assert(k + 1 <= length * width) by (nonlinear_arith)
                    requires
                        k == j * width + i,
                        i < width,
                        j < length,
                ;
                assert(tile_row * across <= 0xffff * 0x1_ffff) by (nonlinear_arith)
                    requires
                        tile_row <= 0xffff,
                        across <= 0x1_ffff,
                ;
                assert(jt * tile_width <= 0xffff * 0xffff) by (nonlinear_arith)
                    requires
                        jt <= 0xffff,
                        tile_width <= 0xffff,
                ;
                if item(k as int) is Err {
                    lemma_gathered_failure(item, (k + 1) as nat, (length * width) as nat);
                }
            }
            let index = tile_row * across + tile_col;
            let at = pixel_bytes * (jt * tile_width + it);
            if index >= tiles.len() as u64 {
                return Err(TiffParserError::TryFromSlice);
            }
            let tile = tiles[index as usize].as_slice();
            let pixel = if pixel_bytes == 2 {
                read_i16_at(endianness, tile, at)? as i32
            } else {
                read_i32_at(endianness, tile, at)?
            };
            data.push(pixel);
            i = i + 1;
        }
        assert((j + 1) * width == j * width + width) by (nonlinear_arith);
        j = j + 1;
    }
    Ok(data)
}

/// Whether the entries carry the three tags of an image in strips.
pub open spec fn stripped(entries: Seq<IfdEntryView>) -> bool {
    find(entries, TAG_ROWS_PER_STRIP) is Some && find(entries, TAG_STRIP_OFFSETS) is Some && find(
        entries,
        TAG_STRIP_BYTE_COUNTS,
    ) is Some
}

/// Whether the entries carry the four tags of an image in tiles.
pub open spec fn tiled(entries: Seq<IfdEntryView>) -> bool {
    find(entries, TAG_TILE_WIDTH) is Some && find(entries, TAG_TILE_LENGTH) is Some && find(
        entries,
        TAG_TILE_OFFSETS,
    ) is Some && find(entries, TAG_TILE_BYTE_COUNTS) is Some
}

/// The pixels of the tiled image that the entries describe. What the
/// entries state is gathered first; then a pixel must take two or four
/// bytes; then the tiles are unpacked; then the tiles must have a width
/// and, where the image has rows, a length; then the pixels are read.
pub open spec fn tiled_raster(e: Endianness, buf: Seq<u8>, entries: Seq<IfdEntryView>) -> Result<
    Seq<i32>,
    ErrorView,
> {
    match tiling_of(entries) {
        Err(x) => Err(x),
        Ok(t) => if t.bytes_per_pixel() != 2 && t.bytes_per_pixel() != 4 {
            Err(ErrorView::UnsupportedPixelWidth(t.bytes_per_pixel() as u64))
        } else {
            match t.tiles(buf) {
                Err(x) => Err(x),
                Ok(tiles) => if t.tile_width == 0 {
                    Err(
                        ErrorView::InvalidValue(
                            find(entries, TAG_TILE_WIDTH)->Some_0,
                            "expected a tile width above zero"@,
                        ),
                    )
                } else if t.tile_length == 0 && t.image_length > 0 {
                    Err(
                        ErrorView::InvalidValue(
                            find(entries, TAG_TILE_LENGTH)->Some_0,
                            "expected a tile length above zero"@,
                        ),
                    )
                } else {
                    t.raster(e, tiles)
                },
            }
        },
    }
}

/// The pixels of the image that the entries describe: those of a tiled
/// image; none where the entries describe no image. An image in strips is
/// not supported, and one in strips and in tiles at once is refused.
pub open spec fn raster_of(e: Endianness, buf: Seq<u8>, entries: Seq<IfdEntryView>) -> Result<
    Seq<i32>,
    ErrorView,
> {
    if stripped(entries) && !tiled(entries) {
        Err(ErrorView::StripsUnsupported)
    } else if tiled(entries) && !stripped(entries) {
        tiled_raster(e, buf, entries)
    } else if tiled(entries) && stripped(entries) {
        Err(ErrorView::ImageBothTiledAndStripped)
    } else {
        Ok(Seq::empty())
    }
}

/// Rebuilds the pixels of the tiled image that a directory describes.
pub fn reconstruct(endianness: Endianness, buf: &[u8], ifd: &Ifd) -> (r: Result<
    Vec<i32>,
    TiffParserError,
>)
    ensures
        outcome(r) == tiled_raster(endianness, buf@, ifd@.entries),
{
    let tiling = tiling(ifd)?;
    let pixel_bytes = bytes_per_pixel(&tiling);
    if pixel_bytes != 2 && pixel_bytes != 4 {
        return Err(TiffParserError::UnsupportedPixelWidth(pixel_bytes));
    }
    let tiles = unpack_tiles(buf, &tiling)?;
    if tiling.tile_width == 0 {
        let stated = ifd.get_value(TAG_TILE_WIDTH)?;
        return Err(
            TiffParserError::InvalidValue(stated.clone(), "expected a tile width above zero"),
        );
    }
    if tiling.tile_length == 0 && tiling.image_length > 0 {
        let stated = ifd.get_value(TAG_TILE_LENGTH)?;
        return Err(
            TiffParserError::InvalidValue(stated.clone(), "expected a tile length above zero"),
        );
    }
    assemble(endianness, &tiles, &tiling)
}

/// Entries that carry the strip tags and the tile tags at once describe
/// no image that can be rebuilt.
pub proof fn lemma_tiled_and_stripped(e: Endianness, buf: Seq<u8>, entries: Seq<IfdEntryView>)
    requires
        stripped(entries),
        tiled(entries),
    ensures
        raster_of(e, buf, entries) == Err::<Seq<i32>, ErrorView>(
            ErrorView::ImageBothTiledAndStripped,
        ),
{
}

/// Entries that carry the strip tags alone describe an image that is not
/// supported, and entries that carry neither set describe no pixels.
pub proof fn lemma_untiled(e: Endianness, buf: Seq<u8>, entries: Seq<IfdEntryView>)
    requires
        !tiled(entries),
    ensures
        stripped(entries) ==> raster_of(e, buf, entries) == Err::<Seq<i32>, ErrorView>(
            ErrorView::StripsUnsupported,
        ),
        !stripped(entries) ==> raster_of(e, buf, entries) == Ok::<Seq<i32>, ErrorView>(
            Seq::empty(),
        ),
{
}

/// The tags that rebuilding a tiled image asks for.
pub open spec fn tiling_tags() -> Seq<u16> {
    seq![
        TAG_TILE_WIDTH,
        TAG_TILE_LENGTH,
        TAG_TILE_OFFSETS,
        TAG_TILE_BYTE_COUNTS,
        TAG_IMAGE_WIDTH,
        TAG_IMAGE_LENGTH,
        TAG_BITS_PER_SAMPLE,
        TAG_SAMPLES_PER_PIXEL,
        TAG_COMPRESSION,
    ]
}

/// Whether the entries state the tag asked for in place `i` with a value
/// of its kind: offsets and byte counts as unsigned 32-bit values, all
/// else as an unsigned 16-bit value with an element.
pub open spec fn stated(entries: Seq<IfdEntryView>, i: int) -> bool {
    match find(entries, tiling_tags()[i]) {
        Some(v) => if i == 2 || i == 3 {
            v is Longs
        } else {
            v is Shorts && v->Shorts_0.len() > 0
        },
        None => false,
    }
}

/// Rebuilding a tiled image from entries that lack one of the tags asked
/// for fails, whatever the buffer holds.
pub proof fn lemma_missing_tag_fails(
    e: Endianness,
    buf: Seq<u8>,
    entries: Seq<IfdEntryView>,
    i: int,
)
    requires
        0 <= i < tiling_tags().len(),
        find(entries, tiling_tags()[i]) is None,
    ensures
        tiled_raster(e, buf, entries) is Err,
{
    let tags = tiling_tags();
    assert(tags[0] == TAG_TILE_WIDTH && tags[1] == TAG_TILE_LENGTH && tags[2] == TAG_TILE_OFFSETS
        && tags[3] == TAG_TILE_BYTE_COUNTS && tags[4] == TAG_IMAGE_WIDTH && tags[5]
        == TAG_IMAGE_LENGTH && tags[6] == TAG_BITS_PER_SAMPLE && tags[7] == TAG_SAMPLES_PER_PIXEL
        && tags[8] == TAG_COMPRESSION);
}

/// Where the tags asked for before a missing one are all stated with
/// values of their kind, the error names the missing tag.
pub proof fn lemma_missing_tag(e: Endianness, buf: Seq<u8>, entries: Seq<IfdEntryView>, i: int)
    requires
        0 <= i < tiling_tags().len(),
        find(entries, tiling_tags()[i]) is None,
        forall|k: int| 0 <= k < i ==> stated(entries, k),
    ensures
        tiled_raster(e, buf, entries) == Err::<Seq<i32>, ErrorView>(
            ErrorView::MissingValue(tiling_tags()[i]),
        ),
{
    let tags = tiling_tags();
    assert(tags[0] == TAG_TILE_WIDTH && tags[1] == TAG_TILE_LENGTH && tags[2] == TAG_TILE_OFFSETS
        && tags[3] == TAG_TILE_BYTE_COUNTS && tags[4] == TAG_IMAGE_WIDTH && tags[5]
        == TAG_IMAGE_LENGTH && tags[6] == TAG_BITS_PER_SAMPLE && tags[7] == TAG_SAMPLES_PER_PIXEL
        && tags[8] == TAG_COMPRESSION);
    assert(i > 0 ==> stated(entries, 0));
    assert(i > 1 ==> stated(entries, 1));
    assert(i > 2 ==> stated(entries, 2));
    assert(i > 3 ==> stated(entries, 3));
    assert(i > 4 ==> stated(entries, 4));
    assert(i > 5 ==> stated(entries, 5));
    assert(i > 6 ==> stated(entries, 6));
    assert(i > 7 ==> stated(entries, 7));
}

/// A tiled image without a tile width is refused with the error that
/// names the tile width's tag.
pub proof fn lemma_missing_tile_width(e: Endianness, buf: Seq<u8>, entries: Seq<IfdEntryView>)
    requires
        find(entries, TAG_TILE_WIDTH) is None,
    ensures
        tiled_raster(e, buf, entries) == Err::<Seq<i32>, ErrorView>(
            ErrorView::MissingValue(TAG_TILE_WIDTH),
        ),
{
}

/// A rebuilt raster holds one pixel for each column of each row, and the
/// pixel in row `row` and column `col` stands at index `row` times the
/// width plus `col`.
pub proof fn lemma_raster_layout(
    t: TilingView,
    e: Endianness,
    tiles: Seq<Seq<u8>>,
    row: int,
    col: int,
)
    requires
        t.raster(e, tiles) is Ok,
        0 <= row < t.image_length,
        0 <= col < t.image_width,
    ensures
        t.raster(e, tiles)->Ok_0.len() == t.image_length * t.image_width,
        0 <= row * t.image_width + col < t.image_length * t.image_width,
        t.pixel(e, tiles, row, col) == Ok::<i32, ErrorView>(
            t.raster(e, tiles)->Ok_0[row * t.image_width + col],
        ),
{
    let w = t.image_width as int;
    let l = t.image_length as int;
    let k = row * w + col;
    let item = |k: int| t.pixel(e, tiles, k / w, k % w);
    lemma_gathered_values(item, (l * w) as nat);
    assert(0 <= k < l * w) by (nonlinear_arith)
        requires
            k == row * w + col,
            0 <= row < l,
            0 <= col < w,
    ;
    lemma_fundamental_div_mod_converse(k, w, row, col);
}

/// A raster is rebuilt only from entries that state all that is asked
/// for, with pixels of two or four bytes.
pub proof fn lemma_rebuilt(e: Endianness, buf: Seq<u8>, entries: Seq<IfdEntryView>)
    requires
        tiled_raster(e, buf, entries) is Ok,
    ensures
        tiling_of(entries) is Ok,
        tiling_of(entries)->Ok_0.readable(),
        tiling_of(entries)->Ok_0.tiles(buf) is Ok,
        tiled_raster(e, buf, entries) == tiling_of(entries)->Ok_0.raster(
            e,
            tiling_of(entries)->Ok_0.tiles(buf)->Ok_0,
        ),
        tiled_raster(e, buf, entries)->Ok_0.len() == tiling_of(entries)->Ok_0.image_length
            * tiling_of(entries)->Ok_0.image_width,
        forall|i: int|
            0 <= i < tiling_tags().len() ==> find(entries, #[trigger] tiling_tags()[i]) is Some,
{
    let t = tiling_of(entries)->Ok_0;
    let tiles = t.tiles(buf)->Ok_0;
    let w = t.image_width as int;
    lemma_gathered_values(
        |k: int| t.pixel(e, tiles, k / w, k % w),
        t.image_length as nat * t.image_width as nat,
    );
}

/// Data stored as it is unpacks to the bytes of the tile themselves where
/// the tile's byte count is the size of one tile.
pub proof fn lemma_stored_tile(t: TilingView, buf: Seq<u8>, k: int)
    requires
        t.compression == COMPRESSION_NONE,
        0 <= k < t.tile_count(),
        t.tile_size() <= usize::MAX,
        t.tile_byte_counts[k] == t.tile_size(),
        t.tile_offsets[k] + t.tile_byte_counts[k] <= buf.len(),
    ensures
        t.tile_at(buf, k) == Ok::<Seq<u8>, ErrorView>(
            buf.subrange(t.tile_offsets[k] as int, t.tile_offsets[k] + t.tile_byte_counts[k]),
        ),
{
    let stored = buf.subrange(t.tile_offsets[k] as int, t.tile_offsets[k] + t.tile_byte_counts[k]);
    assert(stored.subrange(0, t.tile_size() as int) =~= stored);
}

/// Rebuilding an image never reports a loop of directories.
pub proof fn lemma_raster_errors(e: Endianness, buf: Seq<u8>, entries: Seq<IfdEntryView>)
    ensures
        raster_of(e, buf, entries) != Err::<Seq<i32>, ErrorView>(ErrorView::DirectoryLoop),
{
    if tiling_of(entries) is Ok {
        let t = tiling_of(entries)->Ok_0;
        if t.tiles(buf) is Err {
            let k = lemma_gathered_error(|k: int| t.tile_at(buf, k), t.tile_count());
            let stored = window_at(buf, t.tile_offsets[k] as int, t.tile_byte_counts[k] as int);
            if stored is Ok && unpacked_by(t.compression, stored->Ok_0, t.tile_size()) is Err {
                lemma_unpacking_errors(t.compression, stored->Ok_0, t.tile_size());
            }
        } else {
            let tiles = t.tiles(buf)->Ok_0;
            if t.raster(e, tiles) is Err {
                let w = t.image_width as int;
                let k = lemma_gathered_error(
                    |k: int| t.pixel(e, tiles, k / w, k % w),
                    t.image_length as nat * t.image_width as nat,
                );
            }
        }
    }
}

} // verus!
