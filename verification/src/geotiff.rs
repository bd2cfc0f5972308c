//! Pixels of a file's first image, addressed from the bottom row up.

use vstd::prelude::*;
use crate::error::{outcome, TiffParserError};
use crate::ifd::IfdView;
use crate::tags::{TAG_IMAGE_LENGTH, TAG_IMAGE_WIDTH};
use crate::tiff_file::{file_of, TiffFile};

verus! {

/// A decoded file whose first directory is read as a geographic raster.
#[derive(Debug)]
pub struct GeoTiff {
    pub tiff: TiffFile,
}

impl View for GeoTiff {
    type V = Seq<IfdView>;

    open spec fn view(&self) -> Seq<IfdView> {
        self.tiff@
    }
}

/// Where the pixel in column `lon` of row `lat`, rows counted from the
/// bottom, stands in a raster of `length` rows of `width` pixels that is
/// stored from the top row down.
pub open spec fn pixel_index(width: int, length: int, lon: int, lat: int) -> int {
    (length - 1 - lat) * width + lon
}

/// Whether a directory holds a pixel for column `lon` of row `lat`: it
/// states its width and length, the row is one of its rows, and the raster
/// reaches that far.
pub open spec fn holds_pixel(ifd: IfdView, lon: int, lat: int) -> bool {
    &&& ifd.short_under(TAG_IMAGE_WIDTH) is Some
    &&& ifd.short_under(TAG_IMAGE_LENGTH) is Some
    &&& 0 <= lat < ifd.short_under(TAG_IMAGE_LENGTH)->Some_0
    &&& 0 <= lon
    &&& pixel_index(
        ifd.short_under(TAG_IMAGE_WIDTH)->Some_0 as int,
        ifd.short_under(TAG_IMAGE_LENGTH)->Some_0 as int,
        lon,
        lat,
    ) < ifd.data.len()
}

impl GeoTiff {
    /// Decodes a file from its bytes.
    pub fn from_bytes(buf: &[u8]) -> (r: Result<GeoTiff, TiffParserError>)
        ensures
            outcome(r) == file_of(buf@),
    {
        match TiffFile::from_bytes(buf) {
            Ok(tiff) => Ok(GeoTiff { tiff }),
            Err(x) => Err(x),
        }
    }

    /// The pixel in column `lon` of row `lat` of the first image, rows
    /// counted from the bottom.
    pub fn get_pixel(&self, lon: usize, lat: usize) -> (r: i32)
        requires
            self@.len() > 0,
            holds_pixel(self@[0], lon as int, lat as int),
        ensures
            r == self@[0].data[pixel_index(
                self@[0].short_under(TAG_IMAGE_WIDTH)->Some_0 as int,
                self@[0].short_under(TAG_IMAGE_LENGTH)->Some_0 as int,
                lon as int,
                lat as int,
            )],
    {
        let ifd = &self.tiff.ifds[0];
        proof {
            crate::ifd::lemma_ifd_view(*ifd);
        }
        let width = ifd.image_width().unwrap() as usize;
        let length = ifd.image_length().unwrap() as usize;
        let rows_above = length - 1 - lat;
        assert(rows_above * width <= 0xffff * 0xffff) by (nonlinear_arith)
            requires
                rows_above <= 0xffff,
                width <= 0xffff,
        ;
        assert(rows_above * width + lon < ifd.data.len());
        ifd.data[rows_above * width + lon]
    }
}

} // verus!
