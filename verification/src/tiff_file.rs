//! A whole file: its byte order and the chain of its directories.

use vstd::prelude::*;
use vstd::slice::{slice_subrange, slice_to_vec};
use crate::buffer::{read_u32_at, u32_from};
use crate::endianness::Endianness;
use crate::error::{outcome, ErrorView, TiffParserError};
use crate::ifd::{chain_at, chain_room, ifd_views, Ifd, IfdView};

verus! {

/// The directories of a file, in the order in which the file chains them.
#[derive(Debug)]
pub struct TiffFile {
    pub ifds: Vec<Ifd>,
}

impl View for TiffFile {
    type V = Seq<IfdView>;

    open spec fn view(&self) -> Seq<IfdView> {
        ifd_views(self.ifds@)
    }
}

/// The byte order that a file's first two bytes state: `II` for least
/// significant byte first, `MM` for most significant byte first.
pub open spec fn byte_order_of(buf: Seq<u8>) -> Result<Endianness, ErrorView> {
    if buf.len() < 2 {
        Err(ErrorView::TryFromSlice)
    } else if buf[0] == 0x49 && buf[1] == 0x49 {
        Ok(Endianness::LittleEndian)
    } else if buf[0] == 0x4d && buf[1] == 0x4d {
        Ok(Endianness::BigEndian)
    } else {
        Err(ErrorView::UnknownEndiannessMarker(buf.subrange(0, 2)))
    }
}

/// The directories of the file that `buf` holds: the chain that starts at
/// the offset stored at index 4, read in the file's byte order.
/// Sub-directories may be nested as deep as the buffer has bytes.
pub open spec fn file_of(buf: Seq<u8>) -> Result<Seq<IfdView>, ErrorView> {
    match byte_order_of(buf) {
        Err(x) => Err(x),
        Ok(e) => match u32_from(e, buf, 4) {
            Err(x) => Err(x),
            Ok(first) => chain_at(e, buf, first as int, buf.len(), chain_room(buf)),
        },
    }
}

/// Reads the byte order from the first two bytes of `buf`.
pub fn byte_order(buf: &[u8]) -> (r: Result<Endianness, TiffParserError>)
    ensures
        outcome(r) == byte_order_of(buf@),
{
    if buf.len() < 2 {
        return Err(TiffParserError::TryFromSlice);
    }
    if buf[0] == 0x49 && buf[1] == 0x49 {
        Ok(Endianness::LittleEndian)
    } else if buf[0] == 0x4d && buf[1] == 0x4d {
        Ok(Endianness::BigEndian)
    } else {
        Err(TiffParserError::UnknownEndiannessMarker(slice_to_vec(slice_subrange(buf, 0, 2))))
    }
}

impl TiffFile {
    /// Decodes a whole file from its bytes: either all of its directories,
    /// or the first error met on the way.
    pub fn from_bytes(buf: &[u8]) -> (r: Result<TiffFile, TiffParserError>)
        ensures
            outcome(r) == file_of(buf@),
    {
        let endianness = byte_order(buf)?;
        let first = read_u32_at(endianness, buf, 4)? as usize;
        match Ifd::read_chain(endianness, buf, first, buf.len()) {
            Ok(ifds) => Ok(TiffFile { ifds }),
            Err(x) => Err(x),
        }
    }
}

} // verus!
