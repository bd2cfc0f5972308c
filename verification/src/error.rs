//! The ways in which decoding fails.

use vstd::prelude::*;
use std::string::FromUtf8Error;
use weezl::LzwError;
use crate::value::{Value, ValueView};

verus! {

/// `std::string::FromUtf8Error`, carried in an error as it came.
#[verifier::external_type_specification]
#[verifier::external_body]
pub struct ExFromUtf8Error(FromUtf8Error);

/// `std::io::Error`, carried in an error as it came.
#[verifier::external_type_specification]
#[verifier::external_body]
pub struct ExIoError(std::io::Error);

/// `weezl::LzwError`, carried in an error as it came.
#[verifier::external_type_specification]
#[verifier::external_body]
pub struct ExLzwError(LzwError);

/// Why a buffer could not be decoded. Every failure ends the operation in
/// progress; nothing is retried and no partial result is returned.
#[derive(Debug)]
pub enum TiffParserError {
    /// Fewer bytes, or fewer elements, were there than a read needed.
    TryFromSlice,
    /// The bytes of a text field are not UTF-8.
    Utf8(FromUtf8Error),
    /// Reading the input failed before any decoding began.
    Io(std::io::Error),
    /// A text field does not end in a zero byte; the field's bytes.
    StringNotNullTerminated(Vec<u8>),
    /// A type code outside 1 to 12.
    UnknownFieldType(u16),
    /// The first two bytes are neither `II` nor `MM`; those bytes.
    UnknownEndiannessMarker(Vec<u8>),
    /// A directory carries the strip tags and the tile tags at once.
    ImageBothTiledAndStripped,
    /// A value of another kind than the one asked for, and what was asked.
    InvalidValue(Value, &'static str),
    /// No entry carries the tag asked for.
    MissingValue(u16),
    /// A compression code other than 1 and 5.
    UnknownCompression(u16),
    /// The LZW decoder refused its input.
    Lzw(LzwError),
    /// The image is stored in strips, which are not reconstructed.
    StripsUnsupported,
    /// A pixel takes a number of bytes other than 2 or 4; that number.
    UnsupportedPixelWidth(u64),
    /// Directories are chained or nested further than the buffer has bytes,
    /// as they are where they lead back into themselves.
    DirectoryLoop,
}

/// A [`TiffParserError`] without what the outside error values hold.
pub enum ErrorView {
    TryFromSlice,
    Utf8,
    Io,
    StringNotNullTerminated(Seq<u8>),
    UnknownFieldType(u16),
    UnknownEndiannessMarker(Seq<u8>),
    ImageBothTiledAndStripped,
    InvalidValue(ValueView, Seq<char>),
    MissingValue(u16),
    UnknownCompression(u16),
    Lzw,
    StripsUnsupported,
    UnsupportedPixelWidth(u64),
    DirectoryLoop,
}

impl View for TiffParserError {
    type V = ErrorView;

    open spec fn view(&self) -> ErrorView {
        match self {
            TiffParserError::TryFromSlice => ErrorView::TryFromSlice,
            TiffParserError::Utf8(_) => ErrorView::Utf8,
            TiffParserError::Io(_) => ErrorView::Io,
            TiffParserError::StringNotNullTerminated(b) => ErrorView::StringNotNullTerminated(b@),
            TiffParserError::UnknownFieldType(c) => ErrorView::UnknownFieldType(*c),
            TiffParserError::UnknownEndiannessMarker(b) => ErrorView::UnknownEndiannessMarker(b@),
            TiffParserError::ImageBothTiledAndStripped => ErrorView::ImageBothTiledAndStripped,
            TiffParserError::InvalidValue(v, what) => ErrorView::InvalidValue(v@, what@),
            TiffParserError::MissingValue(t) => ErrorView::MissingValue(*t),
            TiffParserError::UnknownCompression(c) => ErrorView::UnknownCompression(*c),
            TiffParserError::Lzw(_) => ErrorView::Lzw,
            TiffParserError::StripsUnsupported => ErrorView::StripsUnsupported,
            TiffParserError::UnsupportedPixelWidth(n) => ErrorView::UnsupportedPixelWidth(*n),
            TiffParserError::DirectoryLoop => ErrorView::DirectoryLoop,
        }
    }
}

/// The view of a result: the view of what it holds, on either side.
pub open spec fn outcome<T: View>(r: Result<T, TiffParserError>) -> Result<T::V, ErrorView> {
    match r {
        Ok(t) => Ok(t@),
        Err(e) => Err(e@),
    }
}

} // verus!
