//! A decoder for TIFF containers and their GeoTIFF extensions.
//!
//! A byte buffer is turned into a tree of directories, each with its tagged
//! entries, its sub-directories and, for tiled images, the reconstructed
//! raster. Every function carries a contract over the mathematical views
//! of the types involved.

pub mod buffer;
pub mod compression;
pub mod endianness;
pub mod error;
pub mod field;
pub mod gather;
pub mod geotiff;
pub mod ifd;
pub mod limits;
pub mod raster;
pub mod tags;
pub mod tiff_file;
pub mod value;

pub use error::TiffParserError;
pub use geotiff::GeoTiff;
pub use tiff_file::TiffFile;
