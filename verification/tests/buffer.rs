use geotiff::buffer::{
    index_after, read_i16_at, read_i32_at, read_u16_at, read_u32_at, window,
};
use geotiff::endianness::Endianness;
use geotiff::tiff_file::byte_order;
use geotiff::TiffParserError;

const LE: Endianness = Endianness::LittleEndian;
const BE: Endianness = Endianness::BigEndian;

#[test]
fn window_cuts_the_bytes_asked_for() {
    let buf = [10u8, 11, 12, 13, 14];
    assert_eq!(window(&buf, 0, 5).unwrap(), &buf[..]);
    assert_eq!(window(&buf, 1, 3).unwrap(), &[11, 12, 13]);
    assert_eq!(window(&buf, 4, 1).unwrap(), &[14]);
    assert!(window(&buf, 5, 0).unwrap().is_empty());
    assert!(window(&buf, 0, 0).unwrap().is_empty());
}

#[test]
fn window_refuses_what_is_not_there() {
    let buf = [10u8, 11, 12, 13, 14];
    assert!(matches!(window(&buf, 0, 6), Err(TiffParserError::TryFromSlice)));
    assert!(matches!(window(&buf, 5, 1), Err(TiffParserError::TryFromSlice)));
    assert!(matches!(window(&buf, 6, 0), Err(TiffParserError::TryFromSlice)));
    assert!(matches!(window(&buf, u64::MAX, 1), Err(TiffParserError::TryFromSlice)));
    assert!(matches!(window(&buf, 1, u64::MAX), Err(TiffParserError::TryFromSlice)));
    assert!(matches!(window(&buf, u64::MAX, u64::MAX), Err(TiffParserError::TryFromSlice)));
}

#[test]
fn reads_at_an_offset() {
    let buf = [0xaau8, 0x01, 0x02, 0x03, 0x04, 0xff, 0xfe];
    assert_eq!(read_u16_at(LE, &buf, 1).unwrap(), 0x0201);
    assert_eq!(read_u16_at(BE, &buf, 1).unwrap(), 0x0102);
    assert_eq!(read_u32_at(LE, &buf, 1).unwrap(), 0x0403_0201);
    assert_eq!(read_u32_at(BE, &buf, 1).unwrap(), 0x0102_0304);
    assert_eq!(read_i16_at(LE, &buf, 5).unwrap(), -257);
    assert_eq!(read_i16_at(BE, &buf, 5).unwrap(), -2);
    assert_eq!(read_i32_at(BE, &buf, 3).unwrap(), 0x0304_fffe);
    assert_eq!(read_i32_at(LE, &buf, 3).unwrap(), -16_841_725);
}

#[test]
fn reads_past_the_end_fail() {
    let buf = [1u8, 2, 3, 4];
    assert!(matches!(read_u16_at(LE, &buf, 3), Err(TiffParserError::TryFromSlice)));
    assert!(matches!(read_i16_at(LE, &buf, 4), Err(TiffParserError::TryFromSlice)));
    assert!(matches!(read_u32_at(BE, &buf, 1), Err(TiffParserError::TryFromSlice)));
    assert!(matches!(read_i32_at(BE, &buf, u64::MAX), Err(TiffParserError::TryFromSlice)));
    assert_eq!(read_u16_at(LE, &buf, 2).unwrap(), 0x0403);
    assert_eq!(read_u32_at(LE, &buf, 0).unwrap(), 0x0403_0201);
}

#[test]
fn the_index_after_another() {
    assert_eq!(index_after(0, 0), Some(0));
    assert_eq!(index_after(8, 12), Some(20));
    assert_eq!(index_after(usize::MAX - 1, 1), Some(usize::MAX));
    assert_eq!(index_after(usize::MAX, 0), Some(usize::MAX));
    assert_eq!(index_after(usize::MAX, 1), None);
    assert_eq!(index_after(1, usize::MAX), None);
    assert_eq!(index_after(usize::MAX, usize::MAX), None);
}

#[test]
fn the_marker_states_the_byte_order() {
    assert_eq!(byte_order(b"II").unwrap(), LE);
    assert_eq!(byte_order(b"MM").unwrap(), BE);
    assert_eq!(byte_order(b"II*\0rest").unwrap(), LE);
    assert_eq!(byte_order(b"MM\0*rest").unwrap(), BE);
    match byte_order(b"XXrest") {
        Err(TiffParserError::UnknownEndiannessMarker(marker)) => assert_eq!(marker, b"XX"),
        other => panic!("unexpected {:?}", other),
    }
    assert!(matches!(byte_order(b"IM"), Err(TiffParserError::UnknownEndiannessMarker(_))));
    assert!(matches!(byte_order(b"M"), Err(TiffParserError::TryFromSlice)));
    assert!(matches!(byte_order(b""), Err(TiffParserError::TryFromSlice)));
}
