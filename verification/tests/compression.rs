use geotiff::compression::{
    create_decompressor, lzw_next, Decompressor, DummyDecompressor, LzwAction, LzwDecompressor,
    LzwOutcome, TileDecompressor,
};
use geotiff::TiffParserError;
use weezl::encode::Encoder;
use weezl::{BitOrder, LzwError};

fn lzw(data: &[u8]) -> Vec<u8> {
    Encoder::with_tiff_size_switch(BitOrder::Msb, 8).encode(data).unwrap()
}

fn unpack(code: u16, bytes: &[u8], size: usize) -> Result<Vec<u8>, TiffParserError> {
    create_decompressor(code).unwrap().decompress(bytes, size)
}

#[test]
fn identity_returns_the_first_bytes() {
    assert_eq!(unpack(1, &[0x01, 0x02, 0x03], 3).unwrap(), vec![0x01, 0x02, 0x03]);
    assert_eq!(unpack(1, &[0x01, 0x02, 0x03], 2).unwrap(), vec![0x01, 0x02]);
    assert_eq!(unpack(1, &[0x01, 0x02, 0x03], 0).unwrap(), Vec::<u8>::new());
    assert_eq!(unpack(1, &[], 0).unwrap(), Vec::<u8>::new());
}

#[test]
fn identity_refuses_more_than_there_is() {
    assert!(matches!(unpack(1, &[0x01, 0x02, 0x03], 4), Err(TiffParserError::TryFromSlice)));
    assert!(matches!(unpack(1, &[], 1), Err(TiffParserError::TryFromSlice)));
}

#[test]
fn dummy_decompressor_by_itself() {
    let mut d = DummyDecompressor;
    assert_eq!(d.decompress(&[9, 8, 7, 6], 3).unwrap(), vec![9, 8, 7]);
    assert_eq!(d.decompress(&[9, 8, 7, 6], 1).unwrap(), vec![9]);
}

#[test]
fn codes_select_their_decompressor() {
    assert!(matches!(create_decompressor(1), Ok(TileDecompressor::Stored(_))));
    assert!(matches!(create_decompressor(5), Ok(TileDecompressor::Lzw(_))));
}

#[test]
fn unknown_compression_is_refused_with_the_code() {
    for code in [0u16, 2, 3, 4, 6, 7, 8, 99, 32773, u16::MAX] {
        match create_decompressor(code) {
            Err(TiffParserError::UnknownCompression(c)) => assert_eq!(c, code),
            Err(other) => panic!("unexpected {:?}", other),
            Ok(_) => panic!("code {} was accepted", code),
        }
    }
}

#[test]
fn lzw_unpacks_what_was_packed() {
    let data: Vec<u8> = (0..200u32).map(|i| (i % 7) as u8).collect();
    let packed = lzw(&data);
    assert_ne!(packed, data);
    assert_eq!(unpack(5, &packed, data.len()).unwrap(), data);
}

#[test]
fn lzw_unpacks_long_data() {
    let data: Vec<u8> = (0..100_000u32).map(|i| ((i * i) >> 3) as u8).collect();
    let packed = lzw(&data);
    assert_eq!(unpack(5, &packed, data.len()).unwrap(), data);
}

#[test]
fn lzw_unpacks_a_run_of_one_byte() {
    let data = vec![0xabu8; 5000];
    let packed = lzw(&data);
    assert!(packed.len() < data.len());
    assert_eq!(unpack(5, &packed, data.len()).unwrap(), data);
}

#[test]
fn lzw_stops_at_the_target_size() {
    let data: Vec<u8> = (0..100u8).collect();
    let packed = lzw(&data);
    assert_eq!(unpack(5, &packed, 10).unwrap(), &data[..10]);
    assert_eq!(unpack(5, &packed, 0).unwrap(), Vec::<u8>::new());
}

#[test]
fn lzw_leaves_zeros_where_the_data_ends_early() {
    let data = vec![5u8, 6, 7];
    let packed = lzw(&data);
    assert_eq!(unpack(5, &packed, 6).unwrap(), vec![5, 6, 7, 0, 0, 0]);
}

#[test]
fn lzw_of_no_input_gives_zeros() {
    assert_eq!(unpack(5, &[], 4).unwrap(), vec![0, 0, 0, 0]);
}

#[test]
fn lzw_refuses_an_invalid_code() {
    let r = unpack(5, &[0xff, 0xff, 0xff, 0xff], 16);
    assert!(matches!(r, Err(TiffParserError::Lzw(LzwError::InvalidCode))), "got {:?}", r);
}

#[test]
fn a_fresh_decompressor_per_tile_gives_the_same_result() {
    let data: Vec<u8> = (0..64u8).collect();
    let packed = lzw(&data);
    assert_eq!(unpack(5, &packed, 64).unwrap(), unpack(5, &packed, 64).unwrap());
}

#[test]
fn what_follows_a_step() {
    assert!(matches!(lzw_next(LzwOutcome::Advanced, 3, 4), LzwAction::Proceed));
    assert!(matches!(lzw_next(LzwOutcome::Advanced, 4, 4), LzwAction::Finish));
    assert!(matches!(lzw_next(LzwOutcome::Advanced, 5, 4), LzwAction::Finish));
    assert!(matches!(lzw_next(LzwOutcome::NoProgress, 0, 4), LzwAction::Finish));
    assert!(matches!(lzw_next(LzwOutcome::Done, 1, 4), LzwAction::Finish));
    assert!(matches!(
        lzw_next(LzwOutcome::Error(LzwError::InvalidCode), 3, 4),
        LzwAction::Fail(LzwError::InvalidCode)
    ));
    assert!(matches!(
        lzw_next(LzwOutcome::Error(LzwError::InvalidCode), 4, 4),
        LzwAction::Finish
    ));
    assert!(matches!(
        lzw_next(LzwOutcome::Error(LzwError::InvalidCode), 0, 0),
        LzwAction::Finish
    ));
}

#[test]
fn lzw_gives_the_size_asked_for_or_fails_on_arbitrary_input() {
    let mut state = 0x2545_f491_4f6c_dd1du64;
    let mut next = move || {
        state ^= state << 13;
        state ^= state >> 7;
        state ^= state << 17;
        state
    };
    for _ in 0..3000 {
        let len = (next() % 48) as usize;
        let size = (next() % 400) as usize;
        let mut bytes: Vec<u8> = (0..len).map(|_| next() as u8).collect();
        if len > 0 && next() % 2 == 0 {
            // most streams that decode at all start with the clear code
            bytes[0] = 0x80;
        }
        match unpack(5, &bytes, size) {
            Ok(out) => assert_eq!(out.len(), size),
            Err(TiffParserError::Lzw(LzwError::InvalidCode)) => {}
            Err(other) => panic!("unexpected {:?}", other),
        }
    }
}

#[test]
fn lzw_takes_clear_codes_in_a_row() {
    // 256 256 256 7 257 in codes of nine bits
    let bytes = [0x80u8, 0x40, 0x20, 0x00, 0x78, 0x08];
    assert_eq!(unpack(5, &bytes, 1).unwrap(), vec![7]);
    assert_eq!(unpack(5, &bytes, 3).unwrap(), vec![7, 0, 0]);
}

#[test]
fn a_used_decompressor_is_not_a_fresh_one() {
    let data: Vec<u8> = (1..=32u8).collect();
    let packed = lzw(&data);
    let mut d = LzwDecompressor::new();
    assert_eq!(d.decompress(&packed, 32).unwrap(), data);
    // the decoder goes on from where the first run left it
    assert_eq!(d.decompress(&packed, 32).unwrap(), vec![0u8; 32]);
    assert_eq!(LzwDecompressor::new().decompress(&packed, 32).unwrap(), data);
}
