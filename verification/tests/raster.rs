use geotiff::endianness::Endianness;
use geotiff::ifd::{Ifd, IfdEntry};
use geotiff::raster::{assemble, bytes_per_pixel, reconstruct, tiling, unpack_tiles, Tiling};
use geotiff::value::Value;
use geotiff::TiffParserError;

const LE: Endianness = Endianness::LittleEndian;
const BE: Endianness = Endianness::BigEndian;

fn grid<'a>(
    image: (u16, u16),
    tile: (u16, u16),
    bits: u16,
    offsets: &'a [u32],
    counts: &'a [u32],
) -> Tiling<'a> {
    Tiling {
        tile_width: tile.0,
        tile_length: tile.1,
        tile_offsets: offsets,
        tile_byte_counts: counts,
        image_width: image.0,
        image_length: image.1,
        bits_per_sample: bits,
        samples_per_pixel: 1,
        compression: 1,
    }
}

fn shorts(tag: u16, vals: &[u16]) -> IfdEntry {
    IfdEntry { tag, value: Value::Shorts(vals.to_vec()) }
}

fn longs(tag: u16, vals: &[u32]) -> IfdEntry {
    IfdEntry { tag, value: Value::Longs(vals.to_vec()) }
}

fn directory(entries: Vec<IfdEntry>) -> Ifd {
    Ifd { entries, sub_ifds: Vec::new(), data: Vec::new() }
}

fn one_tile_directory() -> Ifd {
    directory(vec![
        shorts(256, &[2]),
        shorts(257, &[2]),
        shorts(258, &[16]),
        shorts(259, &[1]),
        shorts(277, &[1]),
        shorts(322, &[2]),
        shorts(323, &[2]),
        longs(324, &[4]),
        longs(325, &[8]),
    ])
}

#[test]
fn tiling_gathers_what_the_directory_states() {
    let ifd = directory(vec![
        shorts(256, &[640, 1]),
        shorts(257, &[480]),
        shorts(258, &[16, 16, 16]),
        shorts(259, &[5]),
        shorts(277, &[3]),
        shorts(322, &[128]),
        shorts(323, &[64]),
        longs(324, &[8, 100, 200]),
        longs(325, &[92, 100]),
    ]);
    let t = tiling(&ifd).unwrap();
    assert_eq!(t.image_width, 640);
    assert_eq!(t.image_length, 480);
    assert_eq!(t.bits_per_sample, 16);
    assert_eq!(t.samples_per_pixel, 3);
    assert_eq!(t.compression, 5);
    assert_eq!(t.tile_width, 128);
    assert_eq!(t.tile_length, 64);
    assert_eq!(t.tile_offsets, &[8, 100, 200]);
    assert_eq!(t.tile_byte_counts, &[92, 100]);
    assert_eq!(bytes_per_pixel(&t), 6);
}

#[test]
fn tiling_asks_in_a_fixed_order() {
    let order = [322u16, 323, 324, 325, 256, 257, 258, 277, 259];
    for (i, tag) in order.iter().enumerate() {
        let mut ifd = one_tile_directory();
        ifd.entries.retain(|entry| !order[i..].contains(&entry.tag));
        match tiling(&ifd) {
            Err(TiffParserError::MissingValue(t)) => assert_eq!(t, *tag),
            Err(other) => panic!("unexpected {:?}", other),
            Ok(_) => panic!("tag {} was not asked for", tag),
        }
    }
}

#[test]
fn tiling_refuses_values_without_elements() {
    let mut ifd = one_tile_directory();
    ifd.entries[0] = shorts(256, &[]);
    assert!(matches!(tiling(&ifd), Err(TiffParserError::TryFromSlice)));
    let mut ifd = one_tile_directory();
    ifd.entries[7] = longs(324, &[]);
    assert!(tiling(&ifd).unwrap().tile_offsets.is_empty());
}

#[test]
fn bytes_per_pixel_rounds_down() {
    let mut t = grid((1, 1), (1, 1), 16, &[], &[]);
    assert_eq!(bytes_per_pixel(&t), 2);
    t.samples_per_pixel = 2;
    assert_eq!(bytes_per_pixel(&t), 4);
    t.bits_per_sample = 12;
    assert_eq!(bytes_per_pixel(&t), 3);
    t.bits_per_sample = 7;
    t.samples_per_pixel = 1;
    assert_eq!(bytes_per_pixel(&t), 0);
    t.bits_per_sample = u16::MAX;
    t.samples_per_pixel = u16::MAX;
    assert_eq!(bytes_per_pixel(&t), 536_854_528);
}

#[test]
fn unpack_cuts_and_unpacks_each_tile() {
    let buf = [0u8, 1, 2, 3, 4, 5, 6, 7, 8, 9];
    // tiles of 1 x 2 pixels of two bytes: four bytes each
    let t = grid((1, 4), (1, 2), 16, &[6, 0], &[4, 5]);
    let tiles = unpack_tiles(&buf, &t).unwrap();
    assert_eq!(tiles, vec![vec![6, 7, 8, 9], vec![0, 1, 2, 3]]);
}

#[test]
fn unpack_takes_as_many_tiles_as_have_offset_and_count() {
    let buf = [7u8; 16];
    let t = grid((1, 1), (1, 1), 16, &[0, 2, 4], &[2, 2]);
    assert_eq!(unpack_tiles(&buf, &t).unwrap().len(), 2);
    let t = grid((1, 1), (1, 1), 16, &[0], &[2, 2, 2]);
    assert_eq!(unpack_tiles(&buf, &t).unwrap().len(), 1);
    let t = grid((1, 1), (1, 1), 16, &[], &[2, 2, 2]);
    assert!(unpack_tiles(&buf, &t).unwrap().is_empty());
}

#[test]
fn unpack_fails_with_the_first_bad_tile() {
    let buf = [7u8; 16];
    let mut t = grid((1, 1), (1, 1), 16, &[0, 15, 0], &[2, 2, 1]);
    assert!(matches!(unpack_tiles(&buf, &t), Err(TiffParserError::TryFromSlice)));
    t.compression = 7;
    assert!(matches!(unpack_tiles(&buf, &t), Err(TiffParserError::UnknownCompression(7))));
    let t = grid((1, 1), (1, 1), 16, &[0, 0], &[2, 1]);
    assert!(matches!(unpack_tiles(&buf, &t), Err(TiffParserError::TryFromSlice)));
    let mut t = grid((1, 1), (1, 1), 16, &[100], &[2]);
    t.compression = 7;
    assert!(matches!(unpack_tiles(&buf, &t), Err(TiffParserError::TryFromSlice)));
}

#[test]
fn unpack_without_tiles_asks_for_no_decompressor() {
    let mut t = grid((0, 0), (1, 1), 16, &[], &[]);
    t.compression = 99;
    assert!(unpack_tiles(&[], &t).unwrap().is_empty());
}

#[test]
fn assemble_maps_tiles_to_rows() {
    // image 3 x 3 from tiles of 2 x 2, two across and two down
    let tile = |base: u8| -> Vec<u8> {
        (0..4u8).flat_map(|k| [base + k, 0]).collect()
    };
    let tiles = vec![tile(10), tile(20), tile(30), tile(40)];
    let t = grid((3, 3), (2, 2), 16, &[], &[]);
    assert_eq!(
        assemble(LE, &tiles, &t).unwrap(),
        vec![
            10, 11, 20, //
            12, 13, 22, //
            30, 31, 40,
        ]
    );
    assert_eq!(
        assemble(BE, &tiles, &t).unwrap(),
        vec![
            0x0a00, 0x0b00, 0x1400, //
            0x0c00, 0x0d00, 0x1600, //
            0x1e00, 0x1f00, 0x2800,
        ]
    );
}

#[test]
fn assemble_reads_pixels_of_four_bytes() {
    let tiles = vec![vec![1, 0, 0, 0, 0xff, 0xff, 0xff, 0xff]];
    let t = grid((2, 1), (2, 1), 32, &[], &[]);
    assert_eq!(assemble(LE, &tiles, &t).unwrap(), vec![1, -1]);
    assert_eq!(assemble(BE, &tiles, &t).unwrap(), vec![0x0100_0000, -1]);
}

#[test]
fn assemble_widens_pixels_of_two_bytes() {
    let tiles = vec![vec![0x00, 0x80, 0xff, 0x7f]];
    let t = grid((2, 1), (2, 1), 16, &[], &[]);
    assert_eq!(assemble(LE, &tiles, &t).unwrap(), vec![-32768, 32767]);
}

#[test]
fn assemble_ignores_tiles_that_the_image_does_not_reach() {
    let tiles = vec![vec![5, 0], vec![6, 0], vec![7, 0]];
    let t = grid((1, 1), (1, 1), 16, &[], &[]);
    assert_eq!(assemble(LE, &tiles, &t).unwrap(), vec![5]);
}

#[test]
fn assemble_fails_where_a_pixel_is_not_there() {
    let t = grid((2, 1), (1, 1), 16, &[], &[]);
    assert!(matches!(
        assemble(LE, &vec![vec![5, 0]], &t),
        Err(TiffParserError::TryFromSlice)
    ));
    assert!(matches!(
        assemble(LE, &vec![vec![5, 0], vec![6]], &t),
        Err(TiffParserError::TryFromSlice)
    ));
    assert!(matches!(assemble(LE, &vec![], &t), Err(TiffParserError::TryFromSlice)));
    assert_eq!(assemble(LE, &vec![vec![5, 0], vec![6, 0]], &t).unwrap(), vec![5, 6]);
}

#[test]
fn assemble_of_an_image_without_pixels() {
    let t = grid((0, 5), (4, 4), 16, &[], &[]);
    assert!(assemble(LE, &vec![], &t).unwrap().is_empty());
    let t = grid((5, 0), (4, 0), 16, &[], &[]);
    assert!(assemble(LE, &vec![], &t).unwrap().is_empty());
}

#[test]
fn the_largest_image_width_is_covered() {
    // one row of 65535 pixels from tiles of 65535 x 1
    let tile: Vec<u8> = (0..65535u32).flat_map(|k| (k as u16).to_le_bytes()).collect();
    let t = grid((65535, 1), (65535, 1), 16, &[], &[]);
    let raster = assemble(LE, &vec![tile], &t).unwrap();
    assert_eq!(raster.len(), 65535);
    assert_eq!(raster[0], 0);
    assert_eq!(raster[32767], 32767);
    assert_eq!(raster[32768], -32768);
    assert_eq!(raster[65534], -2);
}

#[test]
fn reconstruct_from_a_directory() {
    let buf = [0u8, 0, 0, 0, 1, 0, 2, 0, 3, 0, 4, 0];
    let ifd = one_tile_directory();
    assert_eq!(reconstruct(LE, &buf, &ifd).unwrap(), vec![1, 2, 3, 4]);
    assert_eq!(reconstruct(BE, &buf, &ifd).unwrap(), vec![0x100, 0x200, 0x300, 0x400]);
}

#[test]
fn reconstruct_checks_in_order() {
    let buf = [0u8; 12];
    // a pixel width that is not supported is found before a bad tile
    let mut ifd = one_tile_directory();
    ifd.entries[2] = shorts(258, &[8]);
    ifd.entries[7] = longs(324, &[1000]);
    assert!(matches!(
        reconstruct(LE, &buf, &ifd),
        Err(TiffParserError::UnsupportedPixelWidth(1))
    ));
    // a bad tile is found before a tile width of zero
    let mut ifd = one_tile_directory();
    ifd.entries[5] = shorts(322, &[0]);
    ifd.entries[7] = longs(324, &[1000]);
    assert!(matches!(reconstruct(LE, &buf, &ifd), Err(TiffParserError::TryFromSlice)));
    // a tile length of zero matters only where the image has rows
    let mut ifd = one_tile_directory();
    ifd.entries[6] = shorts(323, &[0]);
    ifd.entries[8] = longs(325, &[0]);
    assert!(matches!(reconstruct(LE, &buf, &ifd), Err(TiffParserError::InvalidValue(_, _))));
    ifd.entries[1] = shorts(257, &[0]);
    assert!(reconstruct(LE, &buf, &ifd).unwrap().is_empty());
}
