use geotiff::endianness::Endianness;
use geotiff::TiffParserError;

const ORDERS: [Endianness; 2] = [Endianness::LittleEndian, Endianness::BigEndian];

fn spell(order: Endianness, le: &[u8]) -> Vec<u8> {
    let mut bytes = le.to_vec();
    if order == Endianness::BigEndian {
        bytes.reverse();
    }
    bytes
}

#[test]
fn read_u16_in_both_orders() {
    let bytes = [0x12u8, 0x34];
    assert_eq!(Endianness::LittleEndian.read_u16(&bytes).unwrap(), 0x3412);
    assert_eq!(Endianness::BigEndian.read_u16(&bytes).unwrap(), 0x1234);
}

#[test]
fn read_u32_in_both_orders() {
    let bytes = [0x12u8, 0x34, 0x56, 0x78];
    assert_eq!(Endianness::LittleEndian.read_u32(&bytes).unwrap(), 0x7856_3412);
    assert_eq!(Endianness::BigEndian.read_u32(&bytes).unwrap(), 0x1234_5678);
}

#[test]
fn read_u64_in_both_orders() {
    let bytes = [0x01u8, 0x02, 0x03, 0x04, 0x05, 0x06, 0x07, 0x08];
    assert_eq!(Endianness::LittleEndian.read_u64(&bytes).unwrap(), 0x0807_0605_0403_0201);
    assert_eq!(Endianness::BigEndian.read_u64(&bytes).unwrap(), 0x0102_0304_0506_0708);
}

#[test]
fn read_i16_is_twos_complement() {
    assert_eq!(Endianness::LittleEndian.read_i16(&[0xff, 0xff]).unwrap(), -1);
    assert_eq!(Endianness::LittleEndian.read_i16(&[0x00, 0x80]).unwrap(), i16::MIN);
    assert_eq!(Endianness::BigEndian.read_i16(&[0x7f, 0xff]).unwrap(), i16::MAX);
    assert_eq!(Endianness::BigEndian.read_i16(&[0xff, 0xfe]).unwrap(), -2);
}

#[test]
fn read_i32_is_twos_complement() {
    assert_eq!(Endianness::LittleEndian.read_i32(&[0xff, 0xff, 0xff, 0xff]).unwrap(), -1);
    assert_eq!(Endianness::LittleEndian.read_i32(&[0, 0, 0, 0x80]).unwrap(), i32::MIN);
    assert_eq!(Endianness::BigEndian.read_i32(&[0x7f, 0xff, 0xff, 0xff]).unwrap(), i32::MAX);
    assert_eq!(Endianness::BigEndian.read_i32(&[0xff, 0xff, 0xff, 0x85]).unwrap(), -123);
}

#[test]
fn reads_ignore_what_follows() {
    let bytes = [0x01u8, 0x00, 0xaa, 0xbb, 0xcc, 0xdd, 0xee, 0xff, 0x11];
    assert_eq!(Endianness::LittleEndian.read_u16(&bytes).unwrap(), 1);
    assert_eq!(Endianness::BigEndian.read_u16(&bytes).unwrap(), 0x0100);
    assert_eq!(Endianness::LittleEndian.read_u32(&bytes).unwrap(), 0xbbaa_0001);
}

#[test]
fn u16_round_trip() {
    for order in ORDERS {
        for x in [0u16, 1, 0x00ff, 0x0100, 0x1234, 0x7fff, 0x8000, 0xfffe, u16::MAX] {
            let bytes = spell(order, &x.to_le_bytes());
            assert_eq!(order.read_u16(&bytes).unwrap(), x);
        }
    }
}

#[test]
fn u16_round_trip_of_every_value() {
    for x in 0..=u16::MAX {
        assert_eq!(Endianness::LittleEndian.read_u16(&x.to_le_bytes()).unwrap(), x);
        assert_eq!(Endianness::BigEndian.read_u16(&x.to_be_bytes()).unwrap(), x);
    }
}

#[test]
fn i16_round_trip_of_every_value() {
    for x in i16::MIN..=i16::MAX {
        assert_eq!(Endianness::LittleEndian.read_i16(&x.to_le_bytes()).unwrap(), x);
        assert_eq!(Endianness::BigEndian.read_i16(&x.to_be_bytes()).unwrap(), x);
    }
}

#[test]
fn u32_round_trip() {
    for order in ORDERS {
        for x in [0u32, 1, 0xff, 0x100, 0x1_0000, 0x1234_5678, 0x7fff_ffff, 0x8000_0000, u32::MAX] {
            let bytes = spell(order, &x.to_le_bytes());
            assert_eq!(order.read_u32(&bytes).unwrap(), x);
        }
    }
}

#[test]
fn i32_round_trip() {
    for order in ORDERS {
        for x in [0i32, 1, -1, 255, -256, 0x1234_5678, -0x1234_5678, i32::MAX, i32::MIN] {
            let bytes = spell(order, &x.to_le_bytes());
            assert_eq!(order.read_i32(&bytes).unwrap(), x);
        }
    }
}

#[test]
fn u64_round_trip() {
    for order in ORDERS {
        for x in [0u64, 1, 0xffff_ffff, 0x1_0000_0000, 0x0123_4567_89ab_cdef, u64::MAX] {
            let bytes = spell(order, &x.to_le_bytes());
            assert_eq!(order.read_u64(&bytes).unwrap(), x);
        }
    }
}

#[test]
fn float_bits_round_trip() {
    for order in ORDERS {
        for x in [0.0f32, 1.5, -2.25, f32::MAX, f32::MIN_POSITIVE] {
            let bytes = spell(order, &x.to_le_bytes());
            assert_eq!(f32::from_bits(order.read_u32(&bytes).unwrap()), x);
        }
        for x in [0.0f64, 1.5, -2.25, f64::MAX, f64::MIN_POSITIVE] {
            let bytes = spell(order, &x.to_le_bytes());
            assert_eq!(f64::from_bits(order.read_u64(&bytes).unwrap()), x);
        }
    }
}

#[test]
fn read_u16_of_short_buffer_fails() {
    for order in ORDERS {
        assert!(matches!(order.read_u16(&[]), Err(TiffParserError::TryFromSlice)));
        assert!(matches!(order.read_u16(&[0x12]), Err(TiffParserError::TryFromSlice)));
        assert!(matches!(order.read_i16(&[0x12]), Err(TiffParserError::TryFromSlice)));
    }
}

#[test]
fn read_u32_of_short_buffer_fails() {
    for order in ORDERS {
        assert!(matches!(order.read_u32(&[1, 2, 3]), Err(TiffParserError::TryFromSlice)));
        assert!(matches!(order.read_i32(&[1, 2, 3]), Err(TiffParserError::TryFromSlice)));
    }
}

#[test]
fn read_u64_of_short_buffer_fails() {
    for order in ORDERS {
        assert!(matches!(
            order.read_u64(&[1, 2, 3, 4, 5, 6, 7]),
            Err(TiffParserError::TryFromSlice)
        ));
    }
}
