use geotiff::endianness::Endianness;
use geotiff::field::Field;
use geotiff::value::{try_tuple, Value};
use geotiff::TiffParserError;

const LE: Endianness = Endianness::LittleEndian;
const BE: Endianness = Endianness::BigEndian;

#[test]
fn bytes_and_undefined_are_copied() {
    let buf = [1u8, 2, 0xff];
    assert_eq!(Value::from_bytes(LE, Field::Byte, &buf).unwrap(), Value::Bytes(vec![1, 2, 0xff]));
    assert_eq!(
        Value::from_bytes(BE, Field::Undefined, &buf).unwrap(),
        Value::Undefined(vec![1, 2, 0xff])
    );
    assert_eq!(Value::from_bytes(LE, Field::Byte, &[]).unwrap(), Value::Bytes(vec![]));
}

#[test]
fn signed_bytes() {
    let buf = [0u8, 1, 0x7f, 0x80, 0xff];
    assert_eq!(
        Value::from_bytes(LE, Field::Sbyte, &buf).unwrap(),
        Value::Sbytes(vec![0, 1, 127, -128, -1])
    );
}

#[test]
fn shorts_in_both_orders() {
    let buf = [0x01u8, 0x02, 0x03, 0x04];
    assert_eq!(
        Value::from_bytes(LE, Field::Short, &buf).unwrap(),
        Value::Shorts(vec![0x0201, 0x0403])
    );
    assert_eq!(
        Value::from_bytes(BE, Field::Short, &buf).unwrap(),
        Value::Shorts(vec![0x0102, 0x0304])
    );
    assert_eq!(Value::from_bytes(LE, Field::Short, &[]).unwrap(), Value::Shorts(vec![]));
}

#[test]
fn signed_shorts() {
    let buf = [0xffu8, 0xff, 0x00, 0x80];
    assert_eq!(
        Value::from_bytes(LE, Field::Sshort, &buf).unwrap(),
        Value::Sshorts(vec![-1, i16::MIN])
    );
    assert_eq!(Value::from_bytes(BE, Field::Sshort, &buf).unwrap(), Value::Sshorts(vec![-1, 128]));
}

#[test]
fn longs_and_signed_longs() {
    let buf = [0x01u8, 0, 0, 0, 0xfe, 0xff, 0xff, 0xff];
    assert_eq!(
        Value::from_bytes(LE, Field::Long, &buf).unwrap(),
        Value::Longs(vec![1, 0xffff_fffe])
    );
    assert_eq!(Value::from_bytes(LE, Field::Slong, &buf).unwrap(), Value::Slongs(vec![1, -2]));
    assert_eq!(
        Value::from_bytes(BE, Field::Long, &buf).unwrap(),
        Value::Longs(vec![0x0100_0000, 0xfeff_ffff])
    );
}

#[test]
fn rationals_are_pairs_and_are_not_divided() {
    let buf = [3u8, 0, 0, 0, 0, 0, 0, 0, 1, 0, 0, 0, 2, 0, 0, 0];
    assert_eq!(
        Value::from_bytes(LE, Field::Rational, &buf).unwrap(),
        Value::Rationals(vec![(3, 0), (1, 2)])
    );
    let buf = [0xffu8, 0xff, 0xff, 0xff, 0, 0, 0, 4];
    assert_eq!(
        Value::from_bytes(BE, Field::Srational, &buf).unwrap(),
        Value::Srationals(vec![(-1, 4)])
    );
}

#[test]
fn floats_and_doubles_keep_their_bits() {
    let mut buf = Vec::new();
    buf.extend_from_slice(&1.5f32.to_le_bytes());
    buf.extend_from_slice(&(-0.25f32).to_le_bytes());
    match Value::from_bytes(LE, Field::Float, &buf).unwrap() {
        Value::Floats(bits) => {
            assert_eq!(bits.len(), 2);
            assert_eq!(f32::from_bits(bits[0]), 1.5);
            assert_eq!(f32::from_bits(bits[1]), -0.25);
        }
        other => panic!("unexpected {:?}", other),
    }
    let buf = 1234.5f64.to_be_bytes();
    match Value::from_bytes(BE, Field::Double, &buf).unwrap() {
        Value::Doubles(bits) => {
            assert_eq!(bits.len(), 1);
            assert_eq!(f64::from_bits(bits[0]), 1234.5);
        }
        other => panic!("unexpected {:?}", other),
    }
}

#[test]
fn ascii_drops_the_terminator() {
    assert_eq!(
        Value::from_bytes(LE, Field::Ascii, b"hello\0").unwrap(),
        Value::Ascii("hello".to_string())
    );
    assert_eq!(Value::from_bytes(LE, Field::Ascii, b"\0").unwrap(), Value::Ascii(String::new()));
    assert_eq!(
        Value::from_bytes(BE, Field::Ascii, "gr\u{fc}n \u{20ac}\0".as_bytes()).unwrap(),
        Value::Ascii("gr\u{fc}n \u{20ac}".to_string())
    );
}

#[test]
fn ascii_keeps_inner_zero_bytes() {
    assert_eq!(
        Value::from_bytes(LE, Field::Ascii, b"a\0b\0").unwrap(),
        Value::Ascii("a\0b".to_string())
    );
}

#[test]
fn ascii_without_terminator_fails() {
    match Value::from_bytes(LE, Field::Ascii, b"hello") {
        Err(TiffParserError::StringNotNullTerminated(bytes)) => assert_eq!(bytes, b"hello"),
        other => panic!("unexpected {:?}", other),
    }
    match Value::from_bytes(LE, Field::Ascii, b"") {
        Err(TiffParserError::StringNotNullTerminated(bytes)) => assert!(bytes.is_empty()),
        other => panic!("unexpected {:?}", other),
    }
}

#[test]
fn ascii_that_is_not_utf8_fails() {
    assert!(matches!(
        Value::from_bytes(LE, Field::Ascii, &[0xff, 0xfe, 0x00]),
        Err(TiffParserError::Utf8(_))
    ));
    assert!(matches!(
        Value::from_bytes(LE, Field::Ascii, &[0xc0, 0x80, 0x00]),
        Err(TiffParserError::Utf8(_))
    ));
    assert!(matches!(
        Value::from_bytes(LE, Field::Ascii, &[0xed, 0xa0, 0x80, 0x00]),
        Err(TiffParserError::Utf8(_))
    ));
}

#[test]
fn the_terminator_is_checked_before_the_encoding() {
    assert!(matches!(
        Value::from_bytes(LE, Field::Ascii, &[0xff, 0xfe]),
        Err(TiffParserError::StringNotNullTerminated(_))
    ));
}

#[test]
fn a_last_element_cut_short_fails() {
    let cases = [
        (Field::Short, 3usize),
        (Field::Sshort, 1),
        (Field::Long, 6),
        (Field::Slong, 3),
        (Field::Rational, 12),
        (Field::Srational, 4),
        (Field::Float, 5),
        (Field::Double, 9),
    ];
    for (field, len) in cases {
        let buf = vec![0u8; len];
        assert!(matches!(
            Value::from_bytes(LE, field, &buf),
            Err(TiffParserError::TryFromSlice)
        ));
    }
}

#[test]
fn the_variant_matches_the_field_type() {
    let buf = [0u8; 8];
    assert!(matches!(Value::from_bytes(LE, Field::Byte, &buf), Ok(Value::Bytes(_))));
    assert!(matches!(Value::from_bytes(LE, Field::Ascii, &buf), Ok(Value::Ascii(_))));
    assert!(matches!(Value::from_bytes(LE, Field::Short, &buf), Ok(Value::Shorts(_))));
    assert!(matches!(Value::from_bytes(LE, Field::Long, &buf), Ok(Value::Longs(_))));
    assert!(matches!(Value::from_bytes(LE, Field::Rational, &buf), Ok(Value::Rationals(_))));
    assert!(matches!(Value::from_bytes(LE, Field::Sbyte, &buf), Ok(Value::Sbytes(_))));
    assert!(matches!(Value::from_bytes(LE, Field::Undefined, &buf), Ok(Value::Undefined(_))));
    assert!(matches!(Value::from_bytes(LE, Field::Sshort, &buf), Ok(Value::Sshorts(_))));
    assert!(matches!(Value::from_bytes(LE, Field::Slong, &buf), Ok(Value::Slongs(_))));
    assert!(matches!(Value::from_bytes(LE, Field::Srational, &buf), Ok(Value::Srationals(_))));
    assert!(matches!(Value::from_bytes(LE, Field::Float, &buf), Ok(Value::Floats(_))));
    assert!(matches!(Value::from_bytes(LE, Field::Double, &buf), Ok(Value::Doubles(_))));
}

#[test]
fn short_gives_the_first_element() {
    assert_eq!(Value::Shorts(vec![7, 8, 9]).short().unwrap(), 7);
    assert_eq!(Value::Shorts(vec![7, 8, 9]).shorts().unwrap(), &[7, 8, 9]);
}

#[test]
fn long_gives_the_first_element() {
    assert_eq!(Value::Longs(vec![70_000, 8]).long().unwrap(), 70_000);
    assert_eq!(Value::Longs(vec![70_000, 8]).longs().unwrap(), &[70_000, 8]);
}

#[test]
fn accessors_refuse_other_kinds() {
    let value = Value::Longs(vec![1]);
    match value.short() {
        Err(TiffParserError::InvalidValue(v, what)) => {
            assert_eq!(v, Value::Longs(vec![1]));
            assert_eq!(what, "expected short");
        }
        other => panic!("unexpected {:?}", other),
    }
    match value.shorts() {
        Err(TiffParserError::InvalidValue(v, what)) => {
            assert_eq!(v, Value::Longs(vec![1]));
            assert_eq!(what, "expected shorts");
        }
        other => panic!("unexpected {:?}", other),
    }
    let value = Value::Ascii("x".to_string());
    match value.long() {
        Err(TiffParserError::InvalidValue(v, what)) => {
            assert_eq!(v, Value::Ascii("x".to_string()));
            assert_eq!(what, "expected long");
        }
        other => panic!("unexpected {:?}", other),
    }
    match value.longs() {
        Err(TiffParserError::InvalidValue(v, what)) => {
            assert_eq!(v, Value::Ascii("x".to_string()));
            assert_eq!(what, "expected longs");
        }
        other => panic!("unexpected {:?}", other),
    }
}

#[test]
fn scalar_accessors_refuse_a_value_without_elements() {
    assert!(matches!(Value::Shorts(vec![]).short(), Err(TiffParserError::TryFromSlice)));
    assert!(matches!(Value::Longs(vec![]).long(), Err(TiffParserError::TryFromSlice)));
    assert!(Value::Shorts(vec![]).shorts().unwrap().is_empty());
    assert!(Value::Longs(vec![]).longs().unwrap().is_empty());
}

#[test]
fn clone_keeps_every_kind() {
    let values = vec![
        Value::Bytes(vec![1, 2]),
        Value::Sbytes(vec![-1, 2]),
        Value::Shorts(vec![1, 2]),
        Value::Sshorts(vec![-1, 2]),
        Value::Longs(vec![1, 2]),
        Value::Slongs(vec![-1, 2]),
        Value::Rationals(vec![(1, 2), (3, 4)]),
        Value::Srationals(vec![(-1, 2), (3, -4)]),
        Value::Floats(vec![0x3fc0_0000]),
        Value::Doubles(vec![0x3ff8_0000_0000_0000]),
        Value::Ascii("text".to_string()),
        Value::Undefined(vec![9]),
    ];
    for value in &values {
        assert_eq!(&value.clone(), value);
    }
}

#[test]
fn try_tuple_gives_both_or_the_first_failure() {
    assert_eq!(try_tuple::<u8, u16, &str>(Ok(1), Ok(2)), Ok((1, 2)));
    assert_eq!(try_tuple::<u8, u16, &str>(Err("a"), Ok(2)), Err("a"));
    assert_eq!(try_tuple::<u8, u16, &str>(Ok(1), Err("b")), Err("b"));
    assert_eq!(try_tuple::<u8, u16, &str>(Err("a"), Err("b")), Err("a"));
}
