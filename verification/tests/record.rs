use nom::number::complete::{be_i16, be_i24, be_i32, be_i64, be_i8};
use sqlite_reader::encode::{encode_record, serial_type};
use sqlite_reader::error::Error;
use sqlite_reader::record::{parse_record, serial_width};
use sqlite_reader::value::Data;

#[test]
fn record_of_every_serial_type() {
    let input: Vec<u8> = vec![
        13, // header size
        0, 1, 2, 3, 4, 5, 6, 7, 8, 9, 16, 17, // serial types
        0x80, // -128
        0x01, 0x00, // 256
        0xff, 0xff, 0xfe, // -2
        0x7f, 0xff, 0xff, 0xff, // i32::MAX
        0x00, 0x01, 0x00, 0x00, 0x00, 0x02, // (1 << 32) + 2
        0xff, 0xff, 0xff, 0xff, 0xff, 0xff, 0xff, 0xfd, // -3
        0x3f, 0xf8, 0x00, 0x00, 0x00, 0x00, 0x00, 0x00, // 1.5
        0xde, 0xad, // blob
        b'h', b'i', // text
        0x77, // what follows the record
    ];
    let (rest, values) = parse_record(&input).unwrap();
    assert_eq!(rest, &[0x77]);
    assert_eq!(
        values,
        vec![
            Data::Null,
            Data::Integer(-128),
            Data::Integer(256),
            Data::Integer(-2),
            Data::Integer(i32::MAX as i64),
            Data::Integer((1 << 32) + 2),
            Data::Integer(-3),
            Data::Float(1.5f64.to_bits()),
            Data::Integer(0),
            Data::Integer(1),
            Data::Blob(vec![0xde, 0xad]),
            Data::Text("hi".to_string()),
        ]
    );
}

#[test]
fn record_48_bit_integer_is_signed() {
    let input = [2, 5, 0xff, 0xff, 0xff, 0xff, 0xff, 0xff];
    assert_eq!(parse_record(&input), Ok((&[][..], vec![Data::Integer(-1)])));
    let input = [2, 5, 0x80, 0x00, 0x00, 0x00, 0x00, 0x00];
    assert_eq!(parse_record(&input), Ok((&[][..], vec![Data::Integer(-(1 << 47))])));
    let input = [2, 5, 0x12, 0x34, 0x56, 0x78, 0x9a, 0xbc];
    assert_eq!(parse_record(&input), Ok((&[][..], vec![Data::Integer(0x1234_5678_9abc)])));
}

#[test]
fn record_without_columns() {
    assert_eq!(parse_record(&[1]), Ok((&[][..], vec![])));
    assert_eq!(parse_record(&[1, 9, 9]), Ok((&[9, 9][..], vec![])));
    // A header size that does not even count itself names no serial types.
    assert_eq!(parse_record(&[0, 9]), Ok((&[9][..], vec![])));
}

#[test]
fn record_truncated() {
    assert_eq!(parse_record(&[]), Err(Error::Truncated { offset: 0 }));
    // The header says three bytes and the input ends after two.
    assert_eq!(parse_record(&[3, 1]), Err(Error::Truncated { offset: 2 }));
    // A serial type that is cut short.
    assert_eq!(parse_record(&[3, 1, 0x81]), Err(Error::Truncated { offset: 2 }));
    // A value that is cut short.
    assert_eq!(parse_record(&[3, 1, 4, 0x05, 0x00, 0x00]), Err(Error::Truncated { offset: 4 }));
    assert_eq!(parse_record(&[2, 23, b'a', b'b']), Err(Error::Truncated { offset: 2 }));
}

#[test]
fn record_reserved_serial_type() {
    assert_eq!(parse_record(&[2, 10]), Err(Error::ReservedSerialType { offset: 0 }));
    assert_eq!(parse_record(&[2, 11]), Err(Error::ReservedSerialType { offset: 0 }));
    // A serial type of nine bytes is negative.
    let input = [10, 0xff, 0xff, 0xff, 0xff, 0xff, 0xff, 0xff, 0xff, 0xff];
    assert_eq!(parse_record(&input), Err(Error::ReservedSerialType { offset: 0 }));
    // Values before the reserved type are read first.
    assert_eq!(parse_record(&[3, 1, 10]), Err(Error::Truncated { offset: 3 }));
    assert_eq!(parse_record(&[3, 1, 10, 5]), Err(Error::ReservedSerialType { offset: 0 }));
}

#[test]
fn record_invalid_utf8() {
    assert_eq!(parse_record(&[2, 15, 0xff]), Err(Error::InvalidUtf8 { offset: 2 }));
    assert_eq!(parse_record(&[3, 1, 17, 7, 0xc3, 0x28]), Err(Error::InvalidUtf8 { offset: 4 }));
    assert_eq!(
        parse_record(&[2, 17, 0xc3, 0xa9]),
        Ok((&[][..], vec![Data::Text("é".to_string())]))
    );
}

#[test]
fn serial_width_of_each_type() {
    assert_eq!(serial_width(0), Some(0));
    assert_eq!(serial_width(1), Some(1));
    assert_eq!(serial_width(2), Some(2));
    assert_eq!(serial_width(3), Some(3));
    assert_eq!(serial_width(4), Some(4));
    assert_eq!(serial_width(5), Some(6));
    assert_eq!(serial_width(6), Some(8));
    assert_eq!(serial_width(7), Some(8));
    assert_eq!(serial_width(8), Some(0));
    assert_eq!(serial_width(9), Some(0));
    assert_eq!(serial_width(10), None);
    assert_eq!(serial_width(11), None);
    assert_eq!(serial_width(12), Some(0));
    assert_eq!(serial_width(13), Some(0));
    assert_eq!(serial_width(14), Some(1));
    assert_eq!(serial_width(15), Some(1));
    assert_eq!(serial_width(1000), Some(494));
    assert_eq!(serial_width(-1), None);
    assert_eq!(serial_width(i64::MAX), Some(((i64::MAX - 12) / 2) as u64));
}

#[test]
fn encode_record_exact_bytes() {
    let values = vec![
        Data::Null,
        Data::Integer(0),
        Data::Integer(1),
        Data::Integer(-1),
        Data::Integer(300),
        Data::Text("ab".to_string()),
        Data::Blob(vec![9]),
    ];
    assert_eq!(
        encode_record(&values),
        Some(vec![8, 0, 8, 9, 1, 2, 17, 14, 0xff, 0x01, 0x2c, b'a', b'b', 9])
    );
    assert_eq!(encode_record(&vec![]), Some(vec![1]));
}

#[test]
fn serial_type_is_the_shortest() {
    assert_eq!(serial_type(&Data::Integer(127)), Some(1));
    assert_eq!(serial_type(&Data::Integer(128)), Some(2));
    assert_eq!(serial_type(&Data::Integer(-128)), Some(1));
    assert_eq!(serial_type(&Data::Integer(-129)), Some(2));
    assert_eq!(serial_type(&Data::Integer(32767)), Some(2));
    assert_eq!(serial_type(&Data::Integer(32768)), Some(3));
    assert_eq!(serial_type(&Data::Integer(1 << 23)), Some(4));
    assert_eq!(serial_type(&Data::Integer(1 << 31)), Some(5));
    assert_eq!(serial_type(&Data::Integer(1 << 47)), Some(6));
    assert_eq!(serial_type(&Data::Integer(i64::MIN)), Some(6));
    assert_eq!(serial_type(&Data::Float(0)), Some(7));
    assert_eq!(serial_type(&Data::Text("héllo".to_string())), Some(13 + 2 * 6));
    assert_eq!(serial_type(&Data::Blob(vec![0; 5])), Some(12 + 2 * 5));
}

#[test]
fn record_round_trip() {
    let mut long_text = String::new();
    for i in 0..200 {
        long_text.push_str(&format!("{} é ", i));
    }
    let mut values = vec![
        Data::Null,
        Data::Float(f64::NAN.to_bits()),
        Data::Float((-0.0f64).to_bits()),
        Data::Float(6.02e23f64.to_bits()),
        Data::Text(String::new()),
        Data::Text(long_text),
        Data::Blob(vec![]),
        Data::Blob((0..=255).collect()),
    ];
    for shift in 0..63 {
        let p = 1i64 << shift;
        values.push(Data::Integer(p));
        values.push(Data::Integer(p - 1));
        values.push(Data::Integer(-p));
        values.push(Data::Integer(-p - 1));
    }
    values.push(Data::Integer(i64::MIN));
    values.push(Data::Integer(i64::MAX));
    let encoded = encode_record(&values).unwrap();
    // The header is longer than 127 bytes, so its size takes two bytes.
    assert!(encoded[0] >= 0x80);
    assert_eq!(parse_record(&encoded), Ok((&[][..], values.clone())));
    let mut with_tail = encoded.clone();
    with_tail.extend_from_slice(&[1, 2, 3]);
    assert_eq!(parse_record(&with_tail), Ok((&[1u8, 2, 3][..], values)));
}

#[test]
fn integers_agree_with_nom() {
    let patterns: Vec<[u8; 8]> = vec![
        [0; 8],
        [0xff; 8],
        [0x80, 0, 0, 0, 0, 0, 0, 0],
        [0x7f, 0xff, 0xff, 0xff, 0xff, 0xff, 0xff, 0xff],
        [0x01, 0x23, 0x45, 0x67, 0x89, 0xab, 0xcd, 0xef],
        [0xfe, 0xdc, 0xba, 0x98, 0x76, 0x54, 0x32, 0x10],
    ];
    for bytes in patterns {
        let expected: Vec<(u8, usize, i64)> = vec![
            (1, 1, be_i8::<&[u8], nom::error::Error<&[u8]>>(&bytes[..]).unwrap().1 as i64),
            (2, 2, be_i16::<&[u8], nom::error::Error<&[u8]>>(&bytes[..]).unwrap().1 as i64),
            (3, 3, be_i24::<&[u8], nom::error::Error<&[u8]>>(&bytes[..]).unwrap().1 as i64),
            (4, 4, be_i32::<&[u8], nom::error::Error<&[u8]>>(&bytes[..]).unwrap().1 as i64),
            (6, 8, be_i64::<&[u8], nom::error::Error<&[u8]>>(&bytes[..]).unwrap().1),
        ];
        for (serial_type, width, value) in expected {
            let mut record = vec![2, serial_type];
            record.extend_from_slice(&bytes[..width]);
            assert_eq!(parse_record(&record), Ok((&[][..], vec![Data::Integer(value)])));
        }
    }
}
