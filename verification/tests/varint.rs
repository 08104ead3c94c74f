use sqlite_reader::error::Error;
use sqlite_reader::varint::{encode_varint, varint, varint_at};

#[test]
fn test_varint() {
    let input = &[0b1000_0001, 0b1000_0001, 0b0000_0001];
    let res = varint(input);
    if let Ok((_, n)) = res {
        println!("{:b}", n);
    }
    assert_eq!(res, Ok((&Vec::new()[..], 0b100_0000_1000_0001)));
}

#[test]
fn varint_of_one_byte() {
    assert_eq!(varint(&[0x00]), Ok((&[][..], 0)));
    assert_eq!(varint(&[0x7f, 0xaa]), Ok((&[0xaa][..], 127)));
}

#[test]
fn varint_stops_at_the_first_byte_without_the_flag() {
    assert_eq!(varint(&[0x81, 0x00, 0x81]), Ok((&[0x81][..], 128)));
}

#[test]
fn varint_ninth_byte_carries_eight_bits() {
    let input = [0xff, 0xff, 0xff, 0xff, 0xff, 0xff, 0xff, 0xff, 0xff, 0x05];
    assert_eq!(varint(&input), Ok((&[0x05][..], -1)));
    let input = [0x80, 0x80, 0x80, 0x80, 0x80, 0x80, 0x80, 0x80, 0x80];
    assert_eq!(varint(&input), Ok((&[][..], 0x80)));
    let input = [0xc0, 0x80, 0x80, 0x80, 0x80, 0x80, 0x80, 0x80, 0x00];
    assert_eq!(varint(&input), Ok((&[][..], i64::MIN)));
}

#[test]
fn varint_of_eight_bytes() {
    let input = [0x81, 0x80, 0x80, 0x80, 0x80, 0x80, 0x80, 0x00];
    assert_eq!(varint(&input), Ok((&[][..], 1 << 49)));
}

#[test]
fn varint_truncated() {
    assert_eq!(varint(&[]), Err(Error::Truncated { offset: 0 }));
    assert_eq!(varint(&[0x81]), Err(Error::Truncated { offset: 0 }));
    assert_eq!(
        varint(&[0x80, 0x80, 0x80, 0x80, 0x80, 0x80, 0x80, 0x80]),
        Err(Error::Truncated { offset: 0 })
    );
}

#[test]
fn varint_at_reports_the_position() {
    let input = [0xaa, 0xbb, 0x81, 0x01, 0xcc];
    assert_eq!(varint_at(&input, 2), Ok((129, 4)));
    assert_eq!(varint_at(&input, 5), Err(Error::Truncated { offset: 5 }));
    assert_eq!(varint_at(&[0x01, 0x81], 1), Err(Error::Truncated { offset: 1 }));
    assert_eq!(varint_at(&input, 6), Err(Error::Truncated { offset: 6 }));
}

#[test]
fn encode_varint_exact_bytes() {
    assert_eq!(encode_varint(0), vec![0x00]);
    assert_eq!(encode_varint(127), vec![0x7f]);
    assert_eq!(encode_varint(128), vec![0x81, 0x00]);
    assert_eq!(encode_varint(16513), vec![0x81, 0x81, 0x01]);
    assert_eq!(encode_varint(-1), vec![0xff; 9]);
    assert_eq!(
        encode_varint(i64::MIN),
        vec![0xc0, 0x80, 0x80, 0x80, 0x80, 0x80, 0x80, 0x80, 0x00]
    );
}

#[test]
fn varint_round_trip() {
    let mut samples: Vec<i64> = vec![0, 1, -1, 127, 128, 255, 256, i64::MAX, i64::MIN];
    for shift in 0..63 {
        let p = 1i64 << shift;
        samples.push(p);
        samples.push(p - 1);
        samples.push(p + 1);
        samples.push(-p);
    }
    for x in samples {
        let encoded = encode_varint(x);
        assert!(1 <= encoded.len() && encoded.len() <= 9);
        let mut with_tail = encoded.clone();
        with_tail.push(0x99);
        assert_eq!(varint(&with_tail), Ok((&[0x99][..], x)));
        assert_eq!(varint_at(&encoded, 0), Ok((x, encoded.len())));
    }
}
