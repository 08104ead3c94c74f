use sqlite_reader::float::{compare_floats, compare_integer_float, is_nan};
use sqlite_reader::order::{compare_bytes, Order};
use sqlite_reader::value::{duplicate_all, Data};

fn float(x: f64) -> Data {
    Data::Float(x.to_bits())
}

fn text(s: &str) -> Data {
    Data::Text(s.to_string())
}

#[test]
fn bytes_in_lexicographic_order() {
    assert_eq!(compare_bytes(b"", b""), Order::Equal);
    assert_eq!(compare_bytes(b"", b"a"), Order::Less);
    assert_eq!(compare_bytes(b"a", b""), Order::Greater);
    assert_eq!(compare_bytes(b"abc", b"abd"), Order::Less);
    assert_eq!(compare_bytes(b"abc", b"ab"), Order::Greater);
    assert_eq!(compare_bytes(b"b", b"abc"), Order::Greater);
    assert_eq!(compare_bytes(&[0xff], &[0x00, 0x01]), Order::Greater);
    assert_eq!(compare_bytes(b"same", b"same"), Order::Equal);
}

#[test]
fn order_reversed() {
    assert_eq!(Order::Less.reversed(), Order::Greater);
    assert_eq!(Order::Equal.reversed(), Order::Equal);
    assert_eq!(Order::Greater.reversed(), Order::Less);
}

#[test]
fn classes_in_order() {
    let ladder = vec![
        Data::Null,
        Data::Integer(i64::MIN),
        float(-1.5),
        Data::Integer(0),
        float(0.5),
        Data::Integer(1),
        float(f64::INFINITY),
        text(""),
        text("a"),
        text("b"),
        Data::Blob(vec![]),
        Data::Blob(vec![0]),
        Data::Blob(vec![0, 0]),
        Data::Blob(vec![1]),
    ];
    for i in 0..ladder.len() {
        for j in 0..ladder.len() {
            let expected = if i < j {
                Order::Less
            } else if i == j {
                Order::Equal
            } else {
                Order::Greater
            };
            assert_eq!(ladder[i].compare(&ladder[j]), expected, "{:?} and {:?}", ladder[i], ladder[j]);
        }
    }
}

#[test]
fn text_by_the_bytes_of_its_encoding() {
    assert_eq!(text("Z").compare(&text("a")), Order::Less);
    assert_eq!(text("z").compare(&text("é")), Order::Less);
    assert_eq!(text("é").compare(&text("€")), Order::Less);
    assert_eq!(text("Pink Eyes").compare(&text("Pink Eyes")), Order::Equal);
    assert_eq!(text("Pink").compare(&text("Pink Eyes")), Order::Less);
}

#[test]
fn integers_and_floats_by_value() {
    assert_eq!(Data::Integer(1).compare(&float(1.0)), Order::Equal);
    assert_eq!(float(1.0).compare(&Data::Integer(1)), Order::Equal);
    assert_eq!(Data::Integer(0).compare(&float(-0.0)), Order::Equal);
    assert_eq!(Data::Integer(2).compare(&float(2.5)), Order::Less);
    assert_eq!(Data::Integer(3).compare(&float(2.5)), Order::Greater);
    assert_eq!(Data::Integer(-3).compare(&float(-2.5)), Order::Less);
    assert_eq!(float(-2.5).compare(&Data::Integer(-3)), Order::Greater);
    assert_eq!(Data::Integer(i64::MAX).compare(&float(9223372036854775808.0)), Order::Less);
    assert_eq!(Data::Integer(i64::MIN).compare(&float(-9223372036854775808.0)), Order::Equal);
    assert_eq!(Data::Integer(i64::MAX).compare(&float(9223372036854774784.0)), Order::Greater);
    assert_eq!(Data::Integer(1 << 53).compare(&float(9007199254740992.0)), Order::Equal);
    assert_eq!(Data::Integer((1 << 53) + 1).compare(&float(9007199254740992.0)), Order::Greater);
    assert_eq!(Data::Integer(1).compare(&float(f64::MIN_POSITIVE)), Order::Greater);
    assert_eq!(Data::Integer(0).compare(&float(5e-324)), Order::Less);
    assert_eq!(Data::Integer(0).compare(&float(-5e-324)), Order::Greater);
    assert_eq!(Data::Integer(7).compare(&float(f64::INFINITY)), Order::Less);
    assert_eq!(Data::Integer(7).compare(&float(f64::NEG_INFINITY)), Order::Greater);
    assert_eq!(Data::Integer(i64::MIN).compare(&float(f64::NAN)), Order::Greater);
}

#[test]
fn compare_integer_float_agrees_with_the_machine() {
    let integers = [0i64, 1, -1, 2, 3, 1000, -1000, 1 << 52, (1 << 53) - 1, 1 << 53, (1 << 53) + 1, i64::MAX, i64::MIN, i64::MIN + 1];
    let floats = [
        0.0f64, -0.0, 0.5, -0.5, 1.0, -1.0, 1.5, 2.0, 2.5, 999.999, 1000.0, 1000.5, -1000.5,
        4503599627370496.0, 9007199254740991.0, 9007199254740992.0, 9007199254740994.0,
        9223372036854775808.0, -9223372036854775808.0, 1e19, -1e19, 1e300, -1e300, 5e-324,
        f64::MIN_POSITIVE, f64::MAX, f64::MIN, f64::INFINITY, f64::NEG_INFINITY,
    ];
    for &i in integers.iter() {
        for &f in floats.iter() {
            // The float is compared with the integer exactly: through 128-bit
            // integers where it has no fraction, else through its floor.
            let expected = if f.is_infinite() || f.abs() >= 1e19 {
                if f > 0.0 { Order::Less } else { Order::Greater }
            } else if f.fract() == 0.0 {
                let whole = f as i128;
                if (i as i128) < whole { Order::Less } else if (i as i128) == whole { Order::Equal } else { Order::Greater }
            } else {
                let below = f.floor() as i128;
                if (i as i128) <= below { Order::Less } else { Order::Greater }
            };
            assert_eq!(compare_integer_float(i, f.to_bits()), expected, "{} and {}", i, f);
        }
    }
}

#[test]
fn compare_floats_agrees_with_the_machine() {
    let floats = [
        0.0f64, -0.0, 0.5, -0.5, 1.0, -1.0, 1.5, 2.0, 1e-310, -1e-310, 5e-324, f64::MIN_POSITIVE,
        f64::MAX, f64::MIN, f64::INFINITY, f64::NEG_INFINITY, 3.141592653589793, 1e19, -1e19,
    ];
    for &a in floats.iter() {
        for &b in floats.iter() {
            let expected = if a < b { Order::Less } else if a == b { Order::Equal } else { Order::Greater };
            assert_eq!(compare_floats(a.to_bits(), b.to_bits()), expected, "{} and {}", a, b);
        }
    }
}

#[test]
fn nan_sorts_before_every_number() {
    let nan = f64::NAN.to_bits();
    assert!(is_nan(nan));
    assert!(!is_nan(f64::INFINITY.to_bits()));
    assert!(!is_nan(0));
    assert_eq!(compare_floats(nan, f64::NEG_INFINITY.to_bits()), Order::Less);
    assert_eq!(compare_floats(f64::NEG_INFINITY.to_bits(), nan), Order::Greater);
    assert_eq!(compare_floats(nan, nan), Order::Equal);
    assert_eq!(compare_floats(nan, nan | 1), Order::Equal);
    assert_eq!(Data::Null.compare(&Data::Float(nan)), Order::Less);
    assert_eq!(text("").compare(&Data::Float(nan)), Order::Greater);
}

#[test]
fn is_text_compares_the_text() {
    assert!(text("table").is_text("table"));
    assert!(!text("table").is_text("tabl"));
    assert!(!text("table").is_text("Table"));
    assert!(!Data::Blob(b"table".to_vec()).is_text("table"));
    assert!(!Data::Null.is_text(""));
    assert!(text("").is_text(""));
}

#[test]
fn duplicate_copies() {
    let values = vec![Data::Null, Data::Integer(5), float(2.0), text("x"), Data::Blob(vec![1, 2])];
    for v in values.iter() {
        assert_eq!(&v.duplicate(), v);
    }
    assert_eq!(duplicate_all(&values), values);
}
