//! The encoding of records, and that decoding undoes it.

use crate::bytes::{
    be_signed,
    push_all,
    be_unsigned,
    lemma_be_unsigned_bound,
    lemma_pow256_values,
    pow256,
};
use crate::record::{
    serial_type_width,
    spec_parse_record,
    spec_serial_types,
    spec_value,
    spec_values,
};
use crate::value::{Data, Value};
use crate::varint::{
    lemma_varint_round_trip,
    encode_varint,
    spec_encode_varint,
    unsigned64,
    varint_size,
};
use vstd::arithmetic::div_mod::{lemma_mod_breakdown, lemma_small_mod};
use vstd::prelude::*;
use vstd::utf8::encode_utf8;

verus! {

/// The `width` low bytes of `v`, most significant first.
pub open spec fn be_bytes(v: nat, width: nat) -> Seq<u8>
    decreases width,
{
    if width == 0 {
        Seq::empty()
    } else {
        be_bytes(v / 256, (width - 1) as nat).push((v % 256) as u8)
    }
}

/// The bytes of `be_bytes` spell the number they were made of, as far as it
/// fits.
pub proof fn lemma_be_bytes(v: nat, width: nat)
    ensures
        be_bytes(v, width).len() == width,
        be_unsigned(be_bytes(v, width)) == v % pow256(width),
    decreases width,
{
    if width > 0 {
        let head = be_bytes(v / 256, (width - 1) as nat);
        lemma_be_bytes(v / 256, (width - 1) as nat);
        assert(be_bytes(v, width).drop_last() =~= head);
        lemma_pow256_positive((width - 1) as nat);
        lemma_mod_breakdown(v as int, 256, pow256((width - 1) as nat) as int);
        assert(256 * ((v / 256) % pow256((width - 1) as nat)) == ((v / 256) % pow256(
            (width - 1) as nat,
        )) * 256) by (nonlinear_arith);
    } else {
        assert(pow256(0) == 1);
    }
}

/// A power of 256 is positive.
pub proof fn lemma_pow256_positive(k: nat)
    ensures
        pow256(k) > 0,
    decreases k,
{
    if k > 0 {
        lemma_pow256_positive((k - 1) as nat);
    }
}

/// The number of bytes of the shortest integer field that holds `x`: 1, 2,
/// 3, 4, 6 or 8.
pub open spec fn integer_width(x: i64) -> nat {
    if -0x80 <= x < 0x80 {
        1
    } else if -0x8000 <= x < 0x8000 {
        2
    } else if -0x80_0000 <= x < 0x80_0000 {
        3
    } else if -0x8000_0000 <= x < 0x8000_0000 {
        4
    } else if -0x8000_0000_0000 <= x < 0x8000_0000_0000 {
        6
    } else {
        8
    }
}

/// The serial type of an integer field of `width` bytes.
pub open spec fn integer_serial_type(width: nat) -> i64 {
    if width <= 4 {
        width as i64
    } else if width == 6 {
        5
    } else {
        6
    }
}

/// The bytes of `x` in two's complement, in `width` bytes.
pub open spec fn be_signed_bytes(x: int, width: nat) -> Seq<u8> {
    be_bytes(
        if x >= 0 {
            x as nat
        } else {
            (x + pow256(width)) as nat
        },
        width,
    )
}

/// The serial type under which a value is stored: 0 for null, 8 and 9 for
/// the integers 0 and 1, the shortest integer field for any other integer,
/// 7 for a float, and for text and blobs the types that tell their length.
pub open spec fn serial_type_of(v: Value) -> int {
    match v {
        Value::Null => 0,
        Value::Integer(x) => if x == 0 {
            8
        } else if x == 1 {
            9
        } else {
            integer_serial_type(integer_width(x)) as int
        },
        Value::Float(_) => 7,
        Value::Text(s) => 13 + 2 * (encode_utf8(s).len() as int),
        Value::Blob(b) => 12 + 2 * (b.len() as int),
    }
}

/// The bytes that hold a value in the body of a record.
pub open spec fn body_of(v: Value) -> Seq<u8> {
    match v {
        Value::Null => Seq::empty(),
        Value::Integer(x) => if x == 0 || x == 1 {
            Seq::empty()
        } else {
            be_signed_bytes(x as int, integer_width(x))
        },
        Value::Float(bits) => be_bytes(bits as nat, 8),
        Value::Text(s) => encode_utf8(s),
        Value::Blob(b) => b,
    }
}

/// Whether a value can be stored: its serial type is a 64-bit number.
pub open spec fn storable(v: Value) -> bool {
    serial_type_of(v) <= i64::MAX
}

/// A field of `width` bytes holds every integer of that width.
pub proof fn lemma_signed_bytes(x: int, width: nat)
    requires
        1 <= width <= 8,
        -(pow256(width) / 2) <= x < pow256(width) / 2,
    ensures
        be_signed_bytes(x, width).len() == width,
        be_signed(be_signed_bytes(x, width)) == x,
{
    let modulus = pow256(width);
    let half = pow256((width - 1) as nat);
    lemma_pow256_values();
    assert(modulus == 256 * half);
    let u: nat = if x >= 0 {
        x as nat
    } else {
        (x + modulus) as nat
    };
    let bytes = be_bytes(u, width);
    lemma_be_bytes(u, width);
    lemma_small_mod(u, modulus);
    lemma_be_unsigned_bound(bytes);
    let first = bytes[0] as int;
    if x >= 0 {
        assert(first < 0x80) by (nonlinear_arith)
            requires
                first * half <= u,
                u < 128 * half,
                half > 0,
        ;
    } else {
        assert(first >= 0x80) by (nonlinear_arith)
            requires
                u < (first + 1) * half,
                u >= 128 * half,
                half > 0,
        ;
    }
}

/// A stored value reads back: the serial type of a value asks for as many
/// bytes as the value's body has, and the body decodes to the value.
pub proof fn lemma_value_round_trip(v: Value)
    requires
        storable(v),
    ensures
        serial_type_width(serial_type_of(v) as i64) == Some(body_of(v).len()),
        spec_value(serial_type_of(v) as i64, body_of(v)) == Some(v),
{
    lemma_pow256_values();
    match v {
        Value::Null => {},
        Value::Integer(x) => {
            if x != 0 && x != 1 {
                lemma_signed_bytes(x as int, integer_width(x));
            }
        },
        Value::Float(bits) => {
            lemma_be_bytes(bits as nat, 8);
            lemma_small_mod(bits as nat, pow256(8));
        },
        Value::Text(s) => {
            vstd::utf8::encode_utf8_valid_utf8(s);
            vstd::utf8::encode_utf8_decode_utf8(s);
        },
        Value::Blob(b) => {},
    }
}

/// The serial types of the values from index `i` on, each as a varint, one
/// after the other.
pub open spec fn header_from(values: Seq<Value>, i: int) -> Seq<u8>
    decreases values.len() - i,
{
    if 0 <= i < values.len() {
        spec_encode_varint(serial_type_of(values[i]) as i64) + header_from(values, i + 1)
    } else {
        Seq::empty()
    }
}

/// The bodies of the values from index `i` on, one after the other.
pub open spec fn bodies_from(values: Seq<Value>, i: int) -> Seq<u8>
    decreases values.len() - i,
{
    if 0 <= i < values.len() {
        body_of(values[i]) + bodies_from(values, i + 1)
    } else {
        Seq::empty()
    }
}

/// The serial types of the values from index `i` on.
pub open spec fn types_from(values: Seq<Value>, i: int) -> Seq<i64> {
    Seq::new((values.len() - i) as nat, |k: int| serial_type_of(values[i + k]) as i64)
}

/// The header size of a record whose serial types take `types_len` bytes:
/// that length and the length of the header size itself, which is the
/// shortest that can hold the sum.
pub open spec fn header_size_of(types_len: nat) -> nat {
    if varint_size(types_len + 1) <= 1 {
        types_len + 1
    } else if varint_size(types_len + 2) <= 2 {
        types_len + 2
    } else if varint_size(types_len + 3) <= 3 {
        types_len + 3
    } else if varint_size(types_len + 4) <= 4 {
        types_len + 4
    } else if varint_size(types_len + 5) <= 5 {
        types_len + 5
    } else if varint_size(types_len + 6) <= 6 {
        types_len + 6
    } else if varint_size(types_len + 7) <= 7 {
        types_len + 7
    } else if varint_size(types_len + 8) <= 8 {
        types_len + 8
    } else {
        types_len + 9
    }
}

/// The record that holds the values: the header size, the serial types, and
/// the bodies.
pub open spec fn spec_encode_record(values: Seq<Value>) -> Seq<u8> {
    spec_encode_varint(header_size_of(header_from(values, 0).len()) as i64) + header_from(values, 0)
        + bodies_from(values, 0)
}

/// The bodies from `i` on are at least as long as each of them, and the
/// serial types take a byte or more for each value.
pub proof fn lemma_encoded_lengths(values: Seq<Value>, i: int, k: int)
    requires
        0 <= i <= k < values.len(),
    ensures
        bodies_from(values, i).len() >= body_of(values[k]).len(),
        header_from(values, i).len() >= values.len() - i,
    decreases values.len() - i,
{
    lemma_varint_round_trip(serial_type_of(values[i]) as i64, Seq::empty());
    if i < k {
        lemma_encoded_lengths(values, i + 1, k);
    } else if i + 1 < values.len() {
        lemma_encoded_lengths(values, i + 1, i + 1);
    }
}

/// The serial types that were encoded are those that are decoded.
pub proof fn lemma_decode_types(bytes: Seq<u8>, values: Seq<Value>, i: int, pos: int, acc: Seq<i64>)
    requires
        0 <= i <= values.len(),
        0 <= pos,
        forall|k: int| 0 <= k < values.len() ==> storable(#[trigger] values[k]),
        pos + header_from(values, i).len() <= bytes.len(),
        bytes.subrange(pos, pos + header_from(values, i).len()) == header_from(values, i),
    ensures
        spec_serial_types(bytes, pos as nat, header_from(values, i).len() as int, acc) == Ok::<
            (Seq<i64>, nat),
            crate::error::Error,
        >((acc + types_from(values, i), (pos + header_from(values, i).len()) as nat)),
    decreases values.len() - i,
{
    if i < values.len() {
        let st = serial_type_of(values[i]) as i64;
        let enc = spec_encode_varint(st);
        let rest = header_from(values, i + 1);
        let whole = header_from(values, i);
        let n = enc.len() as int;
        assert(whole == enc + rest);
        let tail = bytes.skip(pos + n);
        lemma_varint_round_trip(st, tail);
        assert(bytes.skip(pos) =~= enc + tail) by {
            assert(bytes.subrange(pos, pos + whole.len()).subrange(0, n) =~= enc);
        }
        assert(bytes.subrange(pos + n, pos + n + rest.len()) =~= rest) by {
            assert(bytes.subrange(pos, pos + whole.len()).subrange(n, whole.len() as int) =~= rest);
        }
        lemma_decode_types(bytes, values, i + 1, pos + n, acc.push(st));
        assert(acc.push(st) + types_from(values, i + 1) =~= acc + types_from(values, i));
    } else {
        assert(acc + types_from(values, i) =~= acc);
    }
}

/// The values that were encoded are those that are decoded.
pub proof fn lemma_decode_values(
    bytes: Seq<u8>,
    values: Seq<Value>,
    i: int,
    pos: int,
    acc: Seq<Value>,
)
    requires
        0 <= i <= values.len(),
        0 <= pos,
        forall|k: int| 0 <= k < values.len() ==> storable(#[trigger] values[k]),
        pos + bodies_from(values, i).len() <= bytes.len(),
        bytes.subrange(pos, pos + bodies_from(values, i).len()) == bodies_from(values, i),
    ensures
        spec_values(bytes, types_from(values, 0), i as nat, pos as nat, acc) == Ok::<
            (Seq<Value>, nat),
            crate::error::Error,
        >((acc + values.skip(i), (pos + bodies_from(values, i).len()) as nat)),
    decreases values.len() - i,
{
    if i < values.len() {
        let v = values[i];
        let body = body_of(v);
        let rest = bodies_from(values, i + 1);
        let whole = bodies_from(values, i);
        let n = body.len() as int;
        assert(whole == body + rest);
        lemma_value_round_trip(v);
        assert(types_from(values, 0)[i] == serial_type_of(v) as i64);
        assert(bytes.subrange(pos, pos + n) =~= body) by {
            assert(bytes.subrange(pos, pos + whole.len()).subrange(0, n) =~= body);
        }
        assert(bytes.subrange(pos + n, pos + n + rest.len()) =~= rest) by {
            assert(bytes.subrange(pos, pos + whole.len()).subrange(n, whole.len() as int) =~= rest);
        }
        lemma_decode_values(bytes, values, i + 1, pos + n, acc.push(v));
        assert(acc.push(v) + values.skip(i + 1) =~= acc + values.skip(i));
    } else {
        assert(acc + values.skip(i) =~= acc);
    }
}

/// The header size takes as many bytes as it counts for itself.
pub proof fn lemma_header_size(types_len: nat)
    requires
        types_len <= 0xffff_ffff,
    ensures
        header_size_of(types_len) == types_len + varint_size(header_size_of(types_len)),
        header_size_of(types_len) <= 0x1_0000_0008,
{
}

/// Decoding undoes encoding: a record of less than 4 GiB that holds the
/// values decodes to the values, and to its end.
pub proof fn lemma_record_round_trip(values: Seq<Value>)
    requires
        spec_encode_record(values).len() <= 0xffff_ffff,
    ensures
        spec_parse_record(spec_encode_record(values)) == Ok::<
            (Seq<Value>, nat),
            crate::error::Error,
        >((values, spec_encode_record(values).len())),
{
    reveal(spec_parse_record);
    let types = header_from(values, 0);
    let bodies = bodies_from(values, 0);
    let size = header_size_of(types.len());
    let bytes = spec_encode_record(values);
    let enc = spec_encode_varint(size as i64);
    assert(bytes.len() == enc.len() + types.len() + bodies.len());
    assert forall|k: int| 0 <= k < values.len() implies storable(#[trigger] values[k]) by {
        lemma_encoded_lengths(values, 0, k);
    }
    lemma_header_size(types.len());
    lemma_varint_round_trip(size as i64, types + bodies);
    assert(bytes =~= enc + (types + bodies));
    assert(unsigned64(size as i64) == size);
    let n = enc.len() as int;
    let m = n + types.len();
    assert(bytes.subrange(n, m) =~= types);
    lemma_decode_types(bytes, values, 0, n, Seq::empty());
    assert(Seq::<i64>::empty() + types_from(values, 0) =~= types_from(values, 0));
    assert(bytes.subrange(m, m + bodies.len()) =~= bodies);
    lemma_decode_values(bytes, values, 0, m, Seq::empty());
    assert(Seq::<Value>::empty() + values.skip(0) =~= values);
}

/// Appends the `width` low bytes of `v`, most significant first.
fn push_be(out: &mut Vec<u8>, v: u64, width: usize)
    ensures
        final(out)@ == old(out)@ + be_bytes(v as nat, width as nat),
    decreases width,
{
    if width > 0 {
        push_be(out, v / 256, width - 1);
        out.push((v % 256) as u8);
    }
    assert(out@ =~= old(out)@ + be_bytes(v as nat, width as nat));
}

/// Whether every value of the list can be stored, and the header size of
/// their record is a 64-bit number.
pub open spec fn record_storable(values: Seq<Value>) -> bool {
    &&& forall|k: int| 0 <= k < values.len() ==> storable(#[trigger] values[k])
    &&& header_from(values, 0).len() + 9 <= i64::MAX
}

/// The serial type of a value, where the value can be stored.
pub fn serial_type(d: &Data) -> (r: Option<i64>)
    ensures
        match r {
            Some(st) => storable(d@) && st == serial_type_of(d@),
            None => !storable(d@),
        },
{
    match d {
        Data::Null => Some(0),
        Data::Integer(x) => {
            let x = *x;
            Some(
                if x == 0 {
                    8
                } else if x == 1 {
                    9
                } else if -0x80 <= x && x < 0x80 {
                    1
                } else if -0x8000 <= x && x < 0x8000 {
                    2
                } else if -0x80_0000 <= x && x < 0x80_0000 {
                    3
                } else if -0x8000_0000 <= x && x < 0x8000_0000 {
                    4
                } else if -0x8000_0000_0000 <= x && x < 0x8000_0000_0000 {
                    5
                } else {
                    6
                },
            )
        },
        Data::Float(_) => Some(7),
        Data::Text(s) => {
            let n = s.as_str().as_bytes().len();
            if n as u64 > 0x3fff_ffff_ffff_fff9 {
                None
            } else {
                Some(13 + 2 * (n as i64))
            }
        },
        Data::Blob(b) => {
            let n = b.len();
            if n as u64 > 0x3fff_ffff_ffff_fff9 {
                None
            } else {
                Some(12 + 2 * (n as i64))
            }
        },
    }
}

/// Appends the body of a value.
pub fn push_body(out: &mut Vec<u8>, d: &Data)
    ensures
        final(out)@ == old(out)@ + body_of(d@),
{
    match d {
        Data::Null => {
            assert(out@ =~= old(out)@ + body_of(d@));
        },
        Data::Integer(x) => {
            let x = *x;
            if x == 0 || x == 1 {
                assert(out@ =~= old(out)@ + body_of(d@));
            } else {
                let width: usize = if -0x80 <= x && x < 0x80 {
                    1
                } else if -0x8000 <= x && x < 0x8000 {
                    2
                } else if -0x80_0000 <= x && x < 0x80_0000 {
                    3
                } else if -0x8000_0000 <= x && x < 0x8000_0000 {
                    4
                } else if -0x8000_0000_0000 <= x && x < 0x8000_0000_0000 {
                    6
                } else {
                    8
                };
                proof {
                    lemma_pow256_values();
                }
                let modulus: i128 = if width == 1 {
                    0x100
                } else if width == 2 {
                    0x1_0000
                } else if width == 3 {
                    0x100_0000
                } else if width == 4 {
                    0x1_0000_0000
                } else if width == 6 {
                    0x1_0000_0000_0000
                } else {
                    0x1_0000_0000_0000_0000
                };
                let pattern: u64 = if x >= 0 {
                    x as u64
                } else {
                    (x as i128 + modulus) as u64
                };
                push_be(out, pattern, width);
            }
        },
        Data::Float(bits) => {
            push_be(out, *bits, 8);
        },
        Data::Text(s) => {
            push_all(out, s.as_str().as_bytes());
        },
        Data::Blob(b) => {
            push_all(out, b.as_slice());
        },
    }
}

/// The record that holds the values; `None` where a value cannot be stored
/// or the header would be too long.
pub fn encode_record(values: &Vec<Data>) -> (r: Option<Vec<u8>>)
    ensures
        match r {
            Some(bytes) => record_storable(values.deep_view()) && bytes@ == spec_encode_record(
                values.deep_view(),
            ),
            None => !record_storable(values.deep_view()),
        },
{
    let ghost model = values.deep_view();
    let mut types: Vec<u8> = Vec::new();
    let mut bodies: Vec<u8> = Vec::new();
    let mut i: usize = 0;
    assert(types@ + header_from(model, 0) =~= header_from(model, 0));
    assert(bodies@ + bodies_from(model, 0) =~= bodies_from(model, 0));
    while i < values.len()
        invariant
            i <= values.len(),
            model == values.deep_view(),
            model.len() == values.len(),
            forall|k: int| 0 <= k < i ==> storable(#[trigger] model[k]),
            header_from(model, 0) == types@ + header_from(model, i as int),
            bodies_from(model, 0) == bodies@ + bodies_from(model, i as int),
        decreases values.len() - i,
    {
        assert(model[i as int] == values[i as int]@);
        let st = match serial_type(&values[i]) {
            Some(st) => st,
            None => {
                return None;
            },
        };
        let ghost types_before = types@;
        let ghost bodies_before = bodies@;
        let code = encode_varint(st);
        push_all(&mut types, code.as_slice());
        push_body(&mut bodies, &values[i]);
        assert(types@ + header_from(model, i + 1) =~= types_before + header_from(model, i as int));
        assert(bodies@ + bodies_from(model, i + 1) =~= bodies_before + bodies_from(
            model,
            i as int,
        ));
        i += 1;
    }
    assert(types@ =~= header_from(model, 0));
    assert(bodies@ =~= bodies_from(model, 0));
    let len = types.len();
    if len as u64 > 0x7fff_ffff_ffff_fff6 {
        return None;
    }
    let len = len as u64;
    let size: u64 = if len + 1 < 0x80 {
        len + 1
    } else if len + 2 < 0x4000 {
        len + 2
    } else if len + 3 < 0x20_0000 {
        len + 3
    } else if len + 4 < 0x1000_0000 {
        len + 4
    } else if len + 5 < 0x8_0000_0000 {
        len + 5
    } else if len + 6 < 0x400_0000_0000 {
        len + 6
    } else if len + 7 < 0x2_0000_0000_0000 {
        len + 7
    } else if len + 8 < 0x100_0000_0000_0000 {
        len + 8
    } else {
        len + 9
    };
    let mut out = encode_varint(size as i64);
    push_all(&mut out, types.as_slice());
    push_all(&mut out, bodies.as_slice());
    Some(out)
}

} // verus!
