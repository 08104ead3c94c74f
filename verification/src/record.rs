//! Records: a header of serial types, then one value for each of them.

use crate::bytes::{be_signed, be_unsigned, read_be, read_be_signed};
use crate::error::Error;
use crate::text::string_from_utf8;
use crate::value::{Data, Value};
use crate::varint::{lemma_varint_len_range, spec_varint, varint_at};
use vstd::prelude::*;
use vstd::slice::{slice_subrange, slice_to_vec};
use vstd::utf8::{decode_utf8, valid_utf8};

verus! {

/// The number of bytes that a value of serial type `st` occupies; `None` for
/// a serial type that has no meaning.
pub open spec fn serial_type_width(st: i64) -> Option<nat> {
    if st == 0 || st == 8 || st == 9 {
        Some(0)
    } else if 1 <= st <= 4 {
        Some(st as nat)
    } else if st == 5 {
        Some(6)
    } else if st == 6 || st == 7 {
        Some(8)
    } else if st >= 12 {
        Some(((st - 12) / 2) as nat)
    } else {
        None
    }
}

/// The value of serial type `st` that `body` holds, `body` being as long as
/// the serial type asks; `None` for text that is not valid UTF-8.
pub open spec fn spec_value(st: i64, body: Seq<u8>) -> Option<Value> {
    if st == 0 {
        Some(Value::Null)
    } else if st == 8 {
        Some(Value::Integer(0))
    } else if st == 9 {
        Some(Value::Integer(1))
    } else if st == 7 {
        Some(Value::Float(be_unsigned(body) as u64))
    } else if 1 <= st <= 6 {
        Some(Value::Integer(be_signed(body) as i64))
    } else if st % 2 == 0 {
        Some(Value::Blob(body))
    } else if valid_utf8(body) {
        Some(Value::Text(decode_utf8(body)))
    } else {
        None
    }
}

/// The serial types read from position `pos` on, while `remaining` bytes of
/// the header are still to be read, after those in `acc`; and the position
/// where the header ends.
pub open spec fn spec_serial_types(bytes: Seq<u8>, pos: nat, remaining: int, acc: Seq<i64>)
    -> Result<(Seq<i64>, nat), Error>
    decreases
            if remaining > 0 {
                remaining
            } else {
                0
            },
{
    if remaining <= 0 {
        Ok((acc, pos))
    } else {
        match spec_varint(bytes.skip(pos as int)) {
            None => Err(Error::Truncated { offset: pos as usize }),
            Some((st, n)) => {
                proof {
                    lemma_varint_len_range(bytes.skip(pos as int));
                }
                spec_serial_types(bytes, pos + n, remaining - n, acc.push(st))
            },
        }
    }
}

/// The values of the serial types from index `i` on, read from position
/// `pos` on, after those in `acc`; and the position where the last one ends.
pub open spec fn spec_values(bytes: Seq<u8>, types: Seq<i64>, i: nat, pos: nat, acc: Seq<Value>)
    -> Result<(Seq<Value>, nat), Error>
    decreases types.len() - i,
{
    if i >= types.len() {
        Ok((acc, pos))
    } else {
        match serial_type_width(types[i as int]) {
            None => Err(Error::ReservedSerialType { offset: 0 }),
            Some(width) => {
                if pos + width > bytes.len() {
                    Err(Error::Truncated { offset: pos as usize })
                } else {
                    match spec_value(types[i as int], bytes.subrange(pos as int, (pos + width) as int)) {
                        None => Err(Error::InvalidUtf8 { offset: pos as usize }),
                        Some(v) => spec_values(bytes, types, i + 1, pos + width, acc.push(v)),
                    }
                }
            },
        }
    }
}

/// The values of the record that starts `bytes`, and its length in bytes.
///
/// The header size is a varint that counts its own bytes. Serial types are
/// read while fewer bytes than it says have been read; the values follow the
/// last serial type.
#[verifier::opaque]
pub open spec fn spec_parse_record(bytes: Seq<u8>) -> Result<(Seq<Value>, nat), Error> {
    match spec_varint(bytes) {
        None => Err(Error::Truncated { offset: 0 }),
        Some((header_size, n)) => match spec_serial_types(
            bytes,
            n,
            header_size - n,
            Seq::empty(),
        ) {
            Err(e) => Err(e),
            Ok((types, body)) => spec_values(bytes, types, 0, body, Seq::empty()),
        },
    }
}

/// The width of a serial type, where it has one.
pub fn serial_width(st: i64) -> (r: Option<u64>)
    ensures
        match serial_type_width(st) {
            Some(w) => r == Some(w as u64) && w <= u64::MAX,
            None => r.is_none(),
        },
{
    if st == 0 || st == 8 || st == 9 {
        Some(0)
    } else if 1 <= st && st <= 4 {
        Some(st as u64)
    } else if st == 5 {
        Some(6)
    } else if st == 6 || st == 7 {
        Some(8)
    } else if st >= 12 {
        Some(((st - 12) / 2) as u64)
    } else {
        None
    }
}

/// Decodes the value of serial type `st` from the `width` bytes at `pos`.
pub(crate) fn decode_value(input: &[u8], pos: usize, st: i64, width: usize) -> (r: Option<Data>)
    requires
        serial_type_width(st) == Some(width as nat),
        pos + width <= input@.len(),
    ensures
        match spec_value(st, input@.subrange(pos as int, pos + width)) {
            Some(v) => r matches Some(d) && d@ == v,
            None => r.is_none(),
        },
{
    if st == 0 {
        Some(Data::Null)
    } else if st == 8 {
        Some(Data::Integer(0))
    } else if st == 9 {
        Some(Data::Integer(1))
    } else if st == 7 {
        Some(Data::Float(read_be(input, pos, 8)))
    } else if 1 <= st && st <= 6 {
        Some(Data::Integer(read_be_signed(input, pos, width)))
    } else {
        assert(pos + width <= input.len());
        let body = slice_to_vec(slice_subrange(input, pos, pos + width));
        if st % 2 == 0 {
            Some(Data::Blob(body))
        } else {
            match string_from_utf8(body) {
                Some(s) => Some(Data::Text(s)),
                None => None,
            }
        }
    }
}

/// Decodes the record at the start of `input`: its values in order, and the
/// input that follows it.
///
/// Fails with `Truncated` where the input ends inside the header or a value,
/// with `ReservedSerialType` on a serial type that is negative, 10 or 11, and
/// with `InvalidUtf8` on text that is not UTF-8; the first failure in reading
/// order is reported.
pub fn parse_record(input: &[u8]) -> (r: Result<(&[u8], Vec<Data>), Error>)
    ensures
        match spec_parse_record(input@) {
            Ok((values, n)) => r matches Ok((rest, data)) && data.deep_view() == values && n
                <= input@.len() && rest@ == input@.skip(n as int),
            Err(e) => r matches Err(f) && f == e && e.within(input@.len()),
        },
{
    reveal(spec_parse_record);
    let len = input.len();
    assert(input@.skip(0) =~= input@);
    let (header_size, start) = match varint_at(input, 0) {
        Ok(found) => found,
        Err(e) => {
            return Err(e);
        },
    };
    let mut types: Vec<i64> = Vec::new();
    let mut pos: usize = start;
    let mut remaining: i64 = if header_size > start as i64 {
        header_size - start as i64
    } else {
        0
    };
    while remaining > 0
        invariant
            len == input@.len(),
            pos <= len,
            spec_varint(input@) == Some((header_size, start as nat)),
            spec_serial_types(input@, start as nat, header_size - start, Seq::empty())
                == spec_serial_types(input@, pos as nat, remaining as int, types@),
        decreases
                if remaining > 0 {
                    remaining
                } else {
                    0
                },
    {
        reveal(spec_parse_record);
        match varint_at(input, pos) {
            Ok((st, next)) => {
                types.push(st);
                remaining = remaining - (next - pos) as i64;
                pos = next;
            },
            Err(e) => {
                return Err(e);
            },
        }
    }
    let mut values: Vec<Data> = Vec::new();
    let mut i: usize = 0;
    assert(values.deep_view() =~= Seq::empty());
    while i < types.len()
        invariant
            len == input@.len(),
            pos <= len,
            i <= types.len(),
            spec_parse_record(input@) == spec_values(
                input@,
                types@,
                i as nat,
                pos as nat,
                values.deep_view(),
            ),
        decreases types.len() - i,
    {
        let st = types[i];
        let width = match serial_width(st) {
            Some(w) => w,
            None => {
                return Err(Error::ReservedSerialType { offset: 0 });
            },
        };
        if width > (len - pos) as u64 {
            return Err(Error::Truncated { offset: pos });
        }
        let ghost before = values.deep_view();
        match decode_value(input, pos, st, width as usize) {
            Some(d) => {
                values.push(d);
                assert(values.deep_view() =~= before.push(d@));
            },
            None => {
                return Err(Error::InvalidUtf8 { offset: pos });
            },
        }
        pos = pos + width as usize;
        i += 1;
    }
    let rest = slice_subrange(input, pos, len);
    Ok((rest, values))
}

} // verus!
