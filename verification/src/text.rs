//! Text values: UTF-8 bytes and the strings they spell.

use crate::order::{compare_bytes, lemma_bytes_order_equal, Order};
use vstd::prelude::*;
use vstd::utf8::{decode_utf8, encode_utf8, encode_utf8_decode_utf8, valid_utf8};

verus! {

/// `String::from_utf8`, with its error dropped: the string that `bytes` spell
/// in UTF-8, or `None` where they are not valid UTF-8.
#[verifier::external_body]
pub(crate) fn string_from_utf8(bytes: Vec<u8>) -> (r: Option<String>)
    ensures
        r is Some <==> valid_utf8(bytes@),
        r matches Some(s) ==> s@ == decode_utf8(bytes@),
{
    match String::from_utf8(bytes) {
        Ok(s) => Some(s),
        Err(_) => None,
    }
}

/// Whether two strings spell the same text.
pub fn same_text(a: &str, b: &str) -> (r: bool)
    ensures
        r == (a@ == b@),
{
    let order = compare_bytes(a.as_bytes(), b.as_bytes());
    proof {
        lemma_bytes_order_equal(encode_utf8(a@), encode_utf8(b@), 0);
        encode_utf8_decode_utf8(a@);
        encode_utf8_decode_utf8(b@);
    }
    match order {
        Order::Equal => true,
        _ => false,
    }
}

} // verus!
