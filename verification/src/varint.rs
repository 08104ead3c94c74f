//! The variable-length integer of the file format: one to nine bytes, most
//! significant group first. Each of the first eight bytes carries seven bits
//! and a continuation flag; a ninth byte carries eight bits.

use crate::error::Error;
use vstd::arithmetic::div_mod::{lemma_mod_breakdown, lemma_small_mod};
use vstd::prelude::*;
use vstd::slice::slice_subrange;

verus! {

/// The length of the varint that starts `bytes`, given that the bytes before
/// index `i` all have the continuation flag set; `None` when the input ends
/// before the varint does.
pub open spec fn varint_scan(bytes: Seq<u8>, i: nat) -> Option<nat>
    decreases 9 - i,
{
    if i >= bytes.len() {
        None
    } else if i >= 8 || bytes[i as int] < 0x80 {
        Some(i + 1)
    } else {
        varint_scan(bytes, i + 1)
    }
}

/// The length of the varint that starts `bytes`.
pub open spec fn varint_len(bytes: Seq<u8>) -> Option<nat> {
    varint_scan(bytes, 0)
}

/// The base-128 number made of the low seven bits of the first `k` bytes.
pub open spec fn varint_groups(bytes: Seq<u8>, k: nat) -> nat
    decreases k,
{
    if k == 0 {
        0
    } else {
        varint_groups(bytes, (k - 1) as nat) * 128 + (bytes[k - 1] % 128) as nat
    }
}

/// The 64-bit pattern that a varint of `n` bytes holds.
pub open spec fn varint_bits(bytes: Seq<u8>, n: nat) -> nat {
    if n < 9 {
        varint_groups(bytes, n)
    } else {
        varint_groups(bytes, 8) * 256 + bytes[8] as nat
    }
}

/// The two's complement reading of a 64-bit pattern.
pub open spec fn signed64(bits: nat) -> int {
    if bits < 0x8000_0000_0000_0000 {
        bits as int
    } else {
        bits - 0x1_0000_0000_0000_0000
    }
}

/// The value and the length of the varint that starts `bytes`.
pub open spec fn spec_varint(bytes: Seq<u8>) -> Option<(i64, nat)> {
    match varint_len(bytes) {
        Some(n) => Some((signed64(varint_bits(bytes, n)) as i64, n)),
        None => None,
    }
}

/// A scan that succeeds ends after the index it started at, within nine
/// bytes and within the input.
pub proof fn lemma_varint_scan_range(bytes: Seq<u8>, i: nat)
    requires
        i <= 8,
    ensures
        varint_scan(bytes, i) matches Some(n) ==> i < n <= 9 && n <= bytes.len(),
    decreases 9 - i,
{
    if i < bytes.len() && i < 8 && bytes[i as int] >= 0x80 {
        lemma_varint_scan_range(bytes, i + 1);
    }
}

/// A varint is one to nine bytes long and lies within the input.
pub proof fn lemma_varint_len_range(bytes: Seq<u8>)
    ensures
        spec_varint(bytes) matches Some((_, n)) ==> 1 <= n <= 9 && n <= bytes.len(),
{
    lemma_varint_scan_range(bytes, 0);
}

/// 128 to the power `k`.
pub open spec fn pow128(k: nat) -> nat
    decreases k,
{
    if k == 0 {
        1
    } else {
        128 * pow128((k - 1) as nat)
    }
}

/// A number of `k` base-128 digits is below 128 to the `k`.
pub proof fn lemma_varint_groups_bound(bytes: Seq<u8>, k: nat)
    ensures
        varint_groups(bytes, k) < pow128(k),
    decreases k,
{
    if k > 0 {
        lemma_varint_groups_bound(bytes, (k - 1) as nat);
    }
}

/// The powers of 128 up to the ninth.
pub proof fn lemma_pow128_values()
    ensures
        pow128(0) == 1,
        pow128(1) == 0x80,
        pow128(2) == 0x4000,
        pow128(3) == 0x20_0000,
        pow128(4) == 0x1000_0000,
        pow128(5) == 0x8_0000_0000,
        pow128(6) == 0x400_0000_0000,
        pow128(7) == 0x2_0000_0000_0000,
        pow128(8) == 0x100_0000_0000_0000,
        pow128(9) == 0x8000_0000_0000_0000,
{
    reveal_with_fuel(pow128, 10);
}

/// The powers of 128 grow with the exponent.
pub proof fn lemma_pow128_monotonic(i: nat, j: nat)
    requires
        i <= j,
    ensures
        pow128(i) <= pow128(j),
    decreases j,
{
    if i < j {
        lemma_pow128_monotonic(i, (j - 1) as nat);
    }
}

/// Decodes the varint at the start of `input`: its value, and the input that
/// follows it.
pub fn varint(input: &[u8]) -> (r: Result<(&[u8], i64), Error>)
    ensures
        match spec_varint(input@) {
            Some((value, n)) => r matches Ok((rest, v)) && v == value && rest@ == input@.skip(
                n as int,
            ),
            None => r == Err::<(&[u8], i64), Error>(Error::Truncated { offset: 0 }),
        },
{
    let mut acc: u64 = 0;
    let mut i: usize = 0;
    while i < 8
        invariant
            i <= 8,
            i <= input@.len(),
            acc == varint_groups(input@, i as nat),
            varint_scan(input@, 0) == varint_scan(input@, i as nat),
        decreases 8 - i,
    {
        if i >= input.len() {
            return Err(Error::Truncated { offset: 0 });
        }
        let b = input[i];
        proof {
            lemma_varint_groups_bound(input@, i as nat);
            lemma_pow128_monotonic(i as nat, 7);
            lemma_pow128_values();
        }
        let low = (b & 0x7f) as u64;
        assert(low == b % 128) by (bit_vector)
            requires
                low == (b & 0x7f) as u64,
        ;
        let next = (acc << 7) | low;
        assert(next == acc * 128 + low) by (bit_vector)
            requires
                next == (acc << 7) | low,
                acc < 0x2_0000_0000_0000,
                low < 128,
        ;
        acc = next;
        assert((b & 0x80 == 0) == (b < 0x80)) by (bit_vector);
        if b & 0x80 == 0 {
            assert(signed64(acc as nat) == acc) by {
                lemma_varint_groups_bound(input@, (i + 1) as nat);
                lemma_pow128_monotonic((i + 1) as nat, 8);
            }
            let rest = slice_subrange(input, i + 1, input.len());
            return Ok((rest, acc as i64));
        }
        i += 1;
    }
    if input.len() < 9 {
        return Err(Error::Truncated { offset: 0 });
    }
    let b = input[8];
    proof {
        lemma_varint_groups_bound(input@, 8);
        lemma_pow128_values();
    }
    let bits = (acc << 8) | (b as u64);
    assert(bits == acc * 256 + b) by (bit_vector)
        requires
            bits == (acc << 8) | (b as u64),
            acc < 0x100_0000_0000_0000,
    ;
    let value = bits as i64;
    assert(value == signed64(bits as nat)) by (bit_vector)
        requires
            value == bits as i64,
    ;
    let rest = slice_subrange(input, 9, input.len());
    Ok((rest, value))
}

/// The 64-bit pattern of a signed value in two's complement.
pub open spec fn unsigned64(x: i64) -> nat {
    if x >= 0 {
        x as nat
    } else {
        (x + 0x1_0000_0000_0000_0000) as nat
    }
}

/// The number of bytes in the shortest varint that holds a 64-bit pattern.
pub open spec fn varint_size(bits: nat) -> nat {
    if bits < 0x80 {
        1
    } else if bits < 0x4000 {
        2
    } else if bits < 0x20_0000 {
        3
    } else if bits < 0x1000_0000 {
        4
    } else if bits < 0x8_0000_0000 {
        5
    } else if bits < 0x400_0000_0000 {
        6
    } else if bits < 0x2_0000_0000_0000 {
        7
    } else if bits < 0x100_0000_0000_0000 {
        8
    } else {
        9
    }
}

/// The low `k` base-128 digits of `v`, most significant first, each with the
/// continuation flag set.
pub open spec fn continued_groups(v: nat, k: nat) -> Seq<u8>
    decreases k,
{
    if k == 0 {
        Seq::empty()
    } else {
        continued_groups(v / 128, (k - 1) as nat).push((v % 128 + 128) as u8)
    }
}

/// The shortest varint that decodes to `x`.
pub open spec fn spec_encode_varint(x: i64) -> Seq<u8> {
    let bits = unsigned64(x);
    let n = varint_size(bits);
    if n < 9 {
        continued_groups(bits / 128, (n - 1) as nat).push((bits % 128) as u8)
    } else {
        continued_groups(bits / 256, 8).push((bits % 256) as u8)
    }
}

/// The digits that `varint_groups` reads are those of the first `k` bytes.
pub proof fn lemma_varint_groups_prefix(a: Seq<u8>, b: Seq<u8>, k: nat)
    requires
        k <= a.len(),
        k <= b.len(),
        forall|j: int| 0 <= j < k ==> a[j] == b[j],
    ensures
        varint_groups(a, k) == varint_groups(b, k),
    decreases k,
{
    if k > 0 {
        lemma_varint_groups_prefix(a, b, (k - 1) as nat);
    }
}

/// A run of continued bytes and a closing byte scan as one varint.
pub proof fn lemma_varint_scan_found(bytes: Seq<u8>, n: nat, i: nat)
    requires
        1 <= n <= 9,
        n <= bytes.len(),
        i < n,
        forall|j: int| 0 <= j < n - 1 ==> bytes[j] >= 0x80,
        n < 9 ==> bytes[n - 1] < 0x80,
    ensures
        varint_scan(bytes, i) == Some(n),
    decreases n - i,
{
    if i + 1 < n {
        lemma_varint_scan_found(bytes, n, i + 1);
    }
}

/// The continued digits of `v` are `k` bytes with the flag set, and spell
/// `v` as far as `k` digits hold it.
pub proof fn lemma_continued_groups(v: nat, k: nat)
    ensures
        continued_groups(v, k).len() == k,
        forall|j: int| 0 <= j < k ==> #[trigger] continued_groups(v, k)[j] >= 0x80,
        varint_groups(continued_groups(v, k), k) == v % pow128(k),
    decreases k,
{
    if k > 0 {
        let head = continued_groups(v / 128, (k - 1) as nat);
        let all = continued_groups(v, k);
        lemma_continued_groups(v / 128, (k - 1) as nat);
        lemma_varint_groups_prefix(all, head, (k - 1) as nat);
        lemma_pow128_positive((k - 1) as nat);
        lemma_mod_breakdown(v as int, 128, pow128((k - 1) as nat) as int);
        assert(all[k - 1] % 128 == v % 128);
        assert(128 * ((v / 128) % pow128((k - 1) as nat)) == ((v / 128) % pow128((k - 1) as nat))
            * 128) by (nonlinear_arith);
    }
}

/// A power of 128 is positive.
pub proof fn lemma_pow128_positive(k: nat)
    ensures
        pow128(k) > 0,
    decreases k,
{
    if k > 0 {
        lemma_pow128_positive((k - 1) as nat);
    }
}

/// Decoding the shortest encoding of `x`, whatever follows it, gives `x` back
/// and consumes exactly the encoding, which is one to nine bytes long.
pub proof fn lemma_varint_round_trip(x: i64, tail: Seq<u8>)
    ensures
        1 <= spec_encode_varint(x).len() <= 9,
        spec_encode_varint(x).len() == varint_size(unsigned64(x)),
        spec_varint(spec_encode_varint(x) + tail) == Some((x, spec_encode_varint(x).len())),
{
    let bits = unsigned64(x);
    let n = varint_size(bits);
    let enc = spec_encode_varint(x);
    let all = enc + tail;
    lemma_pow128_values();
    if n < 9 {
        let head = continued_groups(bits / 128, (n - 1) as nat);
        lemma_continued_groups(bits / 128, (n - 1) as nat);
        assert(enc.len() == n);
        assert forall|j: int| 0 <= j < n - 1 implies all[j] >= 0x80 by {
            assert(all[j] == head[j]);
        }
        assert(all[n - 1] == (bits % 128) as u8);
        lemma_varint_scan_found(all, n, 0);
        lemma_varint_groups_prefix(all, head, (n - 1) as nat);
        reveal_with_fuel(pow128, 10);
        lemma_mod_breakdown(bits as int, 128, pow128((n - 1) as nat) as int);
        assert(128 * ((bits / 128) % pow128((n - 1) as nat)) == ((bits / 128) % pow128(
            (n - 1) as nat,
        )) * 128) by (nonlinear_arith);
        assert(bits < pow128(n));
        assert(128 * pow128((n - 1) as nat) == pow128(n));
        lemma_small_mod(bits, pow128(n));
        assert(varint_groups(all, n) == bits);
    } else {
        let head = continued_groups(bits / 256, 8);
        lemma_continued_groups(bits / 256, 8);
        assert(enc.len() == 9);
        assert forall|j: int| 0 <= j < 8 implies all[j] >= 0x80 by {
            assert(all[j] == head[j]);
        }
        lemma_varint_scan_found(all, 9, 0);
        lemma_varint_groups_prefix(all, head, 8);
        assert(bits / 256 < pow128(8));
        assert((bits / 256) % pow128(8) == bits / 256);
        assert(all[8] == (bits % 256) as u8);
        assert(varint_bits(all, 9) == bits);
    }
    assert(signed64(bits) == x);
}

/// Decodes the varint that starts at `pos` in `input`: its value, and the
/// position after it. A position past the end of the input is the start of
/// a truncated varint.
pub fn varint_at(input: &[u8], pos: usize) -> (r: Result<(i64, usize), Error>)
    ensures
        pos > input@.len() ==> r == Err::<(i64, usize), Error>(Error::Truncated { offset: pos }),
        pos <= input@.len() ==> match spec_varint(input@.skip(pos as int)) {
            Some((value, n)) => 1 <= n <= 9 && pos + n <= input@.len() && r == Ok::<
                (i64, usize),
                Error,
            >((value, (pos + n) as usize)),
            None => r == Err::<(i64, usize), Error>(Error::Truncated { offset: pos }),
        },
{
    if pos > input.len() {
        return Err(Error::Truncated { offset: pos });
    }
    let field = slice_subrange(input, pos, input.len());
    assert(field@ =~= input@.skip(pos as int));
    proof {
        lemma_varint_len_range(field@);
    }
    match varint(field) {
        Ok((rest, value)) => Ok((value, input.len() - rest.len())),
        Err(_) => Err(Error::Truncated { offset: pos }),
    }
}

/// Appends the low `k` base-128 digits of `v`, each with the continuation
/// flag set.
fn push_continued_groups(out: &mut Vec<u8>, v: u64, k: usize)
    ensures
        final(out)@ == old(out)@ + continued_groups(v as nat, k as nat),
    decreases k,
{
    if k > 0 {
        push_continued_groups(out, v / 128, k - 1);
        out.push((v % 128 + 128) as u8);
        assert(out@ =~= old(out)@ + continued_groups(v as nat, k as nat));
    } else {
        assert(out@ =~= old(out)@ + continued_groups(v as nat, k as nat));
    }
}

/// The shortest varint that decodes to `x`.
pub fn encode_varint(x: i64) -> (r: Vec<u8>)
    ensures
        r@ == spec_encode_varint(x),
{
    let bits = x as u64;
    assert((x >= 0 ==> bits == x) && (x < 0 ==> bits == x + 0x1_0000_0000_0000_0000))
        by (bit_vector)
        requires
            bits == x as u64,
    ;
    let size: usize = if bits < 0x80 {
        1
    } else if bits < 0x4000 {
        2
    } else if bits < 0x20_0000 {
        3
    } else if bits < 0x1000_0000 {
        4
    } else if bits < 0x8_0000_0000 {
        5
    } else if bits < 0x400_0000_0000 {
        6
    } else if bits < 0x2_0000_0000_0000 {
        7
    } else if bits < 0x100_0000_0000_0000 {
        8
    } else {
        9
    };
    let mut out: Vec<u8> = Vec::new();
    if size < 9 {
        push_continued_groups(&mut out, bits / 128, size - 1);
        out.push((bits % 128) as u8);
    } else {
        push_continued_groups(&mut out, bits / 256, 8);
        out.push((bits % 256) as u8);
    }
    assert(out@ =~= spec_encode_varint(x));
    out
}

} // verus!
