//! Big-endian integers, as the file format stores them.

use vstd::prelude::*;

verus! {

/// 256 to the power `k`.
pub open spec fn pow256(k: nat) -> nat
    decreases k,
{
    if k == 0 {
        1
    } else {
        256 * pow256((k - 1) as nat)
    }
}

/// The number that `bytes` spell, most significant byte first.
pub open spec fn be_unsigned(bytes: Seq<u8>) -> nat
    decreases bytes.len(),
{
    if bytes.len() == 0 {
        0
    } else {
        be_unsigned(bytes.drop_last()) * 256 + bytes.last() as nat
    }
}

/// The number that `bytes` spell in two's complement, most significant byte
/// first.
pub open spec fn be_signed(bytes: Seq<u8>) -> int {
    if bytes.len() > 0 && bytes[0] >= 0x80 {
        be_unsigned(bytes) - pow256(bytes.len())
    } else {
        be_unsigned(bytes) as int
    }
}

/// The powers of 256 up to the eighth.
pub proof fn lemma_pow256_values()
    ensures
        pow256(0) == 1,
        pow256(1) == 0x100,
        pow256(2) == 0x1_0000,
        pow256(3) == 0x100_0000,
        pow256(4) == 0x1_0000_0000,
        pow256(5) == 0x100_0000_0000,
        pow256(6) == 0x1_0000_0000_0000,
        pow256(7) == 0x100_0000_0000_0000,
        pow256(8) == 0x1_0000_0000_0000_0000,
{
    reveal_with_fuel(pow256, 9);
}

/// The powers of 256 grow with the exponent.
pub proof fn lemma_pow256_monotonic(i: nat, j: nat)
    requires
        i <= j,
    ensures
        pow256(i) <= pow256(j),
    decreases j,
{
    if i < j {
        lemma_pow256_monotonic(i, (j - 1) as nat);
    }
}

/// A number of `n` bytes is below 256 to the `n`, and at least half of that
/// exactly when its first byte has the top bit set.
pub proof fn lemma_be_unsigned_bound(bytes: Seq<u8>)
    ensures
        be_unsigned(bytes) < pow256(bytes.len()),
        bytes.len() > 0 ==> bytes[0] * pow256((bytes.len() - 1) as nat) <= be_unsigned(bytes) < (
        bytes[0] + 1) * pow256((bytes.len() - 1) as nat),
    decreases bytes.len(),
{
    if bytes.len() > 0 {
        let init = bytes.drop_last();
        lemma_be_unsigned_bound(init);
        if init.len() > 0 {
            assert(init[0] == bytes[0]);
            let p = pow256((init.len() - 1) as nat);
            assert(pow256(init.len()) == 256 * p);
            assert(bytes[0] * (256 * p) == (bytes[0] * p) * 256) by (nonlinear_arith);
            assert((bytes[0] + 1) * (256 * p) == ((bytes[0] + 1) * p) * 256) by (nonlinear_arith);
        } else {
            assert(bytes.last() == bytes[0]);
            assert(pow256(0) == 1);
        }
    }
}

/// Reads the `width` bytes of `input` that start at `pos` as one unsigned
/// number.
pub(crate) fn read_be(input: &[u8], pos: usize, width: usize) -> (r: u64)
    requires
        width <= 8,
        pos + width <= input@.len(),
    ensures
        r == be_unsigned(input@.subrange(pos as int, pos + width)),
{
    assert(pos + width <= input.len());
    let mut acc: u64 = 0;
    let mut i: usize = 0;
    while i < width
        invariant
            i <= width <= 8,
            pos + width <= input@.len(),
            pos + width <= usize::MAX,
            acc == be_unsigned(input@.subrange(pos as int, pos + i)),
        decreases width - i,
    {
        proof {
            let done = input@.subrange(pos as int, pos + i);
            let next = input@.subrange(pos as int, pos + i + 1);
            assert(next.drop_last() =~= done);
            lemma_be_unsigned_bound(done);
            lemma_pow256_monotonic(i as nat, 7);
            lemma_pow256_values();
        }
        acc = acc * 256 + input[pos + i] as u64;
        i += 1;
    }
    acc
}

/// Reads the `width` bytes of `input` that start at `pos` as one number in
/// two's complement.
pub(crate) fn read_be_signed(input: &[u8], pos: usize, width: usize) -> (r: i64)
    requires
        1 <= width <= 8,
        pos + width <= input@.len(),
    ensures
        r == be_signed(input@.subrange(pos as int, pos + width)),
{
    let raw = read_be(input, pos, width);
    let ghost field = input@.subrange(pos as int, pos + width);
    proof {
        lemma_be_unsigned_bound(field);
        lemma_pow256_values();
        lemma_pow256_monotonic(width as nat, 8);
        assert(field[0] == input@[pos as int]);
    }
    if input[pos] < 0x80 {
        proof {
            let p = pow256((width - 1) as nat);
            lemma_pow256_monotonic((width - 1) as nat, 7);
            assert((field[0] + 1) * p <= 0x80 * p) by (nonlinear_arith)
                requires
                    field[0] + 1 <= 0x80,
                    p >= 0,
            ;
        }
        raw as i64
    } else {
        let mut modulus: i128 = 1;
        let mut i: usize = 0;
        while i < width
            invariant
                i <= width <= 8,
                modulus == pow256(i as nat),
            decreases width - i,
        {
            proof {
                lemma_pow256_values();
                lemma_pow256_monotonic(i as nat, 7);
            }
            modulus = modulus * 256;
            i += 1;
        }
        proof {
            let p = pow256((width - 1) as nat);
            assert(pow256(width as nat) == 256 * p);
            assert(field[0] * p >= 0x80 * p) by (nonlinear_arith)
                requires
                    field[0] >= 0x80,
                    p >= 0,
            ;
        }
        (raw as i128 - modulus) as i64
    }
}

/// Appends the bytes of `src` to `dst`.
pub fn push_all(dst: &mut Vec<u8>, src: &[u8])
    ensures
        final(dst)@ == old(dst)@ + src@,
{
    let mut i: usize = 0;
    while i < src.len()
        invariant
            i <= src@.len(),
            dst@ == old(dst)@ + src@.take(i as int),
        decreases src@.len() - i,
    {
        dst.push(src[i]);
        assert(src@.take(i + 1) =~= src@.take(i as int).push(src@[i as int]));
        i += 1;
    }
    assert(src@.take(src@.len() as int) =~= src@);
}

} // verus!
