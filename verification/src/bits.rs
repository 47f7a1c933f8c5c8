//! Bytes as bits, most significant bit first, one bit per sequence element.

use vstd::prelude::*;

verus! {

/// Bit `k` of a byte, counted from the most significant one.
pub open spec fn byte_bit(b: u8, k: int) -> u8 {
    (b >> ((7 - k) as u8)) & 1u8
}

/// The bits of a byte string, in order.
pub open spec fn unpacked(bytes: Seq<u8>) -> Seq<u8> {
    Seq::new(bytes.len() * 8, |i: int| byte_bit(bytes[i / 8], i % 8))
}

/// The byte whose bits are the low bits of `bits[at], .., bits[at + 7]`.
pub open spec fn byte_at(bits: Seq<u8>, at: int) -> u8 {
    ((bits[at] & 1) << 7u8) | ((bits[at + 1] & 1) << 6u8) | ((bits[at + 2] & 1) << 5u8) | ((bits[at
        + 3] & 1) << 4u8) | ((bits[at + 4] & 1) << 3u8) | ((bits[at + 5] & 1) << 2u8) | ((bits[at
        + 6] & 1) << 1u8) | (bits[at + 7] & 1)
}

/// The bytes that a bit string spells; a trailing partial byte is dropped.
pub open spec fn packed(bits: Seq<u8>) -> Seq<u8> {
    Seq::new(bits.len() / 8, |j: int| byte_at(bits, j * 8))
}

/// Packing undoes unpacking.
pub proof fn theorem_packed_unpacked(bytes: Seq<u8>)
    ensures
        packed(unpacked(bytes)) == bytes,
{
    let bits = unpacked(bytes);
    assert(bits.len() / 8 == bytes.len());
    assert forall|j: int| 0 <= j < bytes.len() implies #[trigger] byte_at(bits, j * 8)
        == bytes[j] by {
        let b = bytes[j];
        assert forall|k: int| 0 <= k < 8 implies #[trigger] bits[j * 8 + k] == byte_bit(b, k) by {
            assert((j * 8 + k) / 8 == j);
            assert((j * 8 + k) % 8 == k);
        }
        assert(bits[j * 8 + 0] == byte_bit(b, 0));
        assert((((((b >> 7u8) & 1) & 1) << 7u8) | ((((b >> 6u8) & 1) & 1) << 6u8) | ((((b >> 5u8)
            & 1) & 1) << 5u8) | ((((b >> 4u8) & 1) & 1) << 4u8) | ((((b >> 3u8) & 1) & 1) << 3u8)
            | ((((b >> 2u8) & 1) & 1) << 2u8) | ((((b >> 1u8) & 1) & 1) << 1u8) | (((b >> 0u8) & 1)
            & 1)) == b) by (bit_vector);
    }
    assert(packed(bits) =~= bytes);
}

/// Unpacking undoes packing of whole bytes of zeros and ones.
pub proof fn theorem_unpacked_packed(bits: Seq<u8>)
    requires
        bits.len() % 8 == 0,
        forall|i: int| 0 <= i < bits.len() ==> #[trigger] bits[i] <= 1,
    ensures
        unpacked(packed(bits)) == bits,
{
    let bytes = packed(bits);
    assert forall|i: int| 0 <= i < bits.len() implies #[trigger] unpacked(bytes)[i] == bits[i] by {
        let j = i / 8;
        let k = i % 8;
        let at = j * 8;
        assert(i == at + k);
        let (b0, b1, b2, b3) = (bits[at], bits[at + 1], bits[at + 2], bits[at + 3]);
        let (b4, b5, b6, b7) = (bits[at + 4], bits[at + 5], bits[at + 6], bits[at + 7]);
        let b = byte_at(bits, at);
        assert(bytes[j] == b);
        assert(b0 <= 1 && b1 <= 1 && b2 <= 1 && b3 <= 1 && b4 <= 1 && b5 <= 1 && b6 <= 1 && b7
            <= 1);
        assert(((b >> 7u8) & 1 == b0) && ((b >> 6u8) & 1 == b1) && ((b >> 5u8) & 1 == b2) && ((b
            >> 4u8) & 1 == b3) && ((b >> 3u8) & 1 == b4) && ((b >> 2u8) & 1 == b5) && ((b >> 1u8)
            & 1 == b6) && ((b >> 0u8) & 1 == b7)) by (bit_vector)
            requires
                b == (((b0 & 1) << 7u8) | ((b1 & 1) << 6u8) | ((b2 & 1) << 5u8) | ((b3 & 1) << 4u8)
                    | ((b4 & 1) << 3u8) | ((b5 & 1) << 2u8) | ((b6 & 1) << 1u8) | (b7 & 1)),
                b0 <= 1 && b1 <= 1 && b2 <= 1 && b3 <= 1 && b4 <= 1 && b5 <= 1 && b6 <= 1 && b7
                    <= 1,
        ;
    }
    assert(unpacked(bytes) =~= bits);
}

/// Every unpacked bit is zero or one.
pub proof fn lemma_unpacked_are_bits(bytes: Seq<u8>)
    ensures
        forall|i: int| 0 <= i < unpacked(bytes).len() ==> #[trigger] unpacked(bytes)[i] <= 1,
{
    assert forall|i: int| 0 <= i < unpacked(bytes).len() implies #[trigger] unpacked(bytes)[i]
        <= 1 by {
        let b = bytes[i / 8];
        let s = (7 - i % 8) as u8;
        assert((b >> s) & 1u8 <= 1) by (bit_vector);
    }
}

/// A byte is the sum of its bits, each worth twice the next: whatever the byte
/// string, its bits are eight for each byte, zeros and ones, and they add up to
/// the byte, the first of them counting 128 and the last 1.
pub proof fn theorem_bits_add_up(bytes: Seq<u8>, j: int)
    requires
        0 <= j < bytes.len(),
    ensures
        unpacked(bytes).len() == 8 * bytes.len(),
        forall|k: int| 0 <= k < 8 ==> #[trigger] unpacked(bytes)[8 * j + k] <= 1,
        bytes[j] == 128 * unpacked(bytes)[8 * j] + 64 * unpacked(bytes)[8 * j + 1] + 32 * unpacked(
            bytes,
        )[8 * j + 2] + 16 * unpacked(bytes)[8 * j + 3] + 8 * unpacked(bytes)[8 * j + 4] + 4
            * unpacked(bytes)[8 * j + 5] + 2 * unpacked(bytes)[8 * j + 6] + unpacked(bytes)[8 * j
            + 7],
{
    let b = bytes[j];
    let u = unpacked(bytes);
    lemma_unpacked_are_bits(bytes);
    assert forall|k: int| 0 <= k < 8 implies #[trigger] u[8 * j + k] == byte_bit(b, k) by {
        assert((8 * j + k) / 8 == j);
        assert((8 * j + k) % 8 == k);
    }
    assert(u[8 * j + 0] == byte_bit(b, 0));
    let (b0, b1, b2, b3) = ((b >> 7u8) & 1, (b >> 6u8) & 1, (b >> 5u8) & 1, (b >> 4u8) & 1);
    let (b4, b5, b6, b7) = ((b >> 3u8) & 1, (b >> 2u8) & 1, (b >> 1u8) & 1, (b >> 0u8) & 1);
    assert(b == 128 * b0 + 64 * b1 + 32 * b2 + 16 * b3 + 8 * b4 + 4 * b5 + 2 * b6 + b7)
        by (bit_vector)
        requires
            b0 == (b >> 7u8) & 1,
            b1 == (b >> 6u8) & 1,
            b2 == (b >> 5u8) & 1,
            b3 == (b >> 4u8) & 1,
            b4 == (b >> 3u8) & 1,
            b5 == (b >> 2u8) & 1,
            b6 == (b >> 1u8) & 1,
            b7 == (b >> 0u8) & 1,
    ;
}

/// A packed byte is the sum of the low bits that it is packed from, the first
/// counting 128 and the last 1.
pub proof fn theorem_packed_adds_up(bits: Seq<u8>, j: int)
    requires
        0 <= j,
        8 * j + 8 <= bits.len(),
    ensures
        packed(bits).len() == bits.len() / 8,
        packed(bits)[j] == 128 * (bits[8 * j] % 2) + 64 * (bits[8 * j + 1] % 2) + 32 * (bits[8 * j
            + 2] % 2) + 16 * (bits[8 * j + 3] % 2) + 8 * (bits[8 * j + 4] % 2) + 4 * (bits[8 * j
            + 5] % 2) + 2 * (bits[8 * j + 6] % 2) + bits[8 * j + 7] % 2,
{
    let at = 8 * j;
    let (b0, b1, b2, b3) = (bits[at], bits[at + 1], bits[at + 2], bits[at + 3]);
    let (b4, b5, b6, b7) = (bits[at + 4], bits[at + 5], bits[at + 6], bits[at + 7]);
    let b = byte_at(bits, at);
    assert(packed(bits)[j] == b);
    assert(b == 128 * (b0 % 2) + 64 * (b1 % 2) + 32 * (b2 % 2) + 16 * (b3 % 2) + 8 * (b4 % 2) + 4 * (
    b5 % 2) + 2 * (b6 % 2) + (b7 % 2)) by (bit_vector)
        requires
            b == (((b0 & 1) << 7u8) | ((b1 & 1) << 6u8) | ((b2 & 1) << 5u8) | ((b3 & 1) << 4u8) | ((
            b4 & 1) << 3u8) | ((b5 & 1) << 2u8) | ((b6 & 1) << 1u8) | (b7 & 1)),
    ;
}

/// Appends the bits of `src`, most significant first, to `dst`.
pub fn unpack_bits_into(dst: &mut Vec<u8>, src: &[u8])
    ensures
        final(dst)@ == old(dst)@ + unpacked(src@),
{
    let ghost before = dst@;
    let mut j: usize = 0;
    while j < src.len()
        invariant
            0 <= j <= src@.len(),
            dst@ == before + unpacked(src@.take(j as int)),
        decreases src@.len() - j,
    {
        let byte: u8 = src[j];
        let ghost start = dst@;
        let mut k: u8 = 0;
        while k < 8
            invariant
                0 <= k <= 8,
                dst@ == start + Seq::new(k as nat, |i: int| byte_bit(byte, i)),
            decreases 8 - k,
        {
            dst.push((byte >> (7 - k)) & 1);
            k = k + 1;
            assert(dst@ =~= start + Seq::new(k as nat, |i: int| byte_bit(byte, i)));
        }
        proof {
            let bits = unpacked(src@.take(j + 1));
            assert(bits =~= unpacked(src@.take(j as int)) + Seq::new(
                8,
                |i: int| byte_bit(byte, i),
            ));
            assert(dst@ =~= before + bits);
        }
        j = j + 1;
    }
    assert(src@.take(j as int) =~= src@);
}

/// The bytes that `bits` spells, most significant bit first; a trailing
/// partial byte is dropped.
pub fn pack_bits(bits: &[u8]) -> (bytes: Vec<u8>)
    ensures
        bytes@ == packed(bits@),
{
    let n: usize = bits.len() / 8;
    let mut bytes: Vec<u8> = Vec::with_capacity(n);
    let mut j: usize = 0;
    while j < n
        invariant
            n == bits@.len() / 8,
            0 <= j <= n,
            bytes@ == packed(bits@).take(j as int),
        decreases n - j,
    {
        assert(j * 8 + 8 <= bits.len());
        let at: usize = j * 8;
        let byte: u8 = ((bits[at] & 1) << 7) | ((bits[at + 1] & 1) << 6) | ((bits[at + 2] & 1) << 5)
            | ((bits[at + 3] & 1) << 4) | ((bits[at + 4] & 1) << 3) | ((bits[at + 5] & 1) << 2) | ((
        bits[at + 6] & 1) << 1) | (bits[at + 7] & 1);
        bytes.push(byte);
        j = j + 1;
        assert(bytes@ =~= packed(bits@).take(j as int));
    }
    assert(bytes@ =~= packed(bits@));
    bytes
}

} // verus!
