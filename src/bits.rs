//! Packed bit storage: bit `i` of a byte buffer lives in byte `i / 8` under
//! the mask `1 << (i % 8)`.

use vstd::prelude::*;

verus! {

/// Number of bytes that hold `n` bits.
pub open spec fn byte_len(n: nat) -> nat {
    if n % 8 == 0 {
        n / 8
    } else {
        n / 8 + 1
    }
}

/// The mask that selects bit `k` of a byte.
pub open spec fn mask(k: int) -> u8 {
    (1u8 << (k as u8)) as u8
}

/// Whether bit `i` of the buffer is set.
pub open spec fn bit_of(bytes: Seq<u8>, i: int) -> bool {
    bytes[i / 8] & mask(i % 8) != 0
}

proof fn lemma_or_mask(b: u8, k: u8, j: u8)
    requires
        k < 8,
        j < 8,
    ensures
        ((b | (1u8 << k)) & (1u8 << j) != 0) == (j == k || b & (1u8 << j) != 0),
{
    assert(((b | (1u8 << k)) & (1u8 << j) != 0) == (j == k || b & (1u8 << j) != 0))
        by (bit_vector)
        requires
            k < 8,
            j < 8,
    ;
}

proof fn lemma_and_not_mask(b: u8, k: u8, j: u8)
    requires
        k < 8,
        j < 8,
    ensures
        ((b & !(1u8 << k)) & (1u8 << j) != 0) == (j != k && b & (1u8 << j) != 0),
{
    assert(((b & !(1u8 << k)) & (1u8 << j) != 0) == (j != k && b & (1u8 << j) != 0))
        by (bit_vector)
        requires
            k < 8,
            j < 8,
    ;
}

proof fn lemma_zero_byte(j: u8)
    requires
        j < 8,
    ensures
        0u8 & (1u8 << j) == 0,
{
    assert(0u8 & (1u8 << j) == 0) by (bit_vector);
}

/// A buffer of zero bytes has no bit set.
pub proof fn lemma_zeroed(bytes: Seq<u8>, n: int)
    requires
        forall|k: int| 0 <= k < bytes.len() ==> bytes[k] == 0,
        0 <= n <= 8 * bytes.len(),
    ensures
        forall|i: int| 0 <= i < n ==> !bit_of(bytes, i),
{
    assert forall|i: int| 0 <= i < n implies !bit_of(bytes, i) by {
        lemma_zero_byte((i % 8) as u8);
    }
}

/// The byte that holds bit `index` once that bit is written to `value`.
pub open spec fn written_byte(bytes: Seq<u8>, index: int, value: bool) -> u8 {
    if value {
        bytes[index / 8] | mask(index % 8)
    } else {
        bytes[index / 8] & !mask(index % 8)
    }
}

/// Writing one bit's byte changes that bit and no other.
pub proof fn lemma_write_bit(bytes: Seq<u8>, index: int, value: bool)
    requires
        0 <= index < 8 * bytes.len(),
    ensures
        forall|i: int|
            0 <= i < 8 * bytes.len() ==> #[trigger] bit_of(
                bytes.update(index / 8, written_byte(bytes, index, value)),
                i,
            ) == if i == index {
                value
            } else {
                bit_of(bytes, i)
            },
{
    let after = bytes.update(index / 8, written_byte(bytes, index, value));
    let b = bytes[index / 8];
    let k = (index % 8) as u8;
    assert forall|i: int| 0 <= i < 8 * bytes.len() implies #[trigger] bit_of(after, i) == if i
        == index {
        value
    } else {
        bit_of(bytes, i)
    } by {
        if i / 8 == index / 8 {
            let j = (i % 8) as u8;
            if value {
                lemma_or_mask(b, k, j);
            } else {
                lemma_and_not_mask(b, k, j);
            }
        }
    }
}

} // verus!
