use vstd::prelude::*;
use bitsetium::{BitEmpty, BitSet, BitTest};

verus! {

/// A set of grid cells packed into bits, eight cells per byte.
pub type PassabilitySet = [u8; 200];

/// Number of cells a `PassabilitySet` can hold.
pub const SET_CAPACITY: usize = 1600;

/// Whether bit `idx` of a packed byte array is set, bit `i % 8` of byte
/// `i / 8` standing for index `i`; indices past the array are never set.
pub open spec fn bit_is_set(bits: Seq<u8>, idx: int) -> bool {
    0 <= idx < 8 * bits.len() && (bits[idx / 8] & (1u8 << ((idx % 8) as u8))) != 0u8
}

/// `<[u8; 200] as bitsetium::BitEmpty>::empty`: an array of zero bytes.
#[verifier::external_body]
pub(crate) fn bitset_empty() -> (r: PassabilitySet)
    ensures
        forall|i: int| 0 <= i < 200 ==> #[trigger] r@[i] == 0u8,
{
    <[u8; 200] as BitEmpty>::empty()
}

/// `<[u8; 200] as bitsetium::BitTest>::test`: whether bit `idx` is set
/// (false for an index past the array).
#[verifier::external_body]
pub(crate) fn bitset_test(s: &PassabilitySet, idx: usize) -> (r: bool)
    ensures
        r == bit_is_set(s@, idx as int),
{
    s.test(idx)
}

/// `<[u8; 200] as bitsetium::BitSet>::set`: ors the bit for `idx` into its
/// byte. It panics on an index past the array, which `requires` leaves out.
#[verifier::external_body]
pub(crate) fn bitset_set(s: &mut PassabilitySet, idx: usize)
    requires
        idx < 1600,
    ensures
        final(s)@ == old(s)@.update(
            idx as int / 8,
            old(s)@[idx as int / 8] | (1u8 << ((idx as int % 8) as u8)),
        ),
{
    BitSet::set(s, idx)
}

proof fn lemma_byte_or_bit(b: u8, k: u8, m: u8)
    requires
        k < 8,
        m < 8,
    ensures
        ((b | (1u8 << k)) & (1u8 << m) != 0u8) == (k == m || (b & (1u8 << m)) != 0u8),
{
    assert(((b | (1u8 << k)) & (1u8 << m) != 0u8) == (k == m || (b & (1u8 << m)) != 0u8))
        by (bit_vector)
        requires
            k < 8,
            m < 8,
    ;
}

proof fn lemma_zero_byte(m: u8)
    requires
        m < 8,
    ensures
        (0u8 & (1u8 << m)) == 0u8,
{
    assert((0u8 & (1u8 << m)) == 0u8) by (bit_vector);
}

/// Setting a bit sets exactly that bit.
pub proof fn lemma_set_bit(old_bits: Seq<u8>, new_bits: Seq<u8>, idx: int)
    requires
        old_bits.len() == 200,
        0 <= idx < 1600,
        new_bits == old_bits.update(idx / 8, old_bits[idx / 8] | (1u8 << ((idx % 8) as u8))),
    ensures
        forall|j: int| #[trigger] bit_is_set(new_bits, j) == (j == idx || bit_is_set(old_bits, j)),
{
    assert forall|j: int| #[trigger] bit_is_set(new_bits, j) == (j == idx || bit_is_set(old_bits, j)) by {
        if 0 <= j < 1600 {
            if j / 8 == idx / 8 {
                lemma_byte_or_bit(old_bits[idx / 8], (idx % 8) as u8, (j % 8) as u8);
            }
        }
    }
}

/// No bit of an all-zero array is set.
pub proof fn lemma_empty_bits(bits: Seq<u8>)
    requires
        forall|i: int| 0 <= i < bits.len() ==> #[trigger] bits[i] == 0u8,
    ensures
        forall|j: int| !#[trigger] bit_is_set(bits, j),
{
    assert forall|j: int| !#[trigger] bit_is_set(bits, j) by {
        if 0 <= j < 8 * bits.len() {
            lemma_zero_byte((j % 8) as u8);
        }
    }
}

} // verus!
