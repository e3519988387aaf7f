//! Lemmas about single bits of a `u64`, shared by the bit-packed set types
//! ([`crate::cards::CardsSet`] and [`crate::bitboard::BitBoard`]).

use vstd::prelude::*;

verus! {

/// True iff bit `k` of `b` is set.
pub open spec fn bit(b: u64, k: u64) -> bool {
    (b >> k) & 1 == 1
}

/// A bitwise or sets exactly the bits set on either side.
pub proof fn lemma_bit_or(a: u64, b: u64)
    by (bit_vector)
    ensures
        forall|k: u64| k < 64 ==> (#[trigger] bit(a | b, k) == (bit(a, k) || bit(b, k))),
{
}

/// A bitwise and-not clears exactly the bits set on the right side.
pub proof fn lemma_bit_diff(a: u64, b: u64)
    by (bit_vector)
    ensures
        forall|k: u64| k < 64 ==> (#[trigger] bit(a & !b, k) == (bit(a, k) && !bit(b, k))),
{
}

/// A bitwise and keeps exactly the bits set on both sides.
pub proof fn lemma_bit_and(a: u64, b: u64)
    by (bit_vector)
    ensures
        forall|k: u64| k < 64 ==> (#[trigger] bit(a & b, k) == (bit(a, k) && bit(b, k))),
{
}

/// `1 << ix` has exactly bit `ix` set.
pub proof fn lemma_bit_single(ix: u64)
    by (bit_vector)
    ensures
        forall|k: u64| k < 64 && ix < 64 ==> (#[trigger] bit(1u64 << ix, k) == (k == ix)),
{
}

/// Zero has no bits set.
pub proof fn lemma_bit_zero()
    by (bit_vector)
    ensures
        forall|k: u64| k < 64 ==> !#[trigger] bit(0u64, k),
{
}

/// Reads one bit of a word.
pub fn test_bit(b: u64, k: u64) -> (r: bool)
    requires
        k < 64,
    ensures
        r == bit(b, k),
{
    let masked = b & (1u64 << k);
    proof {
        lemma_bit_and(b, 1u64 << k);
        lemma_bit_single(k);
        lemma_bit_zero();
        if masked != 0 {
            lemma_nonzero_bit(masked);
            let w = choose|w: u64| w < 64 && bit(masked, w);
            assert(w == k);
        } else {
            assert(!bit(masked, k));
        }
    }
    masked != 0
}

/// A non-zero word has at least one set bit.
pub proof fn lemma_nonzero_bit(b: u64)
    ensures
        b != 0 ==> exists|k: u64| k < 64 && #[trigger] bit(b, k),
    decreases b,
{
    if b != 0 {
        if b & 1 == 1 {
            assert(bit(b, 0)) by (bit_vector)
                requires
                    b & 1 == 1,
            ;
        } else {
            let half = b >> 1u64;
            assert((b >> 1u64) < b && (b >> 1u64) != 0) by (bit_vector)
                requires
                    b != 0 && b & 1 != 1,
            ;
            lemma_nonzero_bit(half);
            let k = choose|k: u64| k < 64 && bit(half, k);
            assert(!bit(b >> 1u64, 63)) by (bit_vector);
            assert(k < 63);
            assert(forall|k: u64| k < 63 ==> (#[trigger] bit(b >> 1u64, k) == bit(
                b,
                (k + 1) as u64,
            ))) by (bit_vector);
            assert(bit(b, (k + 1) as u64));
        }
    }
}

} // verus!
