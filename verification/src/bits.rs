//! Bit-level model of packed 64-bit words: reading a single bit, counting set
//! bits, and the small bit-vector lemmas the packed representation rests on.
use vstd::prelude::*;

verus! {

/// Bit `j` of the word `w`, as a boolean.
pub open spec fn word_bit(w: u64, j: u64) -> bool {
    (w >> j) & 1u64 == 1u64
}

/// Bit `i` of a sequence of words, the words concatenated low bit first.
pub open spec fn seq_bit(s: Seq<u64>, i: int) -> bool {
    word_bit(s[i / 64], (i % 64) as u64)
}

/// Number of set bits of `w` among the bits strictly below position `j`.
pub open spec fn count_bits_below(w: u64, j: int) -> int
    decreases j,
{
    if j <= 0 {
        0
    } else {
        count_bits_below(w, j - 1) + if word_bit(w, (j - 1) as u64) {
            1int
        } else {
            0int
        }
    }
}

/// Number of set bits of the whole word.
pub open spec fn popcount(w: u64) -> int {
    count_bits_below(w, 64)
}

pub proof fn lemma_count_bits_below_bounds(w: u64, j: int)
    ensures
        0 <= count_bits_below(w, j) <= if j <= 0 {
            0int
        } else {
            j
        },
    decreases j,
{
    if j > 0 {
        lemma_count_bits_below_bounds(w, j - 1);
    }
}

pub proof fn lemma_popcount_bounds(w: u64)
    ensures
        0 <= popcount(w) <= 64,
{
    lemma_count_bits_below_bounds(w, 64);
}

/// Setting bit `j` by an `or` leaves every other bit as it was.
pub proof fn lemma_or_single_bit(w: u64, j: u64, k: u64)
    by (bit_vector)
    requires
        j < 64,
        k < 64,
    ensures
        word_bit(w | (1u64 << j), k) == (k == j || word_bit(w, k)),
{
}

/// A bit of an exclusive or is the inequality of the operands' bits.
pub proof fn lemma_xor_bit(a: u64, b: u64, k: u64)
    by (bit_vector)
    requires
        k < 64,
    ensures
        word_bit(a ^ b, k) == (word_bit(a, k) != word_bit(b, k)),
{
}

/// A bit of a negated exclusive or is the equality of the operands' bits.
pub proof fn lemma_xnor_bit(a: u64, b: u64, k: u64)
    by (bit_vector)
    requires
        k < 64,
    ensures
        word_bit(!(a ^ b), k) == (word_bit(a, k) == word_bit(b, k)),
{
}

/// The zero word has no set bit.
pub proof fn lemma_zero_bit(k: u64)
    by (bit_vector)
    requires
        k < 64,
    ensures
        !word_bit(0u64, k),
{
}

/// Exclusive or is its own inverse, word by word.
pub proof fn lemma_xor_self_inverse(a: u64, b: u64)
    by (bit_vector)
    ensures
        (a ^ b) ^ b == a,
        a ^ a == 0u64,
{
}

/// Merging under a mask picks each bit from `y` where the mask is set and
/// from `x` where it is clear.
pub proof fn lemma_mask_merge_bit(x: u64, y: u64, m: u64, k: u64)
    by (bit_vector)
    requires
        k < 64,
    ensures
        word_bit((x & !m) | (y & m), k) == if word_bit(m, k) {
            word_bit(y, k)
        } else {
            word_bit(x, k)
        },
{
}

/// Flipping one clear bit raises the count of set bits below `j` by one
/// exactly when the flipped position lies below `j`.
pub proof fn lemma_count_bits_flip(w: u64, t: u64, j: int)
    requires
        t < 64,
        j <= 64,
        !word_bit(w, t),
    ensures
        count_bits_below(w ^ (1u64 << t), j) == count_bits_below(w, j) + if t < j {
            1int
        } else {
            0int
        },
    decreases j,
{
    if j > 0 {
        lemma_count_bits_flip(w, t, j - 1);
        let k = (j - 1) as u64;
        assert(word_bit(w ^ (1u64 << t), k) == (k == t || word_bit(w, k))) by (bit_vector)
            requires
                t < 64,
                k < 64,
                !word_bit(w, t),
        ;
    }
}

/// Flipping one clear bit raises the word's popcount by exactly one.
pub proof fn lemma_popcount_flip(w: u64, t: u64)
    requires
        t < 64,
        !word_bit(w, t),
    ensures
        popcount(w ^ (1u64 << t)) == popcount(w) + 1,
{
    lemma_count_bits_flip(w, t, 64);
}

/// Pointwise exclusive or of two equal-length word sequences.
pub open spec fn xor_words(a: Seq<u64>, b: Seq<u64>) -> Seq<u64> {
    Seq::new(a.len(), |i: int| a[i] ^ b[i])
}

/// Hamming distance: how many bit positions of the two packed vectors differ.
pub open spec fn hamming(a: Seq<u64>, b: Seq<u64>) -> int
    decreases a.len(),
{
    if a.len() == 0 {
        0
    } else {
        hamming(a.drop_last(), b.drop_last()) + popcount(a.last() ^ b.last())
    }
}

/// One step of the Hamming sum, for walking the words front to back.
pub proof fn lemma_hamming_step(a: Seq<u64>, b: Seq<u64>, i: int)
    requires
        a.len() == b.len(),
        0 <= i < a.len(),
    ensures
        hamming(a.take(i + 1), b.take(i + 1)) == hamming(a.take(i), b.take(i)) + popcount(
            a[i] ^ b[i],
        ),
{
    assert(a.take(i + 1).drop_last() =~= a.take(i));
    assert(b.take(i + 1).drop_last() =~= b.take(i));
    assert(a.take(i + 1).last() == a[i]);
    assert(b.take(i + 1).last() == b[i]);
}

pub proof fn lemma_hamming_bounds(a: Seq<u64>, b: Seq<u64>)
    requires
        a.len() == b.len(),
    ensures
        0 <= hamming(a, b) <= 64 * a.len(),
    decreases a.len(),
{
    if a.len() > 0 {
        lemma_hamming_bounds(a.drop_last(), b.drop_last());
        lemma_popcount_bounds(a.last() ^ b.last());
    }
}

pub proof fn lemma_popcount_zero()
    ensures
        popcount(0u64) == 0,
{
    assert forall|j: int| 0 <= j <= 64 implies count_bits_below(0u64, j) == 0 by {
        lemma_count_zero_bits(j);
    }
}

proof fn lemma_count_zero_bits(j: int)
    requires
        j <= 64,
    ensures
        count_bits_below(0u64, j) == 0,
    decreases j,
{
    if j > 0 {
        lemma_count_zero_bits(j - 1);
        lemma_zero_bit((j - 1) as u64);
    }
}

/// A vector is at Hamming distance zero from itself.
pub proof fn lemma_hamming_self(a: Seq<u64>)
    ensures
        hamming(a, a) == 0,
    decreases a.len(),
{
    if a.len() > 0 {
        lemma_hamming_self(a.drop_last());
        lemma_xor_self_inverse(a.last(), a.last());
        lemma_popcount_zero();
    }
}

/// The Hamming distance is symmetric.
pub proof fn lemma_hamming_symmetric(a: Seq<u64>, b: Seq<u64>)
    requires
        a.len() == b.len(),
    ensures
        hamming(a, b) == hamming(b, a),
    decreases a.len(),
{
    if a.len() > 0 {
        lemma_hamming_symmetric(a.drop_last(), b.drop_last());
        let x = a.last();
        let y = b.last();
        assert(x ^ y == y ^ x) by (bit_vector);
    }
}

/// Replacing one word of `b` moves the Hamming distance by the difference
/// of the affected word's contributions.
pub proof fn lemma_hamming_update(a: Seq<u64>, b: Seq<u64>, wi: int, w2: u64)
    requires
        a.len() == b.len(),
        0 <= wi < b.len(),
    ensures
        hamming(a, b.update(wi, w2)) == hamming(a, b) - popcount(a[wi] ^ b[wi]) + popcount(
            a[wi] ^ w2,
        ),
    decreases a.len(),
{
    let b2 = b.update(wi, w2);
    if wi == a.len() - 1 {
        assert(b2.drop_last() =~= b.drop_last());
        assert(b2.last() == w2);
    } else {
        lemma_hamming_update(a.drop_last(), b.drop_last(), wi, w2);
        assert(b2.drop_last() =~= b.drop_last().update(wi, w2));
        assert(b2.last() == b.last());
    }
}

/// Counts the set bits of one word.
pub fn word_popcount(w: u64) -> (c: usize)
    ensures
        c == popcount(w),
        c <= 64,
{
    let mut c: usize = 0;
    let mut j: u64 = 0;
    while j < 64
        invariant
            j <= 64,
            c == count_bits_below(w, j as int),
            c <= j,
        decreases 64 - j,
    {
        let b: u64 = (w >> j) & 1u64;
        assert(b == if word_bit(w, j) {
            1u64
        } else {
            0u64
        }) by (bit_vector)
            requires
                b == (w >> j) & 1u64,
        ;
        c = c + b as usize;
        j = j + 1;
    }
    c
}

} // verus!
