//! The bit-packed binary hypervector: bits stored in 64-bit words, binding
//! by exclusive or, word-granular cyclic permutation, weighted majority-vote
//! bundling, and normalized-Hamming similarity.
use vstd::prelude::*;
use vstd::arithmetic::div_mod::{
    lemma_add_mod_noop_right, lemma_fundamental_div_mod_converse_mod, lemma_mod_bound,
    lemma_small_mod,
};
use mersenne_twister_rs::MersenneTwister;
use crate::bits::{
    hamming, lemma_hamming_bounds, lemma_hamming_step, lemma_or_single_bit, lemma_popcount_bounds,
    lemma_zero_bit, popcount, seq_bit, word_bit, word_popcount, xor_words,
};
use crate::rotate::rotated;
use crate::rng::{coin, mt_next_u32};
use crate::majority::majority_bit_ok;

verus! {

/// A binary hypervector. `data` packs the vector's bits into 64-bit words,
/// low bit first, so the dimension is `64 * data.len()` bits. All operators
/// return fresh values; nothing is mutated in place.
#[derive(Debug, PartialEq, Clone)]
pub struct BinaryHDV {
    pub data: Vec<u64>,
}

impl BinaryHDV {
    /// The all-zero vector of `words` machine words.
    pub fn zero(words: usize) -> (r: Self)
        ensures
            r.data@.len() == words,
            forall|i: int| 0 <= i < words ==> r.data@[i] == 0u64,
    {
        BinaryHDV { data: vec![0u64; words] }
    }

    /// The binding identity: exclusive or leaves a vector unchanged exactly
    /// when the other operand has every bit clear.
    pub fn ident(words: usize) -> (r: Self)
        ensures
            r.data@.len() == words,
            forall|i: int| 0 <= i < words ==> r.data@[i] == 0u64,
    {
        Self::zero(words)
    }

    /// A fresh vector of `words` words drawn from the injected generator.
    pub fn random(rng: &mut MersenneTwister, words: usize) -> (r: Self)
        ensures
            r.data@.len() == words,
    {
        let mut data: Vec<u64> = Vec::with_capacity(words);
        let mut i: usize = 0;
        while i < words
            invariant
                data@.len() == i,
                i <= words,
            decreases words - i,
        {
            let hi = mt_next_u32(rng);
            let lo = mt_next_u32(rng);
            data.push(((hi as u64) << 32u64) | (lo as u64));
            i = i + 1;
        }
        BinaryHDV { data }
    }

    /// Whether every bit of the vector is clear.
    pub fn is_zero(&self) -> (r: bool)
        ensures
            r == (forall|i: int| 0 <= i < self.data@.len() ==> self.data@[i] == 0u64),
    {
        let mut i: usize = 0;
        while i < self.data.len()
            invariant
                i <= self.data@.len(),
                forall|j: int| 0 <= j < i ==> self.data@[j] == 0u64,
            decreases self.data@.len() - i,
        {
            if self.data[i] != 0 {
                return false;
            }
            i = i + 1;
        }
        true
    }

    /// Decodes a numeric sample into a vector of `words` words: strictly
    /// positive entries become set bits, everything else stays clear, and
    /// positions past the end of the sample are padded with clear bits. A
    /// sample longer than the dimension is invalid.
    pub fn from_slice(slice: &[i32], words: usize) -> (r: Self)
        requires
            slice@.len() <= 64 * words,
        ensures
            r.data@.len() == words,
            forall|b: int|
                0 <= b < 64 * words ==> (seq_bit(r.data@, b) == (b < slice@.len() && slice@[b]
                    > 0)),
    {
        let mut data: Vec<u64> = vec![0u64; words];
        proof {
            assert forall|b: int| 0 <= b < 64 * words implies !seq_bit(data@, b) by {
                lemma_div_mod_64(b);
                lemma_zero_bit((b % 64) as u64);
            }
        }
        let mut i: usize = 0;
        while i < slice.len()
            invariant
                data@.len() == words,
                i <= slice@.len(),
                slice@.len() <= 64 * words,
                forall|b: int|
                    0 <= b < 64 * words ==> (seq_bit(data@, b) == (b < i && slice@[b] > 0)),
            decreases slice@.len() - i,
        {
            if slice[i] > 0 {
                let w: usize = i / 64;
                let j: u64 = (i % 64) as u64;
                proof {
                    assert(i / 64 < words && i % 64 < 64) by (nonlinear_arith)
                        requires
                            (i as int) < 64 * words,
                            i >= 0,
                            words >= 0,
                    ;
                }
                let old_word = data[w];
                let ghost pre = data@;
                data[w] = old_word | (1u64 << j);
                proof {
                    let ii = i as int;
                    lemma_div_mod_64(ii);
                    assert(data@ == pre.update(w as int, old_word | (1u64 << j)));
                    assert forall|b: int| 0 <= b < 64 * words implies (seq_bit(data@, b) == (b < ii
                        + 1 && slice@[b] > 0)) by {
                        lemma_div_mod_64(b);
                        assert(seq_bit(pre, b) == (b < ii && slice@[b] > 0));
                        if b / 64 == w {
                            lemma_or_single_bit(old_word, j, (b % 64) as u64);
                            if b == ii {
                                assert((b % 64) as u64 == j);
                                assert(seq_bit(data@, b));
                            } else {
                                assert(b % 64 != ii % 64);
                                assert((b % 64) as u64 != j);
                                assert(word_bit(data@[b / 64], (b % 64) as u64) == word_bit(
                                    old_word,
                                    (b % 64) as u64,
                                ));
                            }
                        } else {
                            assert(data@[b / 64] == pre[b / 64]);
                            assert(seq_bit(data@, b) == seq_bit(pre, b));
                        }
                    }
                }
            } else {
                proof {
                    assert forall|b: int| 0 <= b < 64 * words implies (seq_bit(data@, b) == (b < i
                        + 1 && slice@[b] > 0)) by {
                        if b == i {
                            assert(!(slice@[b] > 0));
                        }
                    }
                }
            }
            i = i + 1;
        }
        BinaryHDV { data }
    }

    /// A vector with one byte per bit: 1 where the bit is set, else 0.
    pub fn as_u8_vec(&self) -> (r: Vec<u8>)
        ensures
            r@.len() == 64 * self.data@.len(),
            forall|b: int|
                0 <= b < 64 * self.data@.len() ==> r@[b] == (if seq_bit(self.data@, b) {
                    1u8
                } else {
                    0u8
                }),
    {
        let n = self.data.len();
        let mut out: Vec<u8> = Vec::new();
        let mut i: usize = 0;
        while i < n
            invariant
                i <= n,
                n == self.data@.len(),
                out@.len() == 64 * i,
                forall|b: int|
                    0 <= b < 64 * i ==> out@[b] == (if seq_bit(self.data@, b) {
                        1u8
                    } else {
                        0u8
                    }),
            decreases n - i,
        {
            let w = self.data[i];
            let mut j: u64 = 0;
            while j < 64
                invariant
                    j <= 64,
                    i < n,
                    n == self.data@.len(),
                    w == self.data@[i as int],
                    out@.len() == 64 * i + j,
                    forall|b: int|
                        0 <= b < 64 * i + j ==> out@[b] == (if seq_bit(self.data@, b) {
                            1u8
                        } else {
                            0u8
                        }),
                decreases 64 - j,
            {
                let bitval: u64 = (w >> j) & 1u64;
                proof {
                    assert(bitval == if word_bit(w, j) {
                        1u64
                    } else {
                        0u64
                    }) by (bit_vector)
                        requires
                            bitval == (w >> j) & 1u64,
                    ;
                    let b = 64 * (i as int) + j;
                    lemma_fundamental_div_mod_converse_mod(b, 64, i as int, j as int);
                    assert(b / 64 == i) by {
                        vstd::arithmetic::div_mod::lemma_fundamental_div_mod_converse_div(
                            b,
                            64,
                            i as int,
                            j as int,
                        );
                    }
                    assert(seq_bit(self.data@, b) == word_bit(w, j));
                }
                out.push(bitval as u8);
                j = j + 1;
            }
            i = i + 1;
        }
        out
    }

    /// The number of bit positions where the two vectors differ. Dividing by
    /// the dimension gives the normalized Hamming distance on [0, 1].
    pub fn hamming_distance(&self, other: &Self) -> (d: usize)
        requires
            self.data@.len() == other.data@.len(),
            64 * (self.data@.len() as int) <= usize::MAX,
        ensures
            d == hamming(self.data@, other.data@),
            d <= 64 * self.data@.len(),
    {
        let n = self.data.len();
        let mut d: usize = 0;
        let mut i: usize = 0;
        while i < n
            invariant
                i <= n,
                n == self.data@.len(),
                n == other.data@.len(),
                64 * n <= usize::MAX,
                d == hamming(self.data@.take(i as int), other.data@.take(i as int)),
                d <= 64 * i,
            decreases n - i,
        {
            proof {
                lemma_hamming_step(self.data@, other.data@, i as int);
                lemma_popcount_bounds(self.data@[i as int] ^ other.data@[i as int]);
            }
            d = d + word_popcount(self.data[i] ^ other.data[i]);
            i = i + 1;
        }
        proof {
            assert(self.data@.take(n as int) =~= self.data@);
            assert(other.data@.take(n as int) =~= other.data@);
            lemma_hamming_bounds(self.data@, other.data@);
        }
        d
    }

    /// The pointwise negated exclusive or: a bit of the result is set
    /// exactly where the operands' bits agree.
    pub fn xnor(&self, other: &Self) -> (r: Self)
        requires
            self.data@.len() == other.data@.len(),
        ensures
            r.data@.len() == self.data@.len(),
            forall|j: int| 0 <= j < r.data@.len() ==> r.data@[j] == !(self.data@[j] ^ other.data@[j]),
    {
        let n = self.data.len();
        let mut out: Vec<u64> = Vec::with_capacity(n);
        let mut i: usize = 0;
        while i < n
            invariant
                i <= n,
                n == self.data@.len(),
                n == other.data@.len(),
                out@.len() == i,
                forall|j: int| 0 <= j < i ==> out@[j] == !(self.data@[j] ^ other.data@[j]),
            decreases n - i,
        {
            out.push(!(self.data[i] ^ other.data[i]));
            i = i + 1;
        }
        BinaryHDV { data: out }
    }

    /// The binding operator: pointwise exclusive or.
    pub fn multiply(&self, other: &Self) -> (r: Self)
        requires
            self.data@.len() == other.data@.len(),
        ensures
            r.data@ == xor_words(self.data@, other.data@),
    {
        let n = self.data.len();
        let mut out: Vec<u64> = Vec::with_capacity(n);
        let mut i: usize = 0;
        while i < n
            invariant
                i <= n,
                n == self.data@.len(),
                n == other.data@.len(),
                out@.len() == i,
                forall|j: int| 0 <= j < i ==> out@[j] == (self.data@[j] ^ other.data@[j]),
            decreases n - i,
        {
            out.push(self.data[i] ^ other.data[i]);
            i = i + 1;
        }
        let r = BinaryHDV { data: out };
        proof {
            assert(r.data@ =~= xor_words(self.data@, other.data@));
        }
        r
    }

    /// Binding associates a role with a filler; for the binary
    /// representation it is exclusive or.
    pub fn bind(&self, other: &Self) -> (r: Self)
        requires
            self.data@.len() == other.data@.len(),
        ensures
            r.data@ == xor_words(self.data@, other.data@),
    {
        self.multiply(other)
    }

    /// Unbinding retrieves a filler from a bound pair; exclusive or is its
    /// own inverse, so it coincides with `bind`.
    pub fn unbind(&self, other: &Self) -> (r: Self)
        requires
            self.data@.len() == other.data@.len(),
        ensures
            r.data@ == xor_words(self.data@, other.data@),
    {
        self.multiply(other)
    }

    /// Cyclic rotation of the word array by `by` whole words: a coarser
    /// permutation than a per-bit shuffle, kept at word granularity on
    /// purpose.
    pub fn permute(&self, by: usize) -> (r: Self)
        requires
            self.data@.len() > 0,
        ensures
            r.data@ == rotated(self.data@, by as int),
    {
        let n = self.data.len();
        let p = by % n;
        let mut out: Vec<u64> = Vec::with_capacity(n);
        let mut i: usize = 0;
        while i < n
            invariant
                i <= n,
                n == self.data@.len(),
                p == by % n,
                p < n,
                out@.len() == i,
                forall|j: int| 0 <= j < i ==> out@[j] == self.data@[(j + by as int) % (n as int)],
            decreases n - i,
        {
            let src: usize = if p < n - i {
                i + p
            } else {
                i - (n - p)
            };
            proof {
                let ni = n as int;
                let ii = i as int;
                let pi = p as int;
                if p < n - i {
                    lemma_small_mod((ii + pi) as nat, ni as nat);
                } else {
                    lemma_fundamental_div_mod_converse_mod(ii + pi, ni, 1, ii + pi - ni);
                }
                lemma_add_mod_noop_right(ii, by as int, ni);
                assert((ii + pi) % ni == (ii + by as int) % ni);
            }
            out.push(self.data[src]);
            i = i + 1;
        }
        let r = BinaryHDV { data: out };
        proof {
            assert(r.data@ =~= rotated(self.data@, by as int));
        }
        r
    }

    /// The exact inverse of `permute`: rotating by the length minus the
    /// reduced shift undoes the rotation.
    pub fn unpermute(&self, by: usize) -> (r: Self)
        requires
            self.data@.len() > 0,
        ensures
            r.data@ == rotated(self.data@, self.data@.len() - (by as int % self.data@.len() as int)),
    {
        let n = self.data.len();
        let p = by % n;
        self.permute(n - p)
    }

    /// Binding after permuting each operand by its own shift, used to encode
    /// sequence position without materializing the permuted copies.
    pub fn pmultiply(&self, pa: usize, other: &Self, pb: usize) -> (r: Self)
        requires
            self.data@.len() == other.data@.len(),
            self.data@.len() > 0,
        ensures
            r.data@ == xor_words(rotated(self.data@, pa as int), rotated(other.data@, pb as int)),
    {
        let a = self.permute(pa);
        let b = other.permute(pb);
        a.multiply(&b)
    }

    /// `bind` composed with independent permutations of the operands; for
    /// the binary representation it coincides with `pmultiply`.
    pub fn pbind(&self, pa: usize, other: &Self, pb: usize) -> (r: Self)
        requires
            self.data@.len() == other.data@.len(),
            self.data@.len() > 0,
        ensures
            r.data@ == xor_words(rotated(self.data@, pa as int), rotated(other.data@, pb as int)),
    {
        self.pmultiply(pa, other, pb)
    }

    /// The inverse of `pbind`; exclusive or is self-inverse, so it also
    /// coincides with `pmultiply`.
    pub fn punbind(&self, pa: usize, other: &Self, pb: usize) -> (r: Self)
        requires
            self.data@.len() == other.data@.len(),
            self.data@.len() > 0,
        ensures
            r.data@ == xor_words(rotated(self.data@, pa as int), rotated(other.data@, pb as int)),
    {
        self.pmultiply(pa, other, pb)
    }
}

/// The packed views of a list of binary vectors.
pub open spec fn views_of(vs: Seq<&BinaryHDV>) -> Seq<Seq<u64>> {
    vs.map_values(|v: &BinaryHDV| v.data@)
}

/// How many of the vectors have bit `i` set.
pub open spec fn ones_at(vs: Seq<Seq<u64>>, i: int) -> int
    decreases vs.len(),
{
    if vs.len() == 0 {
        0
    } else {
        ones_at(vs.drop_last(), i) + if seq_bit(vs.last(), i) {
            1int
        } else {
            0int
        }
    }
}

pub proof fn lemma_ones_at_step(vs: Seq<Seq<u64>>, i: int, k: int)
    requires
        0 <= k < vs.len(),
    ensures
        ones_at(vs.take(k + 1), i) == ones_at(vs.take(k), i) + if seq_bit(vs[k], i) {
            1int
        } else {
            0int
        },
{
    assert(vs.take(k + 1).drop_last() =~= vs.take(k));
    assert(vs.take(k + 1).last() == vs[k]);
}

impl BinaryHDV {
    /// Majority-vote bundling: for each bit position, the weighted number of
    /// set bits across the inputs is compared with the number of clear bits;
    /// a strict majority of set bits sets the output bit, a strict minority
    /// clears it, and an exact tie draws the bit at random.
    pub fn bundle(vectors: &[&BinaryHDV]) -> (r: Self)
        requires
            vectors@.len() > 0,
            forall|k: int|
                0 <= k < vectors@.len() ==> (#[trigger] vectors@[k]).data@.len()
                    == vectors@[0].data@.len(),
        ensures
            r.data@.len() == vectors@[0].data@.len(),
            forall|b: int|
                0 <= b < 64 * vectors@[0].data@.len() ==> majority_bit_ok(
                    ones_at(views_of(vectors@), b),
                    vectors@.len() as int,
                    seq_bit(r.data@, b),
                ),
    {
        let ghost views = views_of(vectors@);
        let m = vectors.len();
        let words = vectors[0].data.len();
        proof {
            assert(forall|k: int| 0 <= k < views.len() ==> views[k] == vectors@[k].data@);
        }
        let mut out: Vec<u64> = Vec::with_capacity(words);
        let mut i: usize = 0;
        while i < words
            invariant
                i <= words,
                m == vectors@.len(),
                m > 0,
                words == vectors@[0].data@.len(),
                forall|k: int| 0 <= k < vectors@.len() ==> (#[trigger] vectors@[k]).data@.len() == words,
                views == views_of(vectors@),
                out@.len() == i,
                forall|b: int|
                    0 <= b < 64 * i ==> majority_bit_ok(
                        ones_at(views, b),
                        m as int,
                        seq_bit(out@, b),
                    ),
            decreases words - i,
        {
            let mut wacc: u64 = 0;
            let mut j: u64 = 0;
            proof {
                assert forall|k: u64| k < 64 implies !word_bit(wacc, k) by {
                    lemma_zero_bit(k);
                }
            }
            while j < 64
                invariant
                    j <= 64,
                    i < words,
                    m == vectors@.len(),
                    m > 0,
                    words == vectors@[0].data@.len(),
                    forall|k: int| 0 <= k < vectors@.len() ==> (#[trigger] vectors@[k]).data@.len() == words,
                    views == views_of(vectors@),
                    forall|k: u64| j <= k < 64 ==> !word_bit(wacc, k),
                    forall|k: u64|
                        k < j ==> majority_bit_ok(
                            ones_at(views, 64 * (i as int) + k),
                            m as int,
                            word_bit(wacc, k),
                        ),
                decreases 64 - j,
            {
                let ghost b = 64 * (i as int) + (j as int);
                let mut n1: usize = 0;
                let mut v: usize = 0;
                while v < m
                    invariant
                        v <= m,
                        i < words,
                        j < 64,
                        m == vectors@.len(),
                        words == vectors@[0].data@.len(),
                        forall|k: int| 0 <= k < vectors@.len() ==> (#[trigger] vectors@[k]).data@.len() == words,
                        views == views_of(vectors@),
                        b == 64 * (i as int) + (j as int),
                        n1 <= v,
                        n1 == ones_at(views.take(v as int), b),
                    decreases m - v,
                {
                    let w = vectors[v].data[i];
                    let bitval: u64 = (w >> j) & 1u64;
                    proof {
                        assert(bitval == if word_bit(w, j) {
                            1u64
                        } else {
                            0u64
                        }) by (bit_vector)
                            requires
                                bitval == (w >> j) & 1u64,
                        ;
                        lemma_fundamental_div_mod_converse_mod(b, 64, i as int, j as int);
                        vstd::arithmetic::div_mod::lemma_fundamental_div_mod_converse_div(
                            b,
                            64,
                            i as int,
                            j as int,
                        );
                        assert(views[v as int] == vectors@[v as int].data@);
                        assert(seq_bit(views[v as int], b) == word_bit(w, j));
                        lemma_ones_at_step(views, b, v as int);
                    }
                    n1 = n1 + bitval as usize;
                    v = v + 1;
                }
                proof {
                    assert(views.take(m as int) =~= views);
                }
                let n0 = m - n1;
                let set = n1 > n0 || (n1 == n0 && coin());
                let ghost prev = wacc;
                if set {
                    wacc = wacc | (1u64 << j);
                }
                proof {
                    assert forall|k: u64| k < 64 implies word_bit(wacc, k) == (set && k == j
                        || word_bit(prev, k)) by {
                        if set {
                            lemma_or_single_bit(prev, j, k);
                        }
                    }
                    assert(majority_bit_ok(ones_at(views, b), m as int, set));
                    assert(word_bit(wacc, j) == set);
                }
                j = j + 1;
            }
            let ghost pre_out = out@;
            out.push(wacc);
            proof {
                assert forall|b2: int| 0 <= b2 < 64 * (i + 1) implies majority_bit_ok(
                    ones_at(views, b2),
                    m as int,
                    seq_bit(out@, b2),
                ) by {
                    lemma_div_mod_64(b2);
                    if b2 < 64 * (i as int) {
                        assert(b2 / 64 < i) by (nonlinear_arith)
                            requires
                                b2 >= 0,
                                b2 < 64 * (i as int),
                                b2 == 64 * (b2 / 64) + b2 % 64,
                                0 <= b2 % 64 < 64,
                        ;
                        assert(out@[b2 / 64] == pre_out[b2 / 64]);
                        assert(seq_bit(out@, b2) == seq_bit(pre_out, b2));
                        assert(majority_bit_ok(ones_at(views, b2), m as int, seq_bit(pre_out, b2)));
                    } else {
                        assert(b2 / 64 == i) by (nonlinear_arith)
                            requires
                                64 * (i as int) <= b2 < 64 * (i + 1),
                                b2 == 64 * (b2 / 64) + b2 % 64,
                                0 <= b2 % 64 < 64,
                        ;
                        assert(out@[b2 / 64] == wacc);
                        assert(b2 == 64 * (i as int) + b2 % 64);
                        assert(word_bit(wacc, (b2 % 64) as u64) == seq_bit(out@, b2));
                    }
                }
            }
            i = i + 1;
        }
        BinaryHDV { data: out }
    }
}

/// Whether `b` occurs among the listed bit positions.
pub open spec fn contains_index(indices: Seq<usize>, b: int) -> bool {
    exists|k: int| 0 <= k < indices.len() && indices[k] == b
}

/// The comma-separated text line for a packed vector: one `0` or `1`
/// character per bit, commas between them, and a final line feed.
pub open spec fn csv_line(s: Seq<u64>) -> Seq<u8> {
    if s.len() == 0 {
        seq![10u8]
    } else {
        Seq::new(
            128 * s.len(),
            |i: int|
                if i == 128 * (s.len() as int) - 1 {
                    10u8
                } else if i % 2 == 0 {
                    if seq_bit(s, i / 2) {
                        49u8
                    } else {
                        48u8
                    }
                } else {
                    44u8
                },
        )
    }
}

impl BinaryHDV {
    /// A new vector that takes its bit from `other` at every listed
    /// position and keeps its own bit everywhere else.
    pub fn blend(&self, other: &Self, indices: &[usize]) -> (r: Self)
        requires
            self.data@.len() == other.data@.len(),
            forall|k: int|
                0 <= k < indices@.len() ==> (#[trigger] indices@[k]) < 64 * self.data@.len(),
        ensures
            r.data@.len() == self.data@.len(),
            forall|b: int|
                0 <= b < 64 * self.data@.len() ==> seq_bit(r.data@, b) == (if contains_index(
                    indices@,
                    b,
                ) {
                    seq_bit(other.data@, b)
                } else {
                    seq_bit(self.data@, b)
                }),
    {
        let n = self.data.len();
        let mut masks: Vec<u64> = vec![0u64; n];
        proof {
            assert forall|b: int| 0 <= b < 64 * n implies !seq_bit(masks@, b) by {
                lemma_div_mod_64(b);
                lemma_zero_bit((b % 64) as u64);
            }
        }
        let mut k: usize = 0;
        while k < indices.len()
            invariant
                n == self.data@.len(),
                forall|t: int| 0 <= t < indices@.len() ==> (#[trigger] indices@[t]) < 64 * n,
                k <= indices@.len(),
                masks@.len() == n,
                forall|b: int|
                    0 <= b < 64 * n ==> (seq_bit(masks@, b) == exists|t: int|
                        0 <= t < k && indices@[t] == b),
            decreases indices@.len() - k,
        {
            let idx = indices[k];
            let w: usize = idx / 64;
            let j: u64 = (idx % 64) as u64;
            proof {
                assert(idx / 64 < n && idx % 64 < 64) by (nonlinear_arith)
                    requires
                        (idx as int) < 64 * n,
                        idx >= 0,
                        n >= 0,
                ;
            }
            let old_word = masks[w];
            let ghost pre = masks@;
            masks[w] = old_word | (1u64 << j);
            proof {
                let ki = k as int;
                let ii = idx as int;
                lemma_div_mod_64(ii);
                assert forall|b: int| 0 <= b < 64 * n implies (seq_bit(masks@, b) == exists|t: int|
                    0 <= t < ki + 1 && indices@[t] == b) by {
                    lemma_div_mod_64(b);
                    assert(seq_bit(pre, b) == exists|t: int| 0 <= t < ki && indices@[t] == b);
                    if b / 64 == w {
                        lemma_or_single_bit(old_word, j, (b % 64) as u64);
                        if b == ii {
                            assert((b % 64) as u64 == j);
                            assert(indices@[ki] == b);
                            assert(seq_bit(masks@, b));
                        } else {
                            assert(b % 64 != ii % 64);
                            assert((b % 64) as u64 != j);
                            assert(word_bit(masks@[b / 64], (b % 64) as u64) == word_bit(
                                old_word,
                                (b % 64) as u64,
                            ));
                            assert forall|t: int| 0 <= t < ki + 1 && indices@[t] == b implies 0 <= t
                                < ki by {}
                        }
                    } else {
                        assert(masks@[b / 64] == pre[b / 64]);
                        assert(seq_bit(masks@, b) == seq_bit(pre, b));
                        assert forall|t: int| 0 <= t < ki + 1 && indices@[t] == b implies 0 <= t
                            < ki by {}
                    }
                }
            }
            k = k + 1;
        }
        let mut out: Vec<u64> = Vec::with_capacity(n);
        let mut i: usize = 0;
        while i < n
            invariant
                n == self.data@.len(),
                n == other.data@.len(),
                masks@.len() == n,
                i <= n,
                out@.len() == i,
                forall|b: int|
                    0 <= b < 64 * n ==> (seq_bit(masks@, b) == contains_index(indices@, b)),
                forall|b: int|
                    0 <= b < 64 * i ==> seq_bit(out@, b) == (if seq_bit(masks@, b) {
                        seq_bit(other.data@, b)
                    } else {
                        seq_bit(self.data@, b)
                    }),
            decreases n - i,
        {
            let mask = masks[i];
            let merged: u64 = if mask != 0 {
                (self.data[i] & !mask) | (other.data[i] & mask)
            } else {
                self.data[i]
            };
            let ghost pre_out = out@;
            out.push(merged);
            proof {
                assert forall|b: int| 0 <= b < 64 * (i + 1) implies seq_bit(out@, b) == (
                if seq_bit(masks@, b) {
                    seq_bit(other.data@, b)
                } else {
                    seq_bit(self.data@, b)
                }) by {
                    lemma_div_mod_64(b);
                    if b < 64 * (i as int) {
                        assert(b / 64 < i) by (nonlinear_arith)
                            requires
                                b >= 0,
                                b < 64 * (i as int),
                                b == 64 * (b / 64) + b % 64,
                                0 <= b % 64 < 64,
                        ;
                        assert(out@[b / 64] == pre_out[b / 64]);
                        assert(seq_bit(out@, b) == seq_bit(pre_out, b));
                    } else {
                        assert(b / 64 == i) by (nonlinear_arith)
                            requires
                                64 * (i as int) <= b < 64 * (i + 1),
                                b == 64 * (b / 64) + b % 64,
                                0 <= b % 64 < 64,
                        ;
                        assert(out@[b / 64] == merged);
                        let kb = (b % 64) as u64;
                        if mask != 0 {
                            crate::bits::lemma_mask_merge_bit(
                                self.data@[i as int],
                                other.data@[i as int],
                                mask,
                                kb,
                            );
                        } else {
                            lemma_zero_bit(kb);
                        }
                    }
                }
            }
            i = i + 1;
        }
        BinaryHDV { data: out }
    }

    /// A copy of the vector with exactly `nbits` distinct bit positions
    /// inverted (all of them, if `nbits` exceeds the dimension), the
    /// positions chosen at random from the injected generator: the result
    /// sits at exactly that Hamming distance from the original.
    pub fn flip(&self, nbits: usize, rng: &mut MersenneTwister) -> (r: Self)
        requires
            64 * self.data@.len() <= usize::MAX,
        ensures
            r.data@.len() == self.data@.len(),
            hamming(self.data@, r.data@) == if nbits < 64 * self.data@.len() {
                nbits as int
            } else {
                64 * (self.data@.len() as int)
            },
    {
        let n = self.data.len();
        let mut data: Vec<u64> = Vec::with_capacity(n);
        let mut c: usize = 0;
        while c < n
            invariant
                c <= n,
                n == self.data@.len(),
                data@.len() == c,
                forall|t: int| 0 <= t < c ==> data@[t] == self.data@[t],
            decreases n - c,
        {
            data.push(self.data[c]);
            c = c + 1;
        }
        proof {
            assert(data@ =~= self.data@);
        }
        if nbits == 0 || n == 0 {
            let r = BinaryHDV { data };
            proof {
                crate::bits::lemma_hamming_self(self.data@);
            }
            return r;
        }
        let dim: usize = n * 64;
        let target: usize = if nbits < dim {
            nbits
        } else {
            dim
        };
        let mut needed: usize = target;
        let mut p: usize = 0;
        proof {
            crate::bits::lemma_hamming_self(self.data@);
        }
        while p < dim
            invariant
                p <= dim,
                dim == 64 * n,
                n == self.data@.len(),
                data@.len() == n,
                needed <= dim - p,
                needed <= target,
                hamming(self.data@, data@) == target - needed,
                forall|b: int| p <= b < dim ==> seq_bit(data@, b) == seq_bit(self.data@, b),
            decreases dim - p,
        {
            let rem: usize = dim - p;
            let hi = mt_next_u32(rng);
            let lo = mt_next_u32(rng);
            let draw: u64 = (((hi as u64) << 32u64) | (lo as u64)) % (rem as u64);
            let val: usize = draw as usize;
            if val < needed {
                let w: usize = p / 64;
                let j: u64 = (p % 64) as u64;
                proof {
                    assert(p / 64 < n && p % 64 < 64) by (nonlinear_arith)
                        requires
                            (p as int) < 64 * n,
                            p >= 0,
                            n >= 0,
                    ;
                }
                let old_word = data[w];
                let ghost pre = data@;
                data[w] = old_word ^ (1u64 << j);
                proof {
                    let pi = p as int;
                    lemma_div_mod_64(pi);
                    assert(data@ == pre.update(pi / 64, old_word ^ (1u64 << j)));
                    assert(seq_bit(pre, pi) == seq_bit(self.data@, pi));
                    assert(word_bit(pre[pi / 64], (pi % 64) as u64) == word_bit(
                        self.data@[pi / 64],
                        (pi % 64) as u64,
                    ));
                    let aw = self.data@[pi / 64];
                    assert(!word_bit(aw ^ old_word, j)) by (bit_vector)
                        requires
                            word_bit(old_word, j) == word_bit(aw, j),
                    ;
                    crate::bits::lemma_hamming_update(
                        self.data@,
                        pre,
                        pi / 64,
                        old_word ^ (1u64 << j),
                    );
                    assert(aw ^ (old_word ^ (1u64 << j)) == (aw ^ old_word) ^ (1u64 << j))
                        by (bit_vector);
                    crate::bits::lemma_popcount_flip(aw ^ old_word, j);
                    assert(hamming(self.data@, data@) == hamming(self.data@, pre) + 1);
                    assert forall|b: int| pi + 1 <= b < dim implies seq_bit(data@, b) == seq_bit(
                        self.data@,
                        b,
                    ) by {
                        lemma_div_mod_64(b);
                        assert(seq_bit(pre, b) == seq_bit(self.data@, b));
                        if b / 64 == pi / 64 {
                            assert(b % 64 != pi % 64);
                            let kb = (b % 64) as u64;
                            assert(word_bit(old_word ^ (1u64 << j), kb) == word_bit(old_word, kb))
                                by (bit_vector)
                                requires
                                    kb != j,
                                    j < 64,
                                    kb < 64,
                            ;
                            assert(seq_bit(data@, b) == seq_bit(pre, b));
                        } else {
                            assert(data@[b / 64] == pre[b / 64]);
                            assert(seq_bit(data@, b) == seq_bit(pre, b));
                        }
                    }
                }
                needed = needed - 1;
            }
            p = p + 1;
        }
        BinaryHDV { data }
    }

    /// Renders the vector as one text line: its bits as `0`/`1` characters,
    /// comma-separated, closed by a line feed.
    pub fn write_csv(&self) -> (r: Vec<u8>)
        ensures
            r@ == csv_line(self.data@),
    {
        let n = self.data.len();
        let mut out: Vec<u8> = Vec::new();
        if n == 0 {
            out.push(10u8);
            proof {
                assert(out@ =~= csv_line(self.data@));
            }
            return out;
        }
        let mut i: usize = 0;
        while i < n
            invariant
                i <= n,
                n == self.data@.len(),
                n > 0,
                out@.len() == if i == 0 {
                    0int
                } else {
                    128 * i - 1
                },
                forall|t: int| 0 <= t < out@.len() ==> out@[t] == csv_line(self.data@)[t],
            decreases n - i,
        {
            let w = self.data[i];
            let mut j: u64 = 0;
            while j < 64
                invariant
                    j <= 64,
                    i < n,
                    n == self.data@.len(),
                    w == self.data@[i as int],
                    out@.len() == if i == 0 && j == 0 {
                        0int
                    } else {
                        128 * i + 2 * j - 1
                    },
                    forall|t: int| 0 <= t < out@.len() ==> out@[t] == csv_line(self.data@)[t],
                decreases 64 - j,
            {
                let ghost b = 64 * (i as int) + (j as int);
                proof {
                    lemma_fundamental_div_mod_converse_mod(b, 64, i as int, j as int);
                    vstd::arithmetic::div_mod::lemma_fundamental_div_mod_converse_div(
                        b,
                        64,
                        i as int,
                        j as int,
                    );
                    assert(b < 64 * (n as int));
                }
                if i > 0 || j > 0 {
                    out.push(44u8);
                    proof {
                        assert(out@.len() - 1 == 2 * b - 1);
                        assert((2 * b - 1) % 2 == 1);
                        assert(2 * b - 1 < 128 * (n as int) - 1) by (nonlinear_arith)
                            requires
                                b < 64 * (n as int),
                        ;
                    }
                }
                let bitval: u64 = (w >> j) & 1u64;
                proof {
                    assert(bitval == if word_bit(w, j) {
                        1u64
                    } else {
                        0u64
                    }) by (bit_vector)
                        requires
                            bitval == (w >> j) & 1u64,
                    ;
                    assert(seq_bit(self.data@, b) == word_bit(w, j));
                }
                let ch: u8 = if bitval == 1 {
                    49u8
                } else {
                    48u8
                };
                out.push(ch);
                proof {
                    assert(out@.len() - 1 == 2 * b);
                    assert((2 * b) % 2 == 0);
                    assert((2 * b) / 2 == b);
                    assert(2 * b < 128 * (n as int) - 1) by (nonlinear_arith)
                        requires
                            b < 64 * (n as int),
                    ;
                }
                j = j + 1;
            }
            i = i + 1;
        }
        out.push(10u8);
        proof {
            assert(out@.len() == 128 * (n as int));
            assert(out@[128 * (n as int) - 1] == 10u8);
            assert(out@ =~= csv_line(self.data@));
        }
        out
    }
}

/// Binding is exactly self-inverse for binary vectors: unbinding a bound
/// pair with one of its operands restores the other operand bit for bit, so
/// the distance between `a` and `unbind(bind(a, b), b)` is zero.
pub proof fn lemma_bind_unbind_exact(a: Seq<u64>, b: Seq<u64>)
    requires
        a.len() == b.len(),
    ensures
        xor_words(xor_words(a, b), b) =~= a,
        hamming(a, xor_words(xor_words(a, b), b)) == 0,
{
    assert forall|i: int| 0 <= i < a.len() implies xor_words(xor_words(a, b), b)[i] == a[i] by {
        crate::bits::lemma_xor_self_inverse(a[i], b[i]);
    }
    assert(xor_words(xor_words(a, b), b) =~= a);
    crate::bits::lemma_hamming_self(a);
}

/// The incremental, weighted majority-vote aggregator for binary vectors:
/// one weighted vote counter per bit position plus the running total weight.
/// It is created zeroed, fed any number of (vector, weight) observations,
/// and finalized without being consumed, so the same running aggregate can
/// be queried repeatedly and fed further.
#[derive(Debug, Clone)]
pub struct BinaryAccumulator {
    /// One weighted vote counter per bit position.
    pub votes: Vec<u64>,
    /// The total weight folded in so far.
    pub count: u64,
}

impl BinaryAccumulator {
    /// The number of machine words of the vectors this accumulator takes.
    pub open spec fn words(&self) -> int {
        (self.votes@.len() as int) / 64
    }

    /// The per-bit weighted vote counters.
    pub open spec fn vote_counts(&self) -> Seq<int> {
        self.votes@.map_values(|v: u64| v as int)
    }

    /// Internal soundness: the counters cover whole words, and no counter
    /// exceeds the total weight.
    pub open spec fn wf(&self) -> bool {
        &&& self.votes@.len() == 64 * ((self.votes@.len() as int) / 64)
        &&& forall|i: int| 0 <= i < self.votes@.len() ==> (#[trigger] self.votes@[i]) <= self.count
    }

    /// A zeroed aggregate sized to vectors of `words` machine words.
    pub fn new(words: usize) -> (a: Self)
        requires
            words <= usize::MAX / 64,
        ensures
            a.wf(),
            a.words() == words,
            a.count == 0,
            a.vote_counts().len() == 64 * words,
            forall|i: int| 0 <= i < 64 * words ==> a.vote_counts()[i] == 0,
    {
        proof {
            assert(words * 64 <= usize::MAX) by (nonlinear_arith)
                requires
                    words <= usize::MAX / 64,
            ;
        }
        let votes = vec![0u64; words * 64];
        proof {
            vstd::arithmetic::div_mod::lemma_fundamental_div_mod_converse_div(
                64 * (words as int),
                64,
                words as int,
                0,
            );
        }
        BinaryAccumulator { votes, count: 0 }
    }

    /// Whether nothing with positive weight has been folded in yet.
    pub fn is_empty(&self) -> (r: bool)
        ensures
            r == (self.count == 0),
    {
        self.count == 0
    }

    /// Folds one weighted observation into the running votes: every set bit
    /// of `v` adds `weight` to its counter, and the total weight grows by
    /// `weight`. A weight of zero changes nothing.
    pub fn add(&mut self, v: &BinaryHDV, weight: usize)
        requires
            old(self).wf(),
            v.data@.len() == old(self).words(),
            old(self).count + weight <= u64::MAX,
        ensures
            final(self).wf(),
            final(self).words() == old(self).words(),
            final(self).count == old(self).count + weight,
            forall|i: int|
                0 <= i < 64 * final(self).words() ==> final(self).vote_counts()[i] == old(
                    self,
                ).vote_counts()[i] + weight * (if seq_bit(v.data@, i) {
                    1int
                } else {
                    0int
                }),
    {
        let n = self.votes.len();
        let mut idx: usize = 0;
        while idx < n
            invariant
                n == self.votes@.len(),
                self.votes@.len() == old(self).votes@.len(),
                self.count == old(self).count,
                old(self).wf(),
                v.data@.len() == old(self).words(),
                old(self).count + weight <= u64::MAX,
                idx <= n,
                forall|i: int|
                    0 <= i < idx ==> (#[trigger] self.votes@[i]) == old(self).votes@[i] + weight * (
                    if seq_bit(v.data@, i) {
                        1int
                    } else {
                        0int
                    }),
                forall|i: int| idx <= i < n ==> (#[trigger] self.votes@[i]) == old(self).votes@[i],
            decreases n - idx,
        {
            proof {
                assert(idx / 64 < n / 64 && idx % 64 < 64) by (nonlinear_arith)
                    requires
                        idx < n,
                        n == 64 * (n / 64),
                ;
            }
            let w = v.data[idx / 64];
            let j: u64 = (idx % 64) as u64;
            let bitval: u64 = (w >> j) & 1u64;
            proof {
                assert(bitval == if word_bit(w, j) {
                    1u64
                } else {
                    0u64
                }) by (bit_vector)
                    requires
                        bitval == (w >> j) & 1u64,
                ;
                lemma_div_mod_64(idx as int);
                assert(seq_bit(v.data@, idx as int) == word_bit(w, j));
            }
            if bitval == 1 {
                let cur = self.votes[idx];
                self.votes[idx] = cur + weight as u64;
            }
            idx = idx + 1;
        }
        self.count = self.count + weight as u64;
        proof {
            assert forall|i: int| 0 <= i < self.votes@.len() implies (#[trigger] self.votes@[i])
                <= self.count by {
            }
        }
    }

    /// Applies the majority rule to the votes accumulated so far, without
    /// mutating the aggregate: a bit whose weighted set-votes strictly
    /// exceed its clear-votes comes out set, a strict minority comes out
    /// clear, and an exact tie is drawn at random. It may be called
    /// repeatedly, interleaved with further `add` calls.
    pub fn finalize(&self) -> (r: BinaryHDV)
        requires
            self.wf(),
        ensures
            r.data@.len() == self.words(),
            forall|b: int|
                0 <= b < 64 * self.words() ==> majority_bit_ok(
                    self.vote_counts()[b],
                    self.count as int,
                    seq_bit(r.data@, b),
                ),
    {
        let n = self.votes.len();
        let words = n / 64;
        let mut out: Vec<u64> = Vec::with_capacity(words);
        let mut i: usize = 0;
        while i < words
            invariant
                i <= words,
                n == self.votes@.len(),
                words == n / 64,
                n == 64 * words,
                self.wf(),
                out@.len() == i,
                forall|b: int|
                    0 <= b < 64 * i ==> majority_bit_ok(
                        self.vote_counts()[b],
                        self.count as int,
                        seq_bit(out@, b),
                    ),
            decreases words - i,
        {
            let mut wacc: u64 = 0;
            let mut j: u64 = 0;
            proof {
                assert forall|k: u64| k < 64 implies !word_bit(wacc, k) by {
                    lemma_zero_bit(k);
                }
            }
            while j < 64
                invariant
                    j <= 64,
                    i < words,
                    n == self.votes@.len(),
                    n == 64 * words,
                    self.wf(),
                    forall|k: u64| j <= k < 64 ==> !word_bit(wacc, k),
                    forall|k: u64|
                        k < j ==> majority_bit_ok(
                            self.vote_counts()[64 * (i as int) + k],
                            self.count as int,
                            word_bit(wacc, k),
                        ),
                decreases 64 - j,
            {
                proof {
                    assert(i * 64 + 63 < n) by (nonlinear_arith)
                        requires
                            i < words,
                            n == 64 * words,
                    ;
                }
                let idx: usize = i * 64 + (j as usize);
                let n1 = self.votes[idx];
                let n0 = self.count - n1;
                let set = n1 > n0 || (n1 == n0 && coin());
                let ghost prev = wacc;
                if set {
                    wacc = wacc | (1u64 << j);
                }
                proof {
                    assert forall|k: u64| k < 64 implies word_bit(wacc, k) == (set && k == j
                        || word_bit(prev, k)) by {
                        if set {
                            lemma_or_single_bit(prev, j, k);
                        }
                    }
                    assert(majority_bit_ok(
                        self.vote_counts()[idx as int],
                        self.count as int,
                        set,
                    ));
                    assert(word_bit(wacc, j) == set);
                }
                j = j + 1;
            }
            let ghost pre_out = out@;
            out.push(wacc);
            proof {
                assert forall|b2: int| 0 <= b2 < 64 * (i + 1) implies majority_bit_ok(
                    self.vote_counts()[b2],
                    self.count as int,
                    seq_bit(out@, b2),
                ) by {
                    lemma_div_mod_64(b2);
                    if b2 < 64 * (i as int) {
                        assert(b2 / 64 < i) by (nonlinear_arith)
                            requires
                                b2 >= 0,
                                b2 < 64 * (i as int),
                                b2 == 64 * (b2 / 64) + b2 % 64,
                                0 <= b2 % 64 < 64,
                        ;
                        assert(out@[b2 / 64] == pre_out[b2 / 64]);
                        assert(seq_bit(out@, b2) == seq_bit(pre_out, b2));
                        assert(majority_bit_ok(
                            self.vote_counts()[b2],
                            self.count as int,
                            seq_bit(pre_out, b2),
                        ));
                    } else {
                        assert(b2 / 64 == i) by (nonlinear_arith)
                            requires
                                64 * (i as int) <= b2 < 64 * (i + 1),
                                b2 == 64 * (b2 / 64) + b2 % 64,
                                0 <= b2 % 64 < 64,
                        ;
                        assert(out@[b2 / 64] == wacc);
                        assert(b2 == 64 * (i as int) + b2 % 64);
                        assert(word_bit(wacc, (b2 % 64) as u64) == seq_bit(out@, b2));
                    }
                }
            }
            i = i + 1;
        }
        BinaryHDV { data: out }
    }
}

/// Batch/incremental equivalence for binary bundling: take any list of
/// vectors and any one positive weight; let `r_batch` satisfy the
/// majority-vote contract of `BinaryHDV::bundle` on the plain tallies, and
/// let `r_inc` satisfy the contract of `BinaryAccumulator::finalize` after
/// every vector was folded in with that same weight. Then the two results
/// agree bit for bit at every position whose vote is not exactly tied (tied
/// bits are drawn at random on both sides and are free).
pub proof fn lemma_batch_incremental_equivalence(
    vs: Seq<Seq<u64>>,
    w: int,
    votes: Seq<int>,
    total: int,
    r_batch: Seq<u64>,
    r_inc: Seq<u64>,
    words: int,
)
    requires
        w > 0,
        votes.len() == 64 * words,
        forall|i: int| 0 <= i < 64 * words ==> votes[i] == w * ones_at(vs, i),
        total == w * vs.len(),
        forall|i: int|
            0 <= i < 64 * words ==> majority_bit_ok(
                ones_at(vs, i),
                vs.len() as int,
                seq_bit(r_batch, i),
            ),
        forall|i: int| 0 <= i < 64 * words ==> majority_bit_ok(votes[i], total, seq_bit(r_inc, i)),
    ensures
        forall|i: int|
            0 <= i < 64 * words && 2 * ones_at(vs, i) != vs.len() ==> seq_bit(r_batch, i)
                == seq_bit(r_inc, i),
{
    assert forall|i: int|
        0 <= i < 64 * words && 2 * ones_at(vs, i) != vs.len() implies seq_bit(r_batch, i)
        == seq_bit(r_inc, i) by {
        crate::majority::lemma_batch_incremental_bit_agree(
            ones_at(vs, i),
            vs.len() as int,
            w,
            seq_bit(r_batch, i),
            seq_bit(r_inc, i),
        );
    }
}

impl crate::Accumulator<BinaryHDV> for BinaryAccumulator {
    open spec fn inv(&self) -> bool {
        self.wf()
    }

    open spec fn size(&self) -> int {
        self.words()
    }

    open spec fn size_ok(dim: usize) -> bool {
        dim <= usize::MAX / 64
    }

    open spec fn empty(&self) -> bool {
        self.count == 0
    }

    open spec fn accepts(&self, v: &BinaryHDV) -> bool {
        v.data@.len() == self.words()
    }

    open spec fn can_take(&self, weight: usize) -> bool {
        self.count + weight <= u64::MAX
    }

    open spec fn folds_to(pre: Self, v: BinaryHDV, weight: usize, post: Self) -> bool {
        &&& post.count == pre.count + weight
        &&& post.words() == pre.words()
        &&& forall|i: int|
            0 <= i < 64 * post.words() ==> post.vote_counts()[i] == pre.vote_counts()[i] + weight
                * (if seq_bit(v.data@, i) {
                1int
            } else {
                0int
            })
    }

    open spec fn votes_to(&self, r: BinaryHDV) -> bool {
        &&& r.data@.len() == self.words()
        &&& forall|b: int|
            0 <= b < 64 * self.words() ==> majority_bit_ok(
                self.vote_counts()[b],
                self.count as int,
                seq_bit(r.data@, b),
            )
    }

    fn new(dim: usize) -> Self {
        BinaryAccumulator::new(dim)
    }

    fn add(&mut self, v: &BinaryHDV, weight: usize) {
        BinaryAccumulator::add(self, v, weight)
    }

    fn finalize(&self) -> BinaryHDV {
        BinaryAccumulator::finalize(self)
    }
}

/// Splits a bit index into a word index and a bit-in-word index.
proof fn lemma_div_mod_64(b: int)
    requires
        b >= 0,
    ensures
        b == 64 * (b / 64) + b % 64,
        0 <= b % 64 < 64,
        b / 64 >= 0,
{
    vstd::arithmetic::div_mod::lemma_fundamental_div_mod(b, 64);
    lemma_mod_bound(b, 64);
    vstd::arithmetic::div_mod::lemma_div_pos_is_pos(b, 64);
}

} // verus!
