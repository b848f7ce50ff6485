//! The sign-valued hypervector: components restricted to +1 and -1, binding
//! by elementwise multiplication, cyclic permutation, weighted sign-vote
//! bundling, and cosine similarity through the exact integer dot product.
use vstd::prelude::*;
use mersenne_twister_rs::MersenneTwister;
use crate::rotate::rotated;
use crate::rng::{coin, mt_next_u32};
use crate::majority::sign_vote_ok;

verus! {

/// Whether every entry of a component sequence is +1 or -1.
pub open spec fn sign_seq(s: Seq<i8>) -> bool {
    forall|i: int| 0 <= i < s.len() ==> (#[trigger] s[i] == 1i8 || s[i] == -1i8)
}

/// The integer dot product of two component sequences.
pub open spec fn dot(a: Seq<i8>, b: Seq<i8>) -> int
    decreases a.len(),
{
    if a.len() == 0 {
        0
    } else {
        dot(a.drop_last(), b.drop_last()) + (a.last() as int) * (b.last() as int)
    }
}

/// One step of the dot product, for walking the components front to back.
pub proof fn lemma_dot_step(a: Seq<i8>, b: Seq<i8>, i: int)
    requires
        a.len() == b.len(),
        0 <= i < a.len(),
    ensures
        dot(a.take(i + 1), b.take(i + 1)) == dot(a.take(i), b.take(i)) + (a[i] as int) * (
        b[i] as int),
{
    assert(a.take(i + 1).drop_last() =~= a.take(i));
    assert(b.take(i + 1).drop_last() =~= b.take(i));
    assert(a.take(i + 1).last() == a[i]);
    assert(b.take(i + 1).last() == b[i]);
}

/// The dot product of two sign sequences lies between -len and len.
pub proof fn lemma_dot_bounds(a: Seq<i8>, b: Seq<i8>)
    requires
        a.len() == b.len(),
        sign_seq(a),
        sign_seq(b),
    ensures
        -(a.len() as int) <= dot(a, b) <= a.len() as int,
    decreases a.len(),
{
    if a.len() > 0 {
        assert(sign_seq(a.drop_last())) by {
            assert(forall|i: int| 0 <= i < a.len() - 1 ==> a.drop_last()[i] == a[i]);
        }
        assert(sign_seq(b.drop_last())) by {
            assert(forall|i: int| 0 <= i < b.len() - 1 ==> b.drop_last()[i] == b[i]);
        }
        lemma_dot_bounds(a.drop_last(), b.drop_last());
    }
}

/// A sign vector's dot product with itself is its length, so its distance
/// from itself is zero on the cosine scale.
pub proof fn lemma_dot_self(a: Seq<i8>)
    requires
        sign_seq(a),
    ensures
        dot(a, a) == a.len(),
    decreases a.len(),
{
    if a.len() > 0 {
        assert(sign_seq(a.drop_last())) by {
            assert(forall|i: int| 0 <= i < a.len() - 1 ==> a.drop_last()[i] == a[i]);
        }
        lemma_dot_self(a.drop_last());
        assert(a.last() == a[a.len() - 1]);
        assert(a[a.len() - 1] == 1i8 || a[a.len() - 1] == -1i8);
    }
}

/// The dot product is symmetric, and so is the distance built from it.
pub proof fn lemma_dot_symmetric(a: Seq<i8>, b: Seq<i8>)
    requires
        a.len() == b.len(),
    ensures
        dot(a, b) == dot(b, a),
    decreases a.len(),
{
    if a.len() > 0 {
        lemma_dot_symmetric(a.drop_last(), b.drop_last());
    }
}

/// A sign-valued hypervector: one entry per dimension, each +1 or -1. All
/// operators return fresh values; nothing is mutated in place.
#[derive(Debug, PartialEq, Clone)]
pub struct BipolarHDV {
    pub data: Vec<i8>,
}

impl BipolarHDV {
    /// Every component is +1 or -1.
    pub open spec fn wf(&self) -> bool {
        sign_seq(self.data@)
    }

    /// A fresh vector of `dim` components drawn from the injected
    /// generator, one fair sign per component.
    pub fn random(rng: &mut MersenneTwister, dim: usize) -> (r: Self)
        ensures
            r.data@.len() == dim,
            r.wf(),
    {
        let mut data: Vec<i8> = Vec::with_capacity(dim);
        let mut i: usize = 0;
        while i < dim
            invariant
                data@.len() == i,
                i <= dim,
                sign_seq(data@),
            decreases dim - i,
        {
            let draw = mt_next_u32(rng);
            let e: i8 = if draw & 1 == 1 {
                1i8
            } else {
                -1i8
            };
            data.push(e);
            i = i + 1;
        }
        BipolarHDV { data }
    }

    /// The binding identity: all +1, neutral for elementwise
    /// multiplication.
    pub fn ident(dim: usize) -> (r: Self)
        ensures
            r.data@.len() == dim,
            forall|i: int| 0 <= i < dim ==> r.data@[i] == 1i8,
            r.wf(),
    {
        let mut data: Vec<i8> = Vec::with_capacity(dim);
        let mut i: usize = 0;
        while i < dim
            invariant
                data@.len() == i,
                i <= dim,
                forall|t: int| 0 <= t < i ==> data@[t] == 1i8,
            decreases dim - i,
        {
            data.push(1i8);
            i = i + 1;
        }
        BipolarHDV { data }
    }

    /// Coerces a numeric sample into signs, one component per entry:
    /// non-negative entries become +1, negative ones -1.
    pub fn from_slice(slice: &[i32]) -> (r: Self)
        ensures
            r.data@.len() == slice@.len(),
            forall|i: int|
                0 <= i < slice@.len() ==> r.data@[i] == (if slice@[i] >= 0 {
                    1i8
                } else {
                    -1i8
                }),
            r.wf(),
    {
        let n = slice.len();
        let mut data: Vec<i8> = Vec::with_capacity(n);
        let mut i: usize = 0;
        while i < n
            invariant
                n == slice@.len(),
                data@.len() == i,
                i <= n,
                forall|t: int|
                    0 <= t < i ==> data@[t] == (if slice@[t] >= 0 {
                        1i8
                    } else {
                        -1i8
                    }),
            decreases n - i,
        {
            let e: i8 = if slice[i] >= 0 {
                1i8
            } else {
                -1i8
            };
            data.push(e);
            i = i + 1;
        }
        BipolarHDV { data }
    }

    /// The exact integer dot product of the two vectors. The cosine
    /// distance on the [0, 2] scale is one minus this value over the
    /// dimension, so comparing dot products compares distances.
    pub fn dot(&self, other: &Self) -> (d: i64)
        requires
            self.data@.len() == other.data@.len(),
            self.wf(),
            other.wf(),
            self.data@.len() <= i64::MAX,
        ensures
            d == dot(self.data@, other.data@),
            -(self.data@.len() as int) <= d <= self.data@.len() as int,
    {
        let n = self.data.len();
        let mut d: i64 = 0;
        let mut i: usize = 0;
        while i < n
            invariant
                i <= n,
                n == self.data@.len(),
                n == other.data@.len(),
                n <= i64::MAX,
                self.wf(),
                other.wf(),
                d == dot(self.data@.take(i as int), other.data@.take(i as int)),
                -(i as int) <= d <= i as int,
            decreases n - i,
        {
            proof {
                lemma_dot_step(self.data@, other.data@, i as int);
            }
            let ea = self.data[i];
            let eb = other.data[i];
            let p: i64 = if ea == eb {
                1
            } else {
                -1
            };
            proof {
                assert(ea == 1i8 || ea == -1i8);
                assert(eb == 1i8 || eb == -1i8);
                assert(p == (ea as int) * (eb as int)) by (nonlinear_arith)
                    requires
                        ea == 1i8 || ea == -1i8,
                        eb == 1i8 || eb == -1i8,
                        p == if ea == eb {
                            1i64
                        } else {
                            -1i64
                        },
                ;
            }
            d = d + p;
            i = i + 1;
        }
        proof {
            assert(self.data@.take(n as int) =~= self.data@);
            assert(other.data@.take(n as int) =~= other.data@);
            lemma_dot_bounds(self.data@, other.data@);
        }
        d
    }

    /// The binding operator: elementwise multiplication of signs.
    pub fn multiply(&self, other: &Self) -> (r: Self)
        requires
            self.data@.len() == other.data@.len(),
            self.wf(),
            other.wf(),
        ensures
            r.data@.len() == self.data@.len(),
            forall|i: int|
                0 <= i < self.data@.len() ==> r.data@[i] == self.data@[i] * other.data@[i],
            r.wf(),
    {
        let n = self.data.len();
        let mut data: Vec<i8> = Vec::with_capacity(n);
        let mut i: usize = 0;
        while i < n
            invariant
                i <= n,
                n == self.data@.len(),
                n == other.data@.len(),
                self.wf(),
                other.wf(),
                data@.len() == i,
                forall|t: int| 0 <= t < i ==> data@[t] == self.data@[t] * other.data@[t],
                sign_seq(data@),
            decreases n - i,
        {
            let ea = self.data[i];
            let eb = other.data[i];
            let p: i8 = if ea == eb {
                1
            } else {
                -1
            };
            proof {
                assert(ea == 1i8 || ea == -1i8);
                assert(eb == 1i8 || eb == -1i8);
                assert(p == ea * eb) by (nonlinear_arith)
                    requires
                        ea == 1i8 || ea == -1i8,
                        eb == 1i8 || eb == -1i8,
                        p == if ea == eb {
                            1i8
                        } else {
                            -1i8
                        },
                ;
            }
            data.push(p);
            i = i + 1;
        }
        BipolarHDV { data }
    }

    /// Binding associates a role with a filler; for signs it is elementwise
    /// multiplication.
    pub fn bind(&self, other: &Self) -> (r: Self)
        requires
            self.data@.len() == other.data@.len(),
            self.wf(),
            other.wf(),
        ensures
            r.data@.len() == self.data@.len(),
            forall|i: int|
                0 <= i < self.data@.len() ==> r.data@[i] == self.data@[i] * other.data@[i],
            r.wf(),
    {
        self.multiply(other)
    }

    /// Unbinding retrieves a filler from a bound pair; multiplication of
    /// signs is its own inverse, so it coincides with `bind`.
    pub fn unbind(&self, other: &Self) -> (r: Self)
        requires
            self.data@.len() == other.data@.len(),
            self.wf(),
            other.wf(),
        ensures
            r.data@.len() == self.data@.len(),
            forall|i: int|
                0 <= i < self.data@.len() ==> r.data@[i] == self.data@[i] * other.data@[i],
            r.wf(),
    {
        self.multiply(other)
    }

    /// Cyclic rotation of the components by `by` positions.
    pub fn permute(&self, by: usize) -> (r: Self)
        requires
            self.data@.len() > 0,
        ensures
            r.data@ == rotated(self.data@, by as int),
    {
        let n = self.data.len();
        let p = by % n;
        let mut data: Vec<i8> = Vec::with_capacity(n);
        let mut i: usize = 0;
        while i < n
            invariant
                i <= n,
                n == self.data@.len(),
                p == by % n,
                p < n,
                data@.len() == i,
                forall|t: int| 0 <= t < i ==> data@[t] == self.data@[(t + by as int) % (n as int)],
            decreases n - i,
        {
            let src: usize = if p < n - i {
                i + p
            } else {
                i - (n - p)
            };
            proof {
                let ni = n as int;
                let ii = i as int;
                let pi = p as int;
                if p < n - i {
                    vstd::arithmetic::div_mod::lemma_small_mod((ii + pi) as nat, ni as nat);
                } else {
                    vstd::arithmetic::div_mod::lemma_fundamental_div_mod_converse_mod(
                        ii + pi,
                        ni,
                        1,
                        ii + pi - ni,
                    );
                }
                vstd::arithmetic::div_mod::lemma_add_mod_noop_right(ii, by as int, ni);
            }
            data.push(self.data[src]);
            i = i + 1;
        }
        let r = BipolarHDV { data };
        proof {
            assert(r.data@ =~= rotated(self.data@, by as int));
        }
        r
    }

    /// The exact inverse of `permute`.
    pub fn unpermute(&self, by: usize) -> (r: Self)
        requires
            self.data@.len() > 0,
        ensures
            r.data@ == rotated(
                self.data@,
                self.data@.len() - (by as int % self.data@.len() as int),
            ),
    {
        let n = self.data.len();
        let p = by % n;
        self.permute(n - p)
    }

    /// Binding after permuting each operand by its own shift.
    pub fn pmultiply(&self, pa: usize, other: &Self, pb: usize) -> (r: Self)
        requires
            self.data@.len() == other.data@.len(),
            self.data@.len() > 0,
            self.wf(),
            other.wf(),
        ensures
            r.data@.len() == self.data@.len(),
            forall|i: int|
                0 <= i < self.data@.len() ==> r.data@[i] == rotated(self.data@, pa as int)[i]
                    * rotated(other.data@, pb as int)[i],
            r.wf(),
    {
        let a = self.permute(pa);
        let b = other.permute(pb);
        proof {
            assert(a.wf()) by {
                assert(forall|i: int|
                    0 <= i < a.data@.len() ==> a.data@[i] == self.data@[(i + pa as int) % (
                    self.data@.len() as int)]);
            }
            assert(b.wf()) by {
                assert(forall|i: int|
                    0 <= i < b.data@.len() ==> b.data@[i] == other.data@[(i + pb as int) % (
                    other.data@.len() as int)]);
            }
        }
        a.multiply(&b)
    }

    /// `bind` composed with independent permutations of the operands.
    pub fn pbind(&self, pa: usize, other: &Self, pb: usize) -> (r: Self)
        requires
            self.data@.len() == other.data@.len(),
            self.data@.len() > 0,
            self.wf(),
            other.wf(),
        ensures
            r.data@.len() == self.data@.len(),
            forall|i: int|
                0 <= i < self.data@.len() ==> r.data@[i] == rotated(self.data@, pa as int)[i]
                    * rotated(other.data@, pb as int)[i],
            r.wf(),
    {
        self.pmultiply(pa, other, pb)
    }

    /// The inverse of `pbind`; sign multiplication is self-inverse, so it
    /// coincides with `pmultiply`.
    pub fn punbind(&self, pa: usize, other: &Self, pb: usize) -> (r: Self)
        requires
            self.data@.len() == other.data@.len(),
            self.data@.len() > 0,
            self.wf(),
            other.wf(),
        ensures
            r.data@.len() == self.data@.len(),
            forall|i: int|
                0 <= i < self.data@.len() ==> r.data@[i] == rotated(self.data@, pa as int)[i]
                    * rotated(other.data@, pb as int)[i],
            r.wf(),
    {
        self.pmultiply(pa, other, pb)
    }
}

/// The views of a list of sign vectors.
pub open spec fn sign_views_of(vs: Seq<&BipolarHDV>) -> Seq<Seq<i8>> {
    vs.map_values(|v: &BipolarHDV| v.data@)
}

/// The signed vote sum of the vectors at component `i`.
pub open spec fn sign_sum_at(vs: Seq<Seq<i8>>, i: int) -> int
    decreases vs.len(),
{
    if vs.len() == 0 {
        0
    } else {
        sign_sum_at(vs.drop_last(), i) + vs.last()[i]
    }
}

pub proof fn lemma_sign_sum_step(vs: Seq<Seq<i8>>, i: int, k: int)
    requires
        0 <= k < vs.len(),
    ensures
        sign_sum_at(vs.take(k + 1), i) == sign_sum_at(vs.take(k), i) + vs[k][i],
{
    assert(vs.take(k + 1).drop_last() =~= vs.take(k));
    assert(vs.take(k + 1).last() == vs[k]);
}

impl BipolarHDV {
    /// Sign-vote bundling: each component sums the signs across the inputs;
    /// a strictly positive sum gives +1, a strictly negative sum -1, and an
    /// exact zero draws the sign at random.
    pub fn bundle(vectors: &[&BipolarHDV]) -> (r: Self)
        requires
            vectors@.len() > 0,
            vectors@.len() <= i64::MAX,
            forall|k: int|
                0 <= k < vectors@.len() ==> (#[trigger] vectors@[k]).data@.len()
                    == vectors@[0].data@.len(),
            forall|k: int| 0 <= k < vectors@.len() ==> (#[trigger] vectors@[k]).wf(),
        ensures
            r.data@.len() == vectors@[0].data@.len(),
            r.wf(),
            forall|i: int|
                0 <= i < vectors@[0].data@.len() ==> sign_vote_ok(
                    sign_sum_at(sign_views_of(vectors@), i),
                    r.data@[i],
                ),
    {
        let ghost views = sign_views_of(vectors@);
        let m = vectors.len();
        let dim = vectors[0].data.len();
        proof {
            assert(forall|k: int| 0 <= k < views.len() ==> views[k] == vectors@[k].data@);
        }
        let mut data: Vec<i8> = Vec::with_capacity(dim);
        let mut i: usize = 0;
        while i < dim
            invariant
                i <= dim,
                m == vectors@.len(),
                m > 0,
                m <= i64::MAX,
                dim == vectors@[0].data@.len(),
                forall|k: int| 0 <= k < vectors@.len() ==> (#[trigger] vectors@[k]).data@.len() == dim,
                forall|k: int| 0 <= k < vectors@.len() ==> (#[trigger] vectors@[k]).wf(),
                views == sign_views_of(vectors@),
                data@.len() == i,
                sign_seq(data@),
                forall|t: int| 0 <= t < i ==> sign_vote_ok(sign_sum_at(views, t), data@[t]),
            decreases dim - i,
        {
            let mut s: i64 = 0;
            let mut v: usize = 0;
            while v < m
                invariant
                    v <= m,
                    i < dim,
                    m == vectors@.len(),
                    m <= i64::MAX,
                    dim == vectors@[0].data@.len(),
                    forall|k: int|
                        0 <= k < vectors@.len() ==> (#[trigger] vectors@[k]).data@.len() == dim,
                    forall|k: int| 0 <= k < vectors@.len() ==> (#[trigger] vectors@[k]).wf(),
                    views == sign_views_of(vectors@),
                    s == sign_sum_at(views.take(v as int), i as int),
                    -(v as int) <= s <= v as int,
                decreases m - v,
            {
                proof {
                    lemma_sign_sum_step(views, i as int, v as int);
                    assert(views[v as int] == vectors@[v as int].data@);
                    assert(vectors@[v as int].data@[i as int] == 1i8 || vectors@[v as int].data@[i
                        as int] == -1i8);
                }
                let e = vectors[v].data[i];
                s = s + (e as i64);
                v = v + 1;
            }
            proof {
                assert(views.take(m as int) =~= views);
            }
            let e: i8 = if s > 0 {
                1i8
            } else if s < 0 {
                -1i8
            } else if coin() {
                1i8
            } else {
                -1i8
            };
            data.push(e);
            i = i + 1;
        }
        BipolarHDV { data }
    }
}

/// Binding is exactly self-inverse for sign vectors: unbinding a bound pair
/// with one of its operands restores the other operand value for value, and
/// the recovered vector's dot product with the original is the full
/// dimension, so the cosine distance between them is zero.
pub proof fn lemma_bind_unbind_exact_bipolar(a: Seq<i8>, b: Seq<i8>, c: Seq<i8>, d: Seq<i8>)
    requires
        a.len() == b.len(),
        c.len() == a.len(),
        d.len() == a.len(),
        sign_seq(a),
        sign_seq(b),
        forall|i: int| 0 <= i < a.len() ==> c[i] == a[i] * b[i],
        forall|i: int| 0 <= i < a.len() ==> d[i] == c[i] * b[i],
    ensures
        d =~= a,
        dot(a, d) == a.len(),
{
    assert forall|i: int| 0 <= i < a.len() implies d[i] == a[i] by {
        assert(a[i] == 1i8 || a[i] == -1i8);
        assert(b[i] == 1i8 || b[i] == -1i8);
    }
    assert(d =~= a);
    lemma_dot_self(a);
    assert(dot(a, d) == dot(a, a));
}

/// The incremental, weighted sign-vote aggregator: one running signed sum
/// per component plus the total weight folded in. Created zeroed, fed any
/// number of (vector, weight) observations, finalized without being
/// consumed.
#[derive(Debug, PartialEq, Clone)]
pub struct BipolarAccumulator {
    /// The running signed weighted sum, one entry per component.
    pub sum: Vec<i64>,
    /// The total weight folded in so far.
    pub total: u64,
}

impl BipolarAccumulator {
    /// Internal soundness: no running sum can exceed the total weight in
    /// magnitude, and the total stays below the signed machine bound.
    pub open spec fn wf(&self) -> bool {
        &&& self.total <= i64::MAX
        &&& forall|i: int|
            0 <= i < self.sum@.len() ==> -(self.total as int) <= (#[trigger] self.sum@[i])
                <= self.total as int
    }

    /// A zeroed aggregate for vectors of `dim` components.
    pub fn new(dim: usize) -> (a: Self)
        ensures
            a.wf(),
            a.sum@.len() == dim,
            a.total == 0,
            forall|i: int| 0 <= i < dim ==> a.sum@[i] == 0i64,
    {
        BipolarAccumulator { sum: vec![0i64; dim], total: 0 }
    }

    /// Whether nothing with positive weight has been folded in yet.
    pub fn is_empty(&self) -> (r: bool)
        ensures
            r == (self.total == 0),
    {
        self.total == 0
    }

    /// Folds one weighted observation into the running sums: each component
    /// moves by `weight` in the direction of the observed sign. A weight of
    /// zero changes nothing.
    pub fn add(&mut self, v: &BipolarHDV, weight: usize)
        requires
            old(self).wf(),
            v.wf(),
            v.data@.len() == old(self).sum@.len(),
            old(self).total + weight <= i64::MAX,
        ensures
            final(self).wf(),
            final(self).sum@.len() == old(self).sum@.len(),
            final(self).total == old(self).total + weight,
            forall|i: int|
                0 <= i < old(self).sum@.len() ==> final(self).sum@[i] == old(self).sum@[i] + (
                weight as int) * (v.data@[i] as int),
    {
        let n = self.sum.len();
        let w64: i64 = weight as i64;
        let mut i: usize = 0;
        while i < n
            invariant
                i <= n,
                n == self.sum@.len(),
                self.sum@.len() == old(self).sum@.len(),
                self.total == old(self).total,
                old(self).wf(),
                v.wf(),
                v.data@.len() == n,
                old(self).total + weight <= i64::MAX,
                w64 == weight,
                forall|t: int|
                    0 <= t < i ==> (#[trigger] self.sum@[t]) == old(self).sum@[t] + (
                    weight as int) * (v.data@[t] as int),
                forall|t: int| i <= t < n ==> (#[trigger] self.sum@[t]) == old(self).sum@[t],
            decreases n - i,
        {
            let e = v.data[i];
            proof {
                assert(e == 1i8 || e == -1i8);
            }
            let cur = self.sum[i];
            self.sum[i] = cur + w64 * (e as i64);
            i = i + 1;
        }
        self.total = self.total + weight as u64;
        proof {
            assert forall|t: int| 0 <= t < n implies -(self.total as int) <= (
            #[trigger] self.sum@[t]) <= self.total as int by {
                assert(v.data@[t] == 1i8 || v.data@[t] == -1i8);
                assert(self.sum@[t] == old(self).sum@[t] + (weight as int) * (v.data@[t] as int));
                assert(-(old(self).total as int) <= old(self).sum@[t] <= old(self).total as int);
                if v.data@[t] == 1i8 {
                    assert((weight as int) * 1 == weight as int);
                } else {
                    assert((weight as int) * (-1) == -(weight as int));
                }
            }
        }
    }

    /// Applies the sign rule to the sums accumulated so far, without
    /// mutating the aggregate: strictly positive gives +1, strictly
    /// negative -1, and an exact zero is drawn at random. It may be called
    /// repeatedly, interleaved with further `add` calls.
    pub fn finalize(&self) -> (r: BipolarHDV)
        ensures
            r.data@.len() == self.sum@.len(),
            r.wf(),
            forall|i: int| 0 <= i < self.sum@.len() ==> sign_vote_ok(self.sum@[i] as int, r.data@[i]),
    {
        let n = self.sum.len();
        let mut data: Vec<i8> = Vec::with_capacity(n);
        let mut i: usize = 0;
        while i < n
            invariant
                i <= n,
                n == self.sum@.len(),
                data@.len() == i,
                sign_seq(data@),
                forall|t: int| 0 <= t < i ==> sign_vote_ok(self.sum@[t] as int, data@[t]),
            decreases n - i,
        {
            let s = self.sum[i];
            let e: i8 = if s > 0 {
                1i8
            } else if s < 0 {
                -1i8
            } else if coin() {
                1i8
            } else {
                -1i8
            };
            data.push(e);
            i = i + 1;
        }
        BipolarHDV { data }
    }
}

impl crate::Accumulator<BipolarHDV> for BipolarAccumulator {
    open spec fn inv(&self) -> bool {
        self.wf()
    }

    open spec fn size(&self) -> int {
        self.sum@.len() as int
    }

    open spec fn size_ok(dim: usize) -> bool {
        true
    }

    open spec fn empty(&self) -> bool {
        self.total == 0
    }

    open spec fn accepts(&self, v: &BipolarHDV) -> bool {
        v.wf() && v.data@.len() == self.sum@.len()
    }

    open spec fn can_take(&self, weight: usize) -> bool {
        self.total + weight <= i64::MAX
    }

    open spec fn folds_to(pre: Self, v: BipolarHDV, weight: usize, post: Self) -> bool {
        &&& post.total == pre.total + weight
        &&& post.sum@.len() == pre.sum@.len()
        &&& forall|i: int|
            0 <= i < pre.sum@.len() ==> post.sum@[i] == pre.sum@[i] + (weight as int) * (
            v.data@[i] as int)
    }

    open spec fn votes_to(&self, r: BipolarHDV) -> bool {
        &&& r.data@.len() == self.sum@.len()
        &&& r.wf()
        &&& forall|i: int|
            0 <= i < self.sum@.len() ==> sign_vote_ok(self.sum@[i] as int, r.data@[i])
    }

    fn new(dim: usize) -> Self {
        BipolarAccumulator::new(dim)
    }

    fn add(&mut self, v: &BipolarHDV, weight: usize) {
        BipolarAccumulator::add(self, v, weight)
    }

    fn finalize(&self) -> BipolarHDV {
        BipolarAccumulator::finalize(self)
    }
}

/// Batch/incremental equivalence for sign bundling: take any list of sign
/// vectors and any one positive weight; let `r_batch` satisfy the sign-vote
/// contract of `BipolarHDV::bundle` on the plain sums, and let `r_inc`
/// satisfy the contract of `BipolarAccumulator::finalize` after every
/// vector was folded in with that same weight. Then the two results agree
/// component for component wherever the sum is not exactly zero (zero sums
/// are drawn at random on both sides and are free).
pub proof fn lemma_batch_incremental_equivalence_bipolar(
    vs: Seq<Seq<i8>>,
    w: int,
    sums: Seq<int>,
    r_batch: Seq<i8>,
    r_inc: Seq<i8>,
    dim: int,
)
    requires
        w > 0,
        sums.len() == dim,
        forall|i: int| 0 <= i < dim ==> sums[i] == w * sign_sum_at(vs, i),
        r_batch.len() == dim,
        forall|i: int| 0 <= i < dim ==> sign_vote_ok(sign_sum_at(vs, i), r_batch[i]),
        r_inc.len() == dim,
        forall|i: int| 0 <= i < dim ==> sign_vote_ok(sums[i], r_inc[i]),
    ensures
        forall|i: int| 0 <= i < dim && sign_sum_at(vs, i) != 0 ==> r_batch[i] == r_inc[i],
{
    assert forall|i: int| 0 <= i < dim && sign_sum_at(vs, i) != 0 implies r_batch[i]
        == r_inc[i] by {
        crate::majority::lemma_batch_incremental_sign_agree(
            sign_sum_at(vs, i),
            w,
            r_batch[i],
            r_inc[i],
        );
    }
}

} // verus!
