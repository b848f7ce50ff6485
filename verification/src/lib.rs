//! A hyperdimensional-computing algebra: symbols live in very long vectors,
//! and a small set of operators (random generation, binding, permutation,
//! majority-vote bundling, similarity) builds symbolic structure out of
//! them. Two exact representations are provided — bit-packed binary vectors
//! and sign-valued bipolar vectors — together with incremental weighted
//! accumulators, a flat binary serialization, and a worked analogy: Pentti
//! Kanerva's "What's the dollar of Mexico?".
pub mod bits;
pub mod rotate;
pub mod majority;
pub mod rng;
pub mod binary_hdv;
pub mod bipolar_hdv;
pub mod codec;

use vstd::prelude::*;
use crate::binary_hdv::{BinaryAccumulator, BinaryHDV};
use crate::bipolar_hdv::{dot, BipolarAccumulator, BipolarHDV};
use crate::bits::hamming;
use crate::rng::mt_new;

verus! {

/// The incremental-aggregation contract the representations' accumulators
/// implement: an aggregate is created zeroed for one dimension, fed any
/// number of weighted observations, and finalized without being consumed,
/// so it can be queried repeatedly and fed further. Each implementor fixes,
/// through its spec functions, which aggregate states are sound, which
/// vectors and weights an aggregate can take, how one observation moves it,
/// and which results finalizing may return.
pub trait Accumulator<T>: Sized {
    /// Soundness of the running aggregate.
    spec fn inv(&self) -> bool;

    /// The dimension the aggregate was created for.
    spec fn size(&self) -> int;

    /// Which dimensions an aggregate can be created for at all.
    spec fn size_ok(dim: usize) -> bool;

    /// Whether nothing with positive weight has been folded in yet.
    spec fn empty(&self) -> bool;

    /// Whether the aggregate can take this vector.
    spec fn accepts(&self, v: &T) -> bool;

    /// Whether one more observation of this weight still fits the
    /// aggregate's counters.
    spec fn can_take(&self, weight: usize) -> bool;

    /// How one weighted observation moves the aggregate.
    spec fn folds_to(pre: Self, v: T, weight: usize, post: Self) -> bool;

    /// Which results finalizing the aggregate may return.
    spec fn votes_to(&self, r: T) -> bool;

    /// A zeroed aggregate sized to vectors of dimension `dim`.
    fn new(dim: usize) -> (a: Self)
        requires
            Self::size_ok(dim),
        ensures
            a.inv(),
            a.size() == dim,
            a.empty(),
    ;

    /// Folds one weighted observation into the running aggregate.
    fn add(&mut self, v: &T, weight: usize)
        requires
            old(self).inv(),
            old(self).accepts(v),
            old(self).can_take(weight),
        ensures
            final(self).inv(),
            final(self).size() == old(self).size(),
            Self::folds_to(*old(self), *v, weight, *final(self)),
    ;

    /// Applies the representation's voting rule to the aggregate as it
    /// stands, without mutating it.
    fn finalize(&self) -> (r: T)
        requires
            self.inv(),
        ensures
            self.votes_to(r),
    ;
}

/// The first candidate nearest to `x` by Hamming distance: its distance is
/// minimal among all candidates, and every earlier candidate is strictly
/// farther.
pub fn nearest_binary(x: &BinaryHDV, candidates: &Vec<BinaryHDV>) -> (idx: usize)
    requires
        candidates@.len() > 0,
        forall|j: int|
            0 <= j < candidates@.len() ==> (#[trigger] candidates@[j]).data@.len()
                == x.data@.len(),
        64 * x.data@.len() <= usize::MAX,
    ensures
        idx < candidates@.len(),
        forall|j: int|
            0 <= j < candidates@.len() ==> hamming(x.data@, candidates@[idx as int].data@)
                <= hamming(x.data@, (#[trigger] candidates@[j]).data@),
        forall|j: int|
            0 <= j < idx ==> hamming(x.data@, (#[trigger] candidates@[j]).data@) > hamming(
                x.data@,
                candidates@[idx as int].data@,
            ),
{
    let mut idx: usize = 0;
    let mut best: usize = x.hamming_distance(&candidates[0]);
    let mut j: usize = 1;
    while j < candidates.len()
        invariant
            idx < j,
            1 <= j <= candidates@.len(),
            forall|t: int|
                0 <= t < candidates@.len() ==> (#[trigger] candidates@[t]).data@.len()
                    == x.data@.len(),
            64 * x.data@.len() <= usize::MAX,
            best == hamming(x.data@, candidates@[idx as int].data@),
            forall|t: int|
                0 <= t < j ==> best <= hamming(x.data@, (#[trigger] candidates@[t]).data@),
            forall|t: int|
                0 <= t < idx ==> hamming(x.data@, (#[trigger] candidates@[t]).data@) > best,
        decreases candidates@.len() - j,
    {
        let d = x.hamming_distance(&candidates[j]);
        if d < best {
            best = d;
            idx = j;
        }
        j = j + 1;
    }
    idx
}

/// The first candidate nearest to `x` on the cosine scale: since the
/// distance is one minus the dot product over the dimension, the nearest
/// candidate is the one with the greatest dot product, and every earlier
/// candidate has a strictly smaller one.
pub fn nearest_bipolar(x: &BipolarHDV, candidates: &Vec<BipolarHDV>) -> (idx: usize)
    requires
        candidates@.len() > 0,
        x.wf(),
        forall|j: int| 0 <= j < candidates@.len() ==> (#[trigger] candidates@[j]).wf(),
        forall|j: int|
            0 <= j < candidates@.len() ==> (#[trigger] candidates@[j]).data@.len()
                == x.data@.len(),
        x.data@.len() <= i64::MAX,
    ensures
        idx < candidates@.len(),
        forall|j: int|
            0 <= j < candidates@.len() ==> dot(x.data@, candidates@[idx as int].data@) >= dot(
                x.data@,
                (#[trigger] candidates@[j]).data@,
            ),
        forall|j: int|
            0 <= j < idx ==> dot(x.data@, (#[trigger] candidates@[j]).data@) < dot(
                x.data@,
                candidates@[idx as int].data@,
            ),
{
    let mut idx: usize = 0;
    let mut best: i64 = x.dot(&candidates[0]);
    let mut j: usize = 1;
    while j < candidates.len()
        invariant
            idx < j,
            1 <= j <= candidates@.len(),
            x.wf(),
            forall|t: int| 0 <= t < candidates@.len() ==> (#[trigger] candidates@[t]).wf(),
            forall|t: int|
                0 <= t < candidates@.len() ==> (#[trigger] candidates@[t]).data@.len()
                    == x.data@.len(),
            x.data@.len() <= i64::MAX,
            best == dot(x.data@, candidates@[idx as int].data@),
            forall|t: int|
                0 <= t < j ==> best >= dot(x.data@, (#[trigger] candidates@[t]).data@),
            forall|t: int| 0 <= t < idx ==> dot(x.data@, (#[trigger] candidates@[t]).data@) < best,
        decreases candidates@.len() - j,
    {
        let d = x.dot(&candidates[j]);
        if d > best {
            best = d;
            idx = j;
        }
        j = j + 1;
    }
    idx
}

/// Whether a label is one of the nine atomic fillers of the Kanerva
/// analogy's vocabulary.
pub open spec fn dollar_vocab_label(label: Seq<char>) -> bool {
    ||| label == "swe"@
    ||| label == "usa"@
    ||| label == "mex"@
    ||| label == "stkhlm"@
    ||| label == "wdc"@
    ||| label == "cdmx"@
    ||| label == "usd"@
    ||| label == "mpe"@
    ||| label == "skr"@
}

/// Picks the vocabulary label for an index below nine.
fn dollar_label(idx: usize) -> (label: &'static str)
    requires
        idx < 9,
    ensures
        dollar_vocab_label(label@),
{
    if idx == 0 {
        "swe"
    } else if idx == 1 {
        "usa"
    } else if idx == 2 {
        "mex"
    } else if idx == 3 {
        "stkhlm"
    } else if idx == 4 {
        "wdc"
    } else if idx == 5 {
        "cdmx"
    } else if idx == 6 {
        "usd"
    } else if idx == 7 {
        "mpe"
    } else {
        "skr"
    }
}

/// Kanerva's "What's the dollar of Mexico?" analogy, run on binary vectors
/// of `words` machine words: three countries are encoded as role–filler
/// bundles over a fixed seed, the United-States and Mexico records are
/// bound together, the result is unbound with the dollar, and the label of
/// the vocabulary vector nearest to the answer comes back — for any
/// reasonable dimension, the Mexican peso.
pub fn example_mexican_dollar_binary(words: usize) -> (label: &'static str)
    requires
        1 <= words <= usize::MAX / 64,
    ensures
        dollar_vocab_label(label@),
{
    proof {
        assert(64 * words <= usize::MAX) by (nonlinear_arith)
            requires
                words <= usize::MAX / 64,
        ;
    }
    let mut mt = mt_new(42);
    let name = BinaryHDV::random(&mut mt, words);
    let capital = BinaryHDV::random(&mut mt, words);
    let currency = BinaryHDV::random(&mut mt, words);

    let swe = BinaryHDV::random(&mut mt, words);
    let usa = BinaryHDV::random(&mut mt, words);
    let mex = BinaryHDV::random(&mut mt, words);

    let stockholm = BinaryHDV::random(&mut mt, words);
    let wdc = BinaryHDV::random(&mut mt, words);
    let cdmx = BinaryHDV::random(&mut mt, words);

    let usd = BinaryHDV::random(&mut mt, words);
    let mpe = BinaryHDV::random(&mut mt, words);
    let skr = BinaryHDV::random(&mut mt, words);

    let nu = name.bind(&usa);
    let cw = capital.bind(&wdc);
    let cu = currency.bind(&usd);
    let ustates = BinaryHDV::bundle(&[&nu, &cw, &cu]);

    let mut acc = BinaryAccumulator::new(words);
    let nm = name.bind(&mex);
    let cc = capital.bind(&cdmx);
    let cm = currency.bind(&mpe);
    acc.add(&nm, 1);
    acc.add(&cc, 1);
    acc.add(&cm, 1);
    let mexico = acc.finalize();

    let fmu = mexico.bind(&ustates);
    let x = fmu.unbind(&usd);

    let mut vocab: Vec<BinaryHDV> = Vec::new();
    vocab.push(swe);
    vocab.push(usa);
    vocab.push(mex);
    vocab.push(stockholm);
    vocab.push(wdc);
    vocab.push(cdmx);
    vocab.push(usd);
    vocab.push(mpe);
    vocab.push(skr);

    let idx = nearest_binary(&x, &vocab);
    dollar_label(idx)
}

/// The same analogy on bipolar vectors of `dim` components: nearest means
/// greatest dot product, since the cosine distance falls as the dot product
/// grows.
pub fn example_mexican_dollar_bipolar(dim: usize) -> (label: &'static str)
    requires
        1 <= dim <= i64::MAX,
    ensures
        dollar_vocab_label(label@),
{
    let mut mt = mt_new(42);
    let name = BipolarHDV::random(&mut mt, dim);
    let capital = BipolarHDV::random(&mut mt, dim);
    let currency = BipolarHDV::random(&mut mt, dim);

    let swe = BipolarHDV::random(&mut mt, dim);
    let usa = BipolarHDV::random(&mut mt, dim);
    let mex = BipolarHDV::random(&mut mt, dim);

    let stockholm = BipolarHDV::random(&mut mt, dim);
    let wdc = BipolarHDV::random(&mut mt, dim);
    let cdmx = BipolarHDV::random(&mut mt, dim);

    let usd = BipolarHDV::random(&mut mt, dim);
    let mpe = BipolarHDV::random(&mut mt, dim);
    let skr = BipolarHDV::random(&mut mt, dim);

    let nu = name.bind(&usa);
    let cw = capital.bind(&wdc);
    let cu = currency.bind(&usd);
    let ustates = BipolarHDV::bundle(&[&nu, &cw, &cu]);

    let mut acc = BipolarAccumulator::new(dim);
    let nm = name.bind(&mex);
    let cc = capital.bind(&cdmx);
    let cm = currency.bind(&mpe);
    acc.add(&nm, 1);
    acc.add(&cc, 1);
    acc.add(&cm, 1);
    let mexico = acc.finalize();

    let fmu = mexico.bind(&ustates);
    let x = fmu.unbind(&usd);

    let mut vocab: Vec<BipolarHDV> = Vec::new();
    vocab.push(swe);
    vocab.push(usa);
    vocab.push(mex);
    vocab.push(stockholm);
    vocab.push(wdc);
    vocab.push(cdmx);
    vocab.push(usd);
    vocab.push(mpe);
    vocab.push(skr);

    let idx = nearest_bipolar(&x, &vocab);
    dollar_label(idx)
}

} // verus!
