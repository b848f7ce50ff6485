//! Cyclic rotation of a sequence, the model behind `permute` / `unpermute`,
//! and the proof that the two are exact inverses of one another.
use vstd::prelude::*;
use vstd::arithmetic::div_mod::{
    lemma_add_mod_noop_right, lemma_mod_add_multiples_vanish, lemma_mod_bound, lemma_small_mod,
};

verus! {

/// The cyclic left rotation of `s` by `k` positions: element `i` of the
/// result is element `(i + k) mod len` of `s`.
pub open spec fn rotated<T>(s: Seq<T>, k: int) -> Seq<T> {
    Seq::new(s.len(), |i: int| s[(i + k) % (s.len() as int)])
}

/// Rotating by `k` and by `k'` in turn is rotating by `k + k'`.
pub proof fn lemma_rotated_compose<T>(s: Seq<T>, k1: int, k2: int)
    requires
        s.len() > 0,
        k1 >= 0,
        k2 >= 0,
    ensures
        rotated(rotated(s, k1), k2) =~= rotated(s, k1 + k2),
{
    let n = s.len() as int;
    assert forall|i: int| 0 <= i < n implies rotated(rotated(s, k1), k2)[i] == rotated(
        s,
        k1 + k2,
    )[i] by {
        lemma_mod_bound(i + k2, n);
        lemma_add_mod_noop_right(k1, i + k2, n);
        assert(((i + k2) % n + k1) % n == (i + k2 + k1) % n);
    }
}

/// Rotating by a multiple of the length changes nothing.
pub proof fn lemma_rotated_full<T>(s: Seq<T>, k: int)
    requires
        s.len() > 0,
        k >= 0,
        k % (s.len() as int) == 0,
    ensures
        rotated(s, k) =~= s,
{
    let n = s.len() as int;
    assert forall|i: int| 0 <= i < n implies rotated(s, k)[i] == s[i] by {
        lemma_mod_add_multiples_vanish(i, n);
        lemma_add_mod_noop_right(i, k, n);
        lemma_small_mod(i as nat, n as nat);
        assert((i + k) % n == i);
    }
}

/// Undoing a rotation: rotating by `k` and then by `len - k mod len`
/// restores the sequence exactly, for every shift `k`.
pub proof fn lemma_rotated_round_trip<T>(s: Seq<T>, k: int)
    requires
        s.len() > 0,
        k >= 0,
    ensures
        rotated(rotated(s, k), s.len() - k % (s.len() as int)) =~= s,
{
    let n = s.len() as int;
    let back = n - k % n;
    lemma_mod_bound(k, n);
    lemma_rotated_compose(s, k, back);
    assert((k + back) % n == 0) by {
        vstd::arithmetic::div_mod::lemma_fundamental_div_mod(k, n);
        assert(k + back == n * (k / n) + n);
        vstd::arithmetic::mul::lemma_mul_is_distributive_add(n, k / n, 1);
        assert(k + back == n * (k / n + 1));
        vstd::arithmetic::div_mod::lemma_mod_multiples_basic(k / n + 1, n);
        vstd::arithmetic::mul::lemma_mul_is_commutative(n, k / n + 1);
    }
    assert(rotated(rotated(s, k), back) =~= rotated(s, k + back));
    assert(rotated(s, k + back) =~= s) by {
        lemma_rotated_full(s, k + back);
    }
}

} // verus!
