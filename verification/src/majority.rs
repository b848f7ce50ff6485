//! The weighted majority rule shared by the two voting representations, and
//! the laws saying that batch bundling and incremental accumulation decide
//! every untied position the same way.
use vstd::prelude::*;

verus! {

/// What majority voting pins down for one bit position: strictly more set
/// votes than clear votes force a set bit, strictly fewer force a clear bit,
/// and an exact tie leaves the bit free (the implementations draw it at
/// random).
pub open spec fn majority_bit_ok(n1: int, total: int, b: bool) -> bool {
    &&& (2 * n1 > total ==> b)
    &&& (2 * n1 < total ==> !b)
}

/// What sign voting pins down for one component: a strictly positive
/// weighted sum forces +1, a strictly negative one forces -1, and an exact
/// zero leaves the sign free (drawn at random).
pub open spec fn sign_vote_ok(s: int, e: i8) -> bool {
    &&& (e == 1i8 || e == -1i8)
    &&& (s > 0 ==> e == 1i8)
    &&& (s < 0 ==> e == -1i8)
}

/// Away from a tie the majority rule admits exactly one outcome.
pub proof fn lemma_majority_unique(n1: int, total: int, b1: bool, b2: bool)
    requires
        majority_bit_ok(n1, total, b1),
        majority_bit_ok(n1, total, b2),
        2 * n1 != total,
    ensures
        b1 == b2,
{
}

/// Scaling every vote by one positive weight moves no majority: the bits a
/// weighted tally forces are the bits the unweighted tally forces.
pub proof fn lemma_majority_weight_scale(n1: int, total: int, w: int, b: bool)
    requires
        w > 0,
    ensures
        majority_bit_ok(w * n1, w * total, b) == majority_bit_ok(n1, total, b),
{
    assert((2 * (w * n1) > w * total) == (2 * n1 > total)) by (nonlinear_arith)
        requires
            w > 0,
    ;
    assert((2 * (w * n1) < w * total) == (2 * n1 < total)) by (nonlinear_arith)
        requires
            w > 0,
    ;
}

/// Batch and incremental majority bundling agree: a bit decided by the plain
/// tally of the inputs and a bit decided by the tally weighted with one
/// positive weight coincide wherever the vote is not tied.
pub proof fn lemma_batch_incremental_bit_agree(
    n1: int,
    total: int,
    w: int,
    b_batch: bool,
    b_inc: bool,
)
    requires
        w > 0,
        2 * n1 != total,
        majority_bit_ok(n1, total, b_batch),
        majority_bit_ok(w * n1, w * total, b_inc),
    ensures
        b_batch == b_inc,
{
    lemma_majority_weight_scale(n1, total, w, b_inc);
    lemma_majority_unique(n1, total, b_batch, b_inc);
}

/// Away from a zero sum the sign rule admits exactly one outcome.
pub proof fn lemma_sign_vote_unique(s: int, e1: i8, e2: i8)
    requires
        sign_vote_ok(s, e1),
        sign_vote_ok(s, e2),
        s != 0,
    ensures
        e1 == e2,
{
}

/// Scaling a signed vote sum by one positive weight moves no decision.
pub proof fn lemma_sign_vote_weight_scale(s: int, w: int, e: i8)
    requires
        w > 0,
    ensures
        sign_vote_ok(w * s, e) == sign_vote_ok(s, e),
{
    assert((w * s > 0) == (s > 0) && (w * s < 0) == (s < 0)) by (nonlinear_arith)
        requires
            w > 0,
    ;
}

/// Batch and incremental sign bundling agree on every component whose
/// weighted sum is not exactly zero.
pub proof fn lemma_batch_incremental_sign_agree(s: int, w: int, e_batch: i8, e_inc: i8)
    requires
        w > 0,
        s != 0,
        sign_vote_ok(s, e_batch),
        sign_vote_ok(w * s, e_inc),
    ensures
        e_batch == e_inc,
{
    lemma_sign_vote_weight_scale(s, w, e_inc);
    lemma_sign_vote_unique(s, e_batch, e_inc);
}

} // verus!
