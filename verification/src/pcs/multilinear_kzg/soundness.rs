//! What a verifier makes of the values that a batch opening claims: its sum
//! follows them, whatever the prover's messages say, so that a false value is
//! not shown by an honest sum-check proof.

use crate::arithmetic::dense::DenseMultilinearExtension;
use crate::arithmetic::virtual_polynomial::VirtualPolynomial;
use crate::bls12_381::group::{are_multiples, g1_multiple, g1_views, is_g1, G1Affine};
use crate::bls12_381::scalar::Fr;
use crate::errors::PCSError;
use crate::field::{vals, PrimeField};
use crate::math::modular::{eqm, lemma_eqm_mul, lemma_eqm_residue, lemma_eqm_sub, residues};
use crate::math::multilinear::{eq_at, eq_points, eq_table, mle};
use crate::math::sums::{
    lemma_sum_add, lemma_sum_eqm, lemma_sum_scale, lemma_sum_single, lemma_sum_zero, smaller, sum,
};
use crate::pcs::multilinear_kzg::batch_proof::{
    are_queries, claim_scalars, is_batch_outcome, is_claim, is_claim_outcome, is_outcome, opens,
    opens_with, BatchClaim, BatchProof,
};
use crate::pcs::multilinear_kzg::completeness::{
    is_commitment, lemma_honest_opening_convinces, lemma_message_lengths,
    lemma_opening_first_message, queries_fit, query_values,
};
use crate::pcs::multilinear_kzg::opening::OpeningPlan;
use crate::pcs::multilinear_kzg::sharing::{always_proves, pointee};
use crate::poly_iop::structs::IOPProof;
use crate::poly_iop::sum_check::consistency::{convinces, ends};
use std::sync::Arc;
use vstd::arithmetic::div_mod::lemma_small_mod;
use vstd::arithmetic::power2::pow2;
use vstd::prelude::*;

verus! {

/// The number of queries that count for the verifier's sum.
pub open spec fn counted(commitments: int, t: Seq<Fr>) -> int {
    smaller(commitments, pow2(t.len()) as int)
}

/// The verifier's sum follows the claimed values alone. Whatever the
/// commitments, points and sum-check proofs, a sum moves with each claimed value
/// by the query's weight, which is the equality value of `t` at the query's
/// place.
pub proof fn lemma_sum_follows_values<P, Q>(
    commitments: Seq<G1Affine>,
    points: Seq<Vec<Fr>>,
    proof: BatchProof<Fr, P>,
    claim: BatchClaim,
    other_commitments: Seq<G1Affine>,
    other_points: Seq<Vec<Fr>>,
    other_proof: BatchProof<Fr, Q>,
    other_claim: BatchClaim,
    t: Seq<Fr>,
)
    requires
        is_claim(claim, commitments, points, proof, t),
        is_claim(other_claim, other_commitments, other_points, other_proof, t),
        commitments.len() == other_commitments.len(),
        counted(commitments.len() as int, t) <= proof.f_i_eval_at_point_i@.len(),
        counted(commitments.len() as int, t) <= other_proof.f_i_eval_at_point_i@.len(),
    ensures
        eqm(
            Fr::modulus(),
            claim.sum.val() - other_claim.sum.val(),
            sum(
                |i: int|
                    eq_at(vals(t), i) * (proof.f_i_eval_at_point_i@[i].val()
                        - other_proof.f_i_eval_at_point_i@[i].val()),
                0,
                counted(commitments.len() as int, t),
            ),
        ),
{
    Fr::lemma_modulus();
    let p = Fr::modulus();
    let m = counted(commitments.len() as int, t);
    let ws = residues(p, eq_table(vals(t)));
    let (a, b) = (
        vals(proof.f_i_eval_at_point_i@),
        vals(other_proof.f_i_eval_at_point_i@),
    );
    assert(ws.len() == pow2(t.len()));
    let f = |i: int| ws[i] * a[i];
    let g = |i: int| ws[i] * b[i];
    let minus = |i: int| -1 * g(i);
    let both = |i: int| f(i) + minus(i);
    let h = |i: int|
        eq_at(vals(t), i) * (proof.f_i_eval_at_point_i@[i].val()
            - other_proof.f_i_eval_at_point_i@[i].val());
    assert forall|i: int| 0 <= i < m implies eqm(p, #[trigger] both(i), h(i)) by {
        let (w, e, x, y) = (ws[i], eq_at(vals(t), i), a[i], b[i]);
        assert(w * x + -1 * (w * y) == w * (x - y)) by (nonlinear_arith);
        lemma_eqm_residue(p, e);
        lemma_eqm_mul(p, w, e, x - y, x - y);
    }
    lemma_sum_eqm(p, both, h, 0, m);
    lemma_sum_add(f, minus, 0, m);
    lemma_sum_scale(-1, g, 0, m);
    lemma_eqm_residue(p, sum(f, 0, m));
    lemma_eqm_residue(p, sum(g, 0, m));
    lemma_eqm_sub(p, sum(f, 0, m) % p, sum(f, 0, m), sum(g, 0, m) % p, sum(g, 0, m));
    assert(claim.sum.val() == sum(f, 0, m) % p);
    assert(other_claim.sum.val() == sum(g, 0, m) % p);
}

/// Claimed values that are all zero make the sum zero.
pub proof fn lemma_no_values_no_sum<P>(
    commitments: Seq<G1Affine>,
    points: Seq<Vec<Fr>>,
    proof: BatchProof<Fr, P>,
    claim: BatchClaim,
    t: Seq<Fr>,
)
    requires
        is_claim(claim, commitments, points, proof, t),
        counted(commitments.len() as int, t) <= proof.f_i_eval_at_point_i@.len(),
        forall|i: int|
            0 <= i < counted(commitments.len() as int, t) ==> (
            #[trigger] proof.f_i_eval_at_point_i@[i]).val() == 0,
    ensures
        claim.sum.val() == 0,
{
    Fr::lemma_modulus();
    let p = Fr::modulus();
    let m = counted(commitments.len() as int, t);
    let ws = residues(p, eq_table(vals(t)));
    let a = vals(proof.f_i_eval_at_point_i@);
    assert(ws.len() == pow2(t.len()));
    let f = |i: int| ws[i] * a[i];
    assert forall|i: int| 0 <= i < m implies #[trigger] f(i) == 0 by {
        assert(proof.f_i_eval_at_point_i@[i].val() == 0);
        assert(ws[i] * 0 == 0);
    }
    lemma_sum_zero(f, 0, m);
    lemma_small_mod(0, p as nat);
}

/// Two batch openings whose claimed values differ in one query, by a difference
/// that its weight does not make vanish, have different sums.
pub proof fn lemma_other_value_other_sum<P, Q>(
    commitments: Seq<G1Affine>,
    points: Seq<Vec<Fr>>,
    proof: BatchProof<Fr, P>,
    claim: BatchClaim,
    other_commitments: Seq<G1Affine>,
    other_points: Seq<Vec<Fr>>,
    other_proof: BatchProof<Fr, Q>,
    other_claim: BatchClaim,
    t: Seq<Fr>,
    j: int,
)
    requires
        is_claim(claim, commitments, points, proof, t),
        is_claim(other_claim, other_commitments, other_points, other_proof, t),
        commitments.len() == other_commitments.len(),
        counted(commitments.len() as int, t) <= proof.f_i_eval_at_point_i@.len(),
        counted(commitments.len() as int, t) <= other_proof.f_i_eval_at_point_i@.len(),
        0 <= j < counted(commitments.len() as int, t),
        forall|i: int|
            0 <= i < counted(commitments.len() as int, t) && i != j ==> (
            #[trigger] proof.f_i_eval_at_point_i@[i]).val()
                == other_proof.f_i_eval_at_point_i@[i].val(),
        (eq_at(vals(t), j) * (proof.f_i_eval_at_point_i@[j].val()
            - other_proof.f_i_eval_at_point_i@[j].val())) % Fr::modulus() != 0,
    ensures
        claim.sum.val() != other_claim.sum.val(),
{
    Fr::lemma_modulus();
    let m = counted(commitments.len() as int, t);
    lemma_sum_follows_values(
        commitments,
        points,
        proof,
        claim,
        other_commitments,
        other_points,
        other_proof,
        other_claim,
        t,
    );
    let h = |i: int|
        eq_at(vals(t), i) * (proof.f_i_eval_at_point_i@[i].val()
            - other_proof.f_i_eval_at_point_i@[i].val());
    assert forall|i: int| 0 <= i < m && i != j implies #[trigger] h(i) == 0 by {
        assert(proof.f_i_eval_at_point_i@[i].val() == other_proof.f_i_eval_at_point_i@[i].val());
        assert(eq_at(vals(t), i) * 0 == 0);
    }
    lemma_sum_single(h, 0, m, j);
    lemma_small_mod(0, Fr::modulus() as nat);
}

/// Where an honest sum-check proof shows the verifier's sum, the claimed values
/// weigh as much as the polynomials' true values at their points.
pub proof fn lemma_shown_sum_is_true<P>(
    plan: OpeningPlan<Fr>,
    polynomials: Seq<Arc<DenseMultilinearExtension<Fr>>>,
    points: Seq<Vec<Fr>>,
    weights: Seq<Fr>,
    g_prime: DenseMultilinearExtension<Fr>,
    proof: BatchProof<Fr, P>,
    t: Seq<Fr>,
    commitments: Seq<G1Affine>,
    claim: BatchClaim,
)
    requires
        polynomials.len() > 0,
        plan.num_var > 0,
        plan.plans(polynomials, points, weights),
        queries_fit(polynomials, points, weights, plan.num_var as nat),
        vals(weights) == residues(Fr::modulus(), eq_table(vals(t))),
        plan.has_multiplicand(),
        opens(plan, proof.sum_check_proof, g_prime, proof.sum_check_proof.point@),
        commitments.len() == polynomials.len(),
        polynomials.len() <= proof.f_i_eval_at_point_i@.len(),
        is_claim(claim, commitments, points, proof, t),
        eqm(Fr::modulus(), claim.sum.val(), ends(proof.sum_check_proof.proofs@[0])),
    ensures
        eqm(
            Fr::modulus(),
            sum(
                |i: int| eq_at(vals(t), i) * proof.f_i_eval_at_point_i@[i].val(),
                0,
                polynomials.len() as int,
            ),
            sum(
                |i: int| eq_at(vals(t), i) * query_values(polynomials, points)[i],
                0,
                polynomials.len() as int,
            ),
        ),
{
    Fr::lemma_modulus();
    let p = Fr::modulus();
    let k = polynomials.len() as int;
    let ws = vals(weights);
    let ys = query_values(polynomials, points);
    let a = vals(proof.f_i_eval_at_point_i@);
    let vp = choose|vp: VirtualPolynomial<Fr>| #[trigger]
        opens_with(plan, proof.sum_check_proof, g_prime, proof.sum_check_proof.point@, vp);
    lemma_opening_first_message(
        plan,
        polynomials,
        points,
        weights,
        vp,
        proof.sum_check_proof,
        g_prime,
        proof.sum_check_proof.point@,
    );
    assert(ws.len() == weights.len());
    assert(ws.len() == pow2(t.len()));
    let f = |i: int| ws[i] * a[i];
    let g = |i: int| eq_at(vals(t), i) * proof.f_i_eval_at_point_i@[i].val();
    let u = |i: int| ws[i] * ys[i];
    let v = |i: int| eq_at(vals(t), i) * ys[i];
    assert forall|i: int| 0 <= i < k implies eqm(p, #[trigger] f(i), g(i)) by {
        lemma_eqm_residue(p, eq_at(vals(t), i));
        lemma_eqm_mul(p, ws[i], eq_at(vals(t), i), a[i], a[i]);
    }
    assert forall|i: int| 0 <= i < k implies eqm(p, #[trigger] u(i), v(i)) by {
        lemma_eqm_residue(p, eq_at(vals(t), i));
        lemma_eqm_mul(p, ws[i], eq_at(vals(t), i), ys[i], ys[i]);
    }
    lemma_sum_eqm(p, f, g, 0, k);
    lemma_sum_eqm(p, u, v, 0, k);
    lemma_eqm_residue(p, sum(f, 0, k));
}

/// A batch opening with one false value is refused: an honest sum-check proof
/// does not show the sum that the verifier claims, where the weight does not
/// make the value's error vanish.
pub proof fn lemma_false_value_is_refused<P>(
    plan: OpeningPlan<Fr>,
    polynomials: Seq<Arc<DenseMultilinearExtension<Fr>>>,
    points: Seq<Vec<Fr>>,
    weights: Seq<Fr>,
    g_prime: DenseMultilinearExtension<Fr>,
    proof: BatchProof<Fr, P>,
    t: Seq<Fr>,
    commitments: Seq<G1Affine>,
    claim: BatchClaim,
    j: int,
    value: int,
)
    requires
        polynomials.len() > 0,
        plan.num_var > 0,
        plan.plans(polynomials, points, weights),
        queries_fit(polynomials, points, weights, plan.num_var as nat),
        vals(weights) == residues(Fr::modulus(), eq_table(vals(t))),
        plan.has_multiplicand(),
        opens(plan, proof.sum_check_proof, g_prime, proof.sum_check_proof.point@),
        commitments.len() == polynomials.len(),
        polynomials.len() <= proof.f_i_eval_at_point_i@.len(),
        is_claim(claim, commitments, points, proof, t),
        0 <= j < polynomials.len(),
        forall|i: int|
            0 <= i < polynomials.len() && i != j ==> eqm(
                Fr::modulus(),
                (#[trigger] proof.f_i_eval_at_point_i@[i]).val(),
                query_values(polynomials, points)[i],
            ),
        (eq_at(vals(t), j) * (proof.f_i_eval_at_point_i@[j].val() - query_values(
            polynomials,
            points,
        )[j])) % Fr::modulus() != 0,
    ensures
        !convinces(
            proof.sum_check_proof,
            claim.sum.val(),
            claim.aux_info.max_degree as int,
            claim.aux_info.num_variables as nat,
            value,
        ),
{
    Fr::lemma_modulus();
    let p = Fr::modulus();
    let k = polynomials.len() as int;
    let ys = query_values(polynomials, points);
    if eqm(p, claim.sum.val(), ends(proof.sum_check_proof.proofs@[0])) {
        lemma_shown_sum_is_true(
            plan,
            polynomials,
            points,
            weights,
            g_prime,
            proof,
            t,
            commitments,
            claim,
        );
        let g = |i: int| eq_at(vals(t), i) * proof.f_i_eval_at_point_i@[i].val();
        let v = |i: int| eq_at(vals(t), i) * ys[i];
        let minus = |i: int| -1 * v(i);
        let both = |i: int| g(i) + minus(i);
        let own = |i: int|
            if i == j {
                eq_at(vals(t), j) * (proof.f_i_eval_at_point_i@[j].val() - ys[j])
            } else {
                0
            };
        assert forall|i: int| 0 <= i < k implies eqm(p, #[trigger] both(i), own(i)) by {
            let (e, x, y) = (eq_at(vals(t), i), proof.f_i_eval_at_point_i@[i].val(), ys[i]);
            assert(e * x + -1 * (e * y) == e * (x - y)) by (nonlinear_arith);
            if i != j {
                assert(eqm(p, proof.f_i_eval_at_point_i@[i].val(), ys[i]));
                lemma_eqm_sub(p, x, y, y, y);
                lemma_eqm_mul(p, e, e, x - y, 0);
                assert(e * 0 == 0);
            }
        }
        lemma_sum_eqm(p, both, own, 0, k);
        lemma_sum_add(g, minus, 0, k);
        lemma_sum_scale(-1, v, 0, k);
        lemma_sum_single(own, 0, k, j);
        lemma_eqm_sub(p, sum(g, 0, k), sum(v, 0, k), sum(v, 0, k), sum(v, 0, k));
        lemma_small_mod(0, p as nat);
    }
}

/// What is to be opened follows the commitments, the points, `t` and the
/// sum-check proof's point, whatever the values and messages.
pub proof fn lemma_claims_agree<P, Q>(
    commitments: Seq<G1Affine>,
    points: Seq<Vec<Fr>>,
    proof: BatchProof<Fr, P>,
    claim: BatchClaim,
    other_proof: BatchProof<Fr, Q>,
    other_claim: BatchClaim,
    t: Seq<Fr>,
)
    requires
        is_claim(claim, commitments, points, proof, t),
        is_claim(other_claim, commitments, points, other_proof, t),
        vals(proof.sum_check_proof.point@) == vals(other_proof.sum_check_proof.point@),
    ensures
        claim.commitment@ == other_claim.commitment@,
        vals(claim.point@) == vals(other_claim.point@),
        claim.aux_info == other_claim.aux_info,
{
    assert(vals(claim.point@).len() == claim.point@.len());
    assert(vals(other_claim.point@).len() == other_claim.point@.len());
}

/// The commitment to be opened combines those of the queries, whatever they
/// commit to: where they are multiples of a point of the group, it is the
/// multiple by the sum of theirs, each times the query's weight and the equality
/// of the query's point with the sum-check proof's point.
pub proof fn lemma_commitment_combines<P>(
    commitments: Seq<G1Affine>,
    points: Seq<Vec<Fr>>,
    proof: BatchProof<Fr, P>,
    claim: BatchClaim,
    t: Seq<Fr>,
    g: (int, int, bool),
    logs: Seq<int>,
)
    requires
        is_claim(claim, commitments, points, proof, t),
        points.len() <= commitments.len(),
        points.len() <= pow2(t.len()),
        is_g1(g),
        are_multiples(g1_views(commitments), g, logs),
    ensures
        claim.commitment@ == g1_multiple(
            g,
            sum(
                |i: int|
                    logs[i] * (eq_points(
                        vals(proof.sum_check_proof.point@),
                        vals(points[i]@),
                    ) * eq_at(vals(t), i)),
                0,
                points.len() as int,
            ) % Fr::modulus(),
        ),
{
    Fr::lemma_modulus();
    let p = Fr::modulus();
    let k = points.len() as int;
    let ws = residues(p, eq_table(vals(t)));
    let a2 = vals(proof.sum_check_proof.point@);
    let scalars = claim_scalars(points, a2, ws);
    let bases = g1_views(commitments.take(k));
    let first = logs.take(k);
    assert(ws.len() == pow2(t.len()));
    assert forall|i: int| 0 <= i < bases.len() implies #[trigger] bases[i] == g1_multiple(
        g,
        first[i],
    ) by {
        assert(g1_views(commitments)[i] == g1_multiple(g, logs[i]));
    }
    assert(are_multiples(bases, g, first));
    let f = |i: int| first[i] * scalars[i];
    let h = |i: int| logs[i] * (eq_points(a2, vals(points[i]@)) * eq_at(vals(t), i));
    assert forall|i: int| 0 <= i < k implies eqm(p, #[trigger] f(i), h(i)) by {
        let (e, w) = (eq_points(a2, vals(points[i]@)), eq_at(vals(t), i));
        lemma_eqm_residue(p, w);
        lemma_eqm_mul(p, e, e, w % p, w);
        lemma_eqm_residue(p, e * (w % p));
        lemma_eqm_mul(p, logs[i], logs[i], scalars[i], e * w);
    }
    lemma_sum_eqm(p, f, h, 0, k);
}

/// The verifier makes its claim of every batch opening whose points have as many
/// coordinates as the sum-check proof has challenges, and of no other.
pub proof fn lemma_claim_is_made<P>(
    commitments: Seq<G1Affine>,
    points: Seq<Vec<Fr>>,
    proof: BatchProof<Fr, P>,
    t: Seq<Fr>,
    r: Result<BatchClaim, PCSError>,
)
    requires
        is_claim_outcome(commitments, points, proof, t, r),
        t.len() > 0,
    ensures
        r is Ok <==> forall|i: int|
            0 <= i < points.len() ==> vals((#[trigger] points[i])@).len()
                == proof.sum_check_proof.point@.len(),
{
    assert forall|i: int| 0 <= i < points.len() implies vals((#[trigger] points[i])@).len()
        == points[i]@.len() by {}
}

/// Queries whose challenges `t` weigh each of them.
pub open spec fn are_weighed_queries(
    polynomials: Seq<Arc<DenseMultilinearExtension<Fr>>>,
    points: Seq<Vec<Fr>>,
    t: Seq<Fr>,
) -> bool {
    &&& are_queries(polynomials, points)
    &&& points.len() == polynomials.len()
    &&& forall|i: int| 0 <= i < polynomials.len() ==> (#[trigger] polynomials[i]).wf()
    &&& polynomials.len() <= pow2(t.len())
}

/// What the prover opens, the verifier accepts: with the polynomials' true
/// values and commitments to them, the proof shows the sum that the verifier
/// claims with messages of three values, one for each variable, it ends in the
/// value of the polynomial to open at the challenges, and the verifier's
/// commitment is one to that polynomial.
pub proof fn lemma_opened_is_accepted<P>(
    polynomials: Seq<Arc<DenseMultilinearExtension<Fr>>>,
    points: Seq<Vec<Fr>>,
    t: Seq<Fr>,
    challenges: Seq<Fr>,
    opening: (IOPProof<Fr>, Arc<DenseMultilinearExtension<Fr>>),
    proof: BatchProof<Fr, P>,
    commitments: Seq<G1Affine>,
    claim: BatchClaim,
    g: (int, int, bool),
    secrets: Seq<int>,
)
    requires
        are_weighed_queries(polynomials, points, t),
        always_proves(polynomials, points, t),
        is_batch_outcome(polynomials, points, t, challenges, Ok(opening)),
        proof.sum_check_proof == opening.0,
        vals(proof.f_i_eval_at_point_i@) == residues(
            Fr::modulus(),
            query_values(polynomials, points),
        ),
        is_g1(g),
        secrets.len() == polynomials[0].num_vars,
        commitments.len() == polynomials.len(),
        forall|i: int|
            0 <= i < commitments.len() ==> is_commitment(
                #[trigger] commitments[i],
                g,
                secrets,
                *polynomials[i],
            ),
        is_claim(claim, commitments, points, proof, t),
    ensures
        claim.point@ == challenges,
        claim.aux_info.max_degree == 2,
        claim.aux_info.num_variables == polynomials[0].num_vars,
        convinces(
            opening.0,
            claim.sum.val(),
            2,
            polynomials[0].num_vars as nat,
            mle(opening.1.table(), vals(challenges)),
        ),
        is_commitment(claim.commitment, g, secrets, *opening.1),
{
    let (plan, weights) = choose|plan: OpeningPlan<Fr>, weights: Seq<Fr>| #[trigger]
        plan.plans(polynomials, points, weights) && vals(weights) == residues(
            Fr::modulus(),
            eq_table(vals(t)),
        ) && is_outcome(plan, challenges, Ok(opening));
    assert(vals(weights).len() == weights.len());
    assert(weights.len() == pow2(t.len()));
    assert(plan.has_multiplicand());
    assert(opens(plan, opening.0, pointee(opening.1), challenges));
    lemma_message_lengths(plan, opening.0, pointee(opening.1), challenges, 0);
    assert(queries_fit(polynomials, points, weights, plan.num_var as nat));
    lemma_honest_opening_convinces(
        plan,
        polynomials,
        points,
        weights,
        pointee(opening.1),
        proof,
        t,
        commitments,
        claim,
        g,
        secrets,
    );
}

/// What the prover opens, the verifier refuses where one value is false and the
/// weight does not make its error vanish.
pub proof fn lemma_opened_with_false_value_is_refused<P>(
    polynomials: Seq<Arc<DenseMultilinearExtension<Fr>>>,
    points: Seq<Vec<Fr>>,
    t: Seq<Fr>,
    challenges: Seq<Fr>,
    opening: (IOPProof<Fr>, Arc<DenseMultilinearExtension<Fr>>),
    proof: BatchProof<Fr, P>,
    commitments: Seq<G1Affine>,
    claim: BatchClaim,
    j: int,
    value: int,
)
    requires
        are_weighed_queries(polynomials, points, t),
        always_proves(polynomials, points, t),
        is_batch_outcome(polynomials, points, t, challenges, Ok(opening)),
        proof.sum_check_proof == opening.0,
        commitments.len() == polynomials.len(),
        polynomials.len() <= proof.f_i_eval_at_point_i@.len(),
        is_claim(claim, commitments, points, proof, t),
        0 <= j < polynomials.len(),
        forall|i: int|
            0 <= i < polynomials.len() && i != j ==> eqm(
                Fr::modulus(),
                (#[trigger] proof.f_i_eval_at_point_i@[i]).val(),
                query_values(polynomials, points)[i],
            ),
        (eq_at(vals(t), j) * (proof.f_i_eval_at_point_i@[j].val() - query_values(
            polynomials,
            points,
        )[j])) % Fr::modulus() != 0,
    ensures
        !convinces(opening.0, claim.sum.val(), 2, polynomials[0].num_vars as nat, value),
{
    let (plan, weights) = choose|plan: OpeningPlan<Fr>, weights: Seq<Fr>| #[trigger]
        plan.plans(polynomials, points, weights) && vals(weights) == residues(
            Fr::modulus(),
            eq_table(vals(t)),
        ) && is_outcome(plan, challenges, Ok(opening));
    assert(vals(weights).len() == weights.len());
    assert(weights.len() == pow2(t.len()));
    assert(plan.has_multiplicand());
    assert(opens(plan, opening.0, pointee(opening.1), challenges));
    lemma_message_lengths(plan, opening.0, pointee(opening.1), challenges, 0);
    assert(queries_fit(polynomials, points, weights, plan.num_var as nat));
    lemma_false_value_is_refused(
        plan,
        polynomials,
        points,
        weights,
        pointee(opening.1),
        proof,
        t,
        commitments,
        claim,
        j,
        value,
    );
}

} // verus!
