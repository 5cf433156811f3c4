//! Why a batch opening convinces: what the prover sums, opens and combines is
//! what the verifier computes from the queries.

use crate::arithmetic::dense::DenseMultilinearExtension;
use crate::arithmetic::virtual_polynomial::VirtualPolynomial;
use crate::bls12_381::group::{
    are_multiples, combines_multiples, g1_multiple, g1_views, is_g1, G1Affine, G2Affine,
};
use crate::bls12_381::scalar::Fr;
use crate::field::{vals, PrimeField};
use crate::math::boolean::{bits, lemma_bits_len};
use crate::math::grouping::{queries_total, rows_total};
use crate::math::modular::{eqm, lemma_eqm_mul, lemma_eqm_residue, residues};
use crate::math::multilinear::{
    eq_at, eq_points, eq_table, lemma_mle_eq_table, lemma_mle_weighted_sum, mle,
};
use crate::math::sums::{lemma_sum_eqm, lemma_sum_ext, sum, weighted_sum};
use crate::math::terms::{cube_sum, lemma_fix_all_push, lemma_weighted_table, pair_sum, terms_value};
use crate::pcs::multilinear_kzg::batch_proof::{
    claim_scalars, is_claim, is_combined, opens, opens_with, BatchClaim, BatchProof,
};
use crate::pcs::multilinear_kzg::batching::weight_at;
use crate::pcs::multilinear_kzg::opening::{least, places, OpeningPlan};
use crate::pcs::multilinear_kzg::srs::{is_power_table, is_prover_param, MultilinearProverParam};
use crate::poly_iop::structs::IOPProof;
use crate::poly_iop::sum_check::consistency::{
    convinces, ends, factors_at_most, lemma_first_message_sum, lemma_proof_convinces,
    lemma_sum_of_values, reads_as,
};
use crate::poly_iop::sum_check::dense_prover::is_dense_message;
use std::sync::Arc;
use vstd::arithmetic::power2::pow2;
use vstd::prelude::*;

verus! {

/// As many points and weights as polynomials, all in `n` variables.
pub open spec fn queries_fit<F: PrimeField>(
    polynomials: Seq<Arc<DenseMultilinearExtension<F>>>,
    points: Seq<Vec<F>>,
    weights: Seq<F>,
    n: nat,
) -> bool {
    &&& points.len() == polynomials.len()
    &&& polynomials.len() <= weights.len()
    &&& forall|i: int|
        0 <= i < polynomials.len() ==> (#[trigger] polynomials[i]).wf() && polynomials[i].num_vars
            == n
    &&& forall|i: int| 0 <= i < points.len() ==> (#[trigger] points[i])@.len() == n
}

/// Every point has `n` coordinates.
pub open spec fn points_full<F: PrimeField>(points: Seq<Vec<F>>, n: nat) -> bool {
    forall|i: int| 0 <= i < points.len() ==> (#[trigger] points[i])@.len() == n
}

/// The value of each polynomial at its point.
pub open spec fn query_values<F: PrimeField>(
    polynomials: Seq<Arc<DenseMultilinearExtension<F>>>,
    points: Seq<Vec<F>>,
) -> Seq<int> {
    Seq::new(polynomials.len(), |i: int| mle(polynomials[i].table(), vals(points[i]@)))
}

/// A point in `n` coordinates adds its equality values.
pub proof fn lemma_weight_of_point(n: nat, point: Seq<int>, x: int)
    requires
        point.len() == n,
        0 <= x < pow2(n),
    ensures
        weight_at(n, point, x) == eq_at(point, x),
{
    assert(point.take(n as int) =~= point);
}

/// The polynomial and the point of query `i` in the plan.
pub proof fn lemma_planned<F: PrimeField>(
    plan: OpeningPlan<F>,
    polynomials: Seq<Arc<DenseMultilinearExtension<F>>>,
    points: Seq<Vec<F>>,
    i: int,
)
    requires
        plan.places_queries(polynomials, points),
        0 <= i < polynomials.len(),
        i < points.len(),
    ensures
        plan.table(plan.poly_indices@[i] as int) == polynomials[i].table(),
        plan.point(plan.point_indices@[i] as int) == vals(points[i]@),
{
    assert(*plan.polynomials@[plan.poly_indices@[i] as int] == *polynomials[i]);
}

/// Query `i` in the plan, in as many variables as the first polynomial has.
proof fn lemma_query<F: PrimeField>(
    plan: OpeningPlan<F>,
    polynomials: Seq<Arc<DenseMultilinearExtension<F>>>,
    points: Seq<Vec<F>>,
    weights: Seq<F>,
    i: int,
)
    requires
        plan.plans(polynomials, points, weights),
        points_full(points, plan.num_var as nat),
        0 <= i < polynomials.len(),
        i < points.len(),
    ensures
        plan.table(plan.poly_indices@[i] as int) == polynomials[i].table(),
        plan.point(plan.point_indices@[i] as int) == vals(points[i]@),
        plan.weight_table(plan.point_indices@[i] as int) == eq_table(vals(points[i]@)),
{
    let n = plan.num_var as nat;
    lemma_planned(plan, polynomials, points, i);
    let point = vals(points[i]@);
    assert(points[i]@.len() == n);
    let (a, b) = (plan.weight_table(plan.point_indices@[i] as int), eq_table(point));
    assert forall|x: int| 0 <= x < a.len() implies a[x] == b[x] by {
        lemma_weight_of_point(n, point, x);
    }
    assert(a =~= b);
}

/// The virtual polynomial of a batch opening sums, over the hypercube, to the
/// weighted sum of the polynomials' values at their points: to what the
/// verifier claims from those values.
pub proof fn lemma_opening_sum<F: PrimeField>(
    plan: OpeningPlan<F>,
    polynomials: Seq<Arc<DenseMultilinearExtension<F>>>,
    points: Seq<Vec<F>>,
    weights: Seq<F>,
    vp: VirtualPolynomial<F>,
)
    requires
        polynomials.len() > 0,
        plan.plans(polynomials, points, weights),
        queries_fit(polynomials, points, weights, plan.num_var as nat),
        plan.is_query_sum(vp),
    ensures
        eqm(
            F::modulus(),
            cube_sum(vp.tables(), vp.terms(), pow2(plan.num_var as nat) as int),
            weighted_sum(
                vals(weights),
                query_values(polynomials, points),
                polynomials.len() as int,
            ),
        ),
{
    let p = F::modulus();
    let k = polynomials.len() as int;
    let (ws, us, ds) = (
        vals(weights),
        places(plan.poly_indices@),
        places(plan.point_indices@),
    );
    let g = plan.pair_sums();
    assert(least(k, points.len() as int, weights.len() as int) == k);
    assert(eqm(p, rows_total(plan.rows(), g), queries_total(ws, us, ds, g, k)));
    let ys = query_values(polynomials, points);
    let a = |i: int| ws[i] * g(us[i], ds[i]);
    let b = |i: int| ws[i] * ys[i];
    assert forall|i: int| 0 <= i < k implies #[trigger] a(i) == b(i) by {
        lemma_query(plan, polynomials, points, weights, i);
        let t = polynomials[i].table();
        let point = vals(points[i]@);
        assert(polynomials[i].wf() && polynomials[i].num_vars == plan.num_var);
        assert(points[i]@.len() == plan.num_var);
        let eq = eq_table(point);
        let size = pow2(plan.num_var as nat) as int;
        lemma_mle_weighted_sum(t, point);
        let f = |x: int| t[x] * eq[x];
        let h = |x: int| t[x] * eq_at(point, x);
        lemma_sum_ext(f, h, 0, size);
        assert(g(us[i], ds[i]) == pair_sum(t, eq, size));
    }
    lemma_sum_ext(a, b, 0, k);
}

/// The combined polynomial is the linear combination of the queries'
/// polynomials with the weights that the verifier gives the commitments.
pub proof fn lemma_combined_is_linear<F: PrimeField>(
    plan: OpeningPlan<F>,
    polynomials: Seq<Arc<DenseMultilinearExtension<F>>>,
    points: Seq<Vec<F>>,
    weights: Seq<F>,
    g_prime: DenseMultilinearExtension<F>,
    a2: Seq<int>,
    x: int,
)
    requires
        polynomials.len() > 0,
        plan.plans(polynomials, points, weights),
        is_combined(plan, g_prime, a2),
        0 <= x < pow2(plan.num_var as nat),
    ensures
        eqm(
            F::modulus(),
            g_prime.table()[x],
            sum(
                |i: int|
                    claim_scalars(points, a2, vals(weights))[i] * polynomials[i].table()[x],
                0,
                least(polynomials.len() as int, points.len() as int, weights.len() as int),
            ),
        ),
{
    F::lemma_modulus();
    let p = F::modulus();
    let k = least(polynomials.len() as int, points.len() as int, weights.len() as int);
    let (ws, us, ds) = (
        vals(weights),
        places(plan.poly_indices@),
        places(plan.point_indices@),
    );
    let g = plan.combined_at(a2, x);
    assert(eqm(p, rows_total(plan.rows(), g), queries_total(ws, us, ds, g, k)));
    assert(g_prime.table()[x] == rows_total(plan.rows(), g) % p);
    lemma_eqm_residue(p, rows_total(plan.rows(), g));
    let scalars = claim_scalars(points, a2, ws);
    let a = |i: int| ws[i] * g(us[i], ds[i]);
    let b = |i: int| scalars[i] * polynomials[i].table()[x];
    assert forall|i: int| 0 <= i < k implies eqm(p, #[trigger] a(i), b(i)) by {
        lemma_planned(plan, polynomials, points, i);
        let (e, w, t) = (eq_points(a2, vals(points[i]@)), ws[i], polynomials[i].table()[x]);
        assert(a(i) == w * (e * t));
        assert(w * (e * t) == (e * w) * t) by (nonlinear_arith);
        lemma_eqm_residue(p, e * w);
        lemma_eqm_mul(p, (e * w) % p, e * w, t, t);
    }
    lemma_sum_eqm(p, a, b, 0, k);
}

/// The combined polynomial takes at every point the linear combination of the
/// values of the queries' polynomials.
pub proof fn lemma_combined_value<F: PrimeField>(
    plan: OpeningPlan<F>,
    polynomials: Seq<Arc<DenseMultilinearExtension<F>>>,
    points: Seq<Vec<F>>,
    weights: Seq<F>,
    g_prime: DenseMultilinearExtension<F>,
    a2: Seq<int>,
    at: Seq<int>,
)
    requires
        polynomials.len() > 0,
        plan.plans(polynomials, points, weights),
        queries_fit(polynomials, points, weights, plan.num_var as nat),
        is_combined(plan, g_prime, a2),
        at.len() == plan.num_var,
    ensures
        eqm(
            F::modulus(),
            mle(g_prime.table(), at),
            sum(
                |i: int|
                    claim_scalars(points, a2, vals(weights))[i] * mle(polynomials[i].table(), at),
                0,
                polynomials.len() as int,
            ),
        ),
{
    F::lemma_modulus();
    let p = F::modulus();
    let n = plan.num_var as nat;
    let size = pow2(n) as int;
    let k = polynomials.len() as int;
    let scalars = claim_scalars(points, a2, vals(weights));
    let b = |i: int| scalars[i] * mle(polynomials[i].table(), at);
    let t = g_prime.table();
    let row = Seq::new(k as nat, |i: int| (i, scalars[i]));
    let w = |i: int, x: int| polynomials[i].table()[x];
    let q = |x: int| eq_at(at, x);
    assert forall|x: int| 0 <= x < size implies eqm(
        p,
        #[trigger] t[x],
        sum(|j: int| row[j].1 * w(row[j].0, x), 0, row.len() as int),
    ) by {
        lemma_combined_is_linear(plan, polynomials, points, weights, g_prime, a2, x);
        let f = |i: int| scalars[i] * polynomials[i].table()[x];
        let h = |j: int| row[j].1 * w(row[j].0, x);
        lemma_sum_ext(f, h, 0, k);
    }
    lemma_weighted_table(p, row, w, t, q, size);
    lemma_mle_weighted_sum(t, at);
    let f = |x: int| t[x] * q(x);
    let h = |x: int| t[x] * eq_at(at, x);
    lemma_sum_ext(f, h, 0, size);
    let c = |j: int| row[j].1 * sum(|x: int| w(row[j].0, x) * q(x), 0, size);
    assert forall|i: int| 0 <= i < k implies #[trigger] c(i) == b(i) by {
        let u = polynomials[i].table();
        assert(polynomials[i].wf() && polynomials[i].num_vars == n);
        lemma_mle_weighted_sum(u, at);
        let d = |x: int| w(row[i].0, x) * q(x);
        let e = |x: int| u[x] * eq_at(at, x);
        lemma_sum_ext(d, e, 0, size);
    }
    lemma_sum_ext(c, b, 0, k);
}

/// The value at `at` of the query `i`'s polynomial times the equality table of
/// its point, with its weight.
pub open spec fn query_value<F: PrimeField>(
    polynomials: Seq<Arc<DenseMultilinearExtension<F>>>,
    points: Seq<Vec<F>>,
    weights: Seq<F>,
    at: Seq<int>,
    i: int,
) -> int {
    weights[i].val() * (mle(polynomials[i].table(), at) * mle(
        eq_table(vals(points[i]@)),
        at,
    ))
}

/// The virtual polynomial of a batch opening, at every point, is the sum of what
/// the queries call for.
pub proof fn lemma_query_sum_value<F: PrimeField>(
    plan: OpeningPlan<F>,
    polynomials: Seq<Arc<DenseMultilinearExtension<F>>>,
    points: Seq<Vec<F>>,
    weights: Seq<F>,
    vp: VirtualPolynomial<F>,
    at: Seq<int>,
)
    requires
        polynomials.len() > 0,
        plan.plans(polynomials, points, weights),
        points_full(points, plan.num_var as nat),
        plan.is_query_sum(vp),
        at.len() == plan.num_var,
    ensures
        eqm(
            F::modulus(),
            terms_value(vp.tables(), vp.terms(), at),
            sum(
                |i: int| query_value(polynomials, points, weights, at, i),
                0,
                least(polynomials.len() as int, points.len() as int, weights.len() as int),
            ),
        ),
{
    let p = F::modulus();
    let k = least(polynomials.len() as int, points.len() as int, weights.len() as int);
    let (ws, us, ds) = (
        vals(weights),
        places(plan.poly_indices@),
        places(plan.point_indices@),
    );
    let g = plan.pair_values(at);
    assert(eqm(p, rows_total(plan.rows(), g), queries_total(ws, us, ds, g, k)));
    assert(eqm(p, terms_value(vp.tables(), vp.terms(), at), rows_total(plan.rows(), g)));
    let a = |i: int| ws[i] * g(us[i], ds[i]);
    let b = |i: int| query_value(polynomials, points, weights, at, i);
    assert forall|i: int| 0 <= i < k implies #[trigger] a(i) == b(i) by {
        lemma_query(plan, polynomials, points, weights, i);
    }
    lemma_sum_ext(a, b, 0, k);
}

/// The combined polynomial takes at `a2` the value of the virtual polynomial
/// there: the value that the sum-check protocol ends in is that of the opening.
pub proof fn lemma_opening_value<F: PrimeField>(
    plan: OpeningPlan<F>,
    polynomials: Seq<Arc<DenseMultilinearExtension<F>>>,
    points: Seq<Vec<F>>,
    weights: Seq<F>,
    vp: VirtualPolynomial<F>,
    g_prime: DenseMultilinearExtension<F>,
    a2: Seq<int>,
)
    requires
        polynomials.len() > 0,
        plan.plans(polynomials, points, weights),
        queries_fit(polynomials, points, weights, plan.num_var as nat),
        plan.is_query_sum(vp),
        is_combined(plan, g_prime, a2),
        a2.len() == plan.num_var,
    ensures
        eqm(
            F::modulus(),
            terms_value(vp.tables(), vp.terms(), a2),
            mle(g_prime.table(), a2),
        ),
{
    F::lemma_modulus();
    let p = F::modulus();
    let n = plan.num_var as nat;
    let k = polynomials.len() as int;
    let ws = vals(weights);
    let scalars = claim_scalars(points, a2, ws);
    lemma_query_sum_value(plan, polynomials, points, weights, vp, a2);
    let a = |i: int| query_value(polynomials, points, weights, a2, i);
    let b = |i: int| scalars[i] * mle(polynomials[i].table(), a2);
    assert forall|i: int| 0 <= i < k implies eqm(p, #[trigger] a(i), b(i)) by {
        let point = vals(points[i]@);
        assert(points[i]@.len() == n);
        lemma_mle_eq_table(a2, point);
        let (e, w, m) = (eq_points(a2, point), ws[i], mle(polynomials[i].table(), a2));
        assert(a(i) == w * (m * e));
        assert(w * (m * e) == (e * w) * m) by (nonlinear_arith);
        lemma_eqm_residue(p, e * w);
        lemma_eqm_mul(p, (e * w) % p, e * w, m, m);
    }
    lemma_sum_eqm(p, a, b, 0, k);
    lemma_combined_value(plan, polynomials, points, weights, g_prime, a2, a2);
}

/// A commitment to a polynomial: `g` times its value at the secrets.
pub open spec fn is_commitment(
    commitment: G1Affine,
    g: (int, int, bool),
    secrets: Seq<int>,
    poly: DenseMultilinearExtension<Fr>,
) -> bool {
    commitment@ == g1_multiple(g, mle(poly.table(), secrets) % Fr::modulus())
}

/// A reference string commits to polynomials in as many variables as it has
/// secrets, and in fewer: the points of the table that fits, combined with a
/// polynomial's values, give a commitment to it under the last secrets.
pub proof fn lemma_srs_commits(
    param: MultilinearProverParam<G1Affine, G2Affine>,
    g: G1Affine,
    h: G2Affine,
    secrets: Seq<int>,
    poly: DenseMultilinearExtension<Fr>,
    commitment: G1Affine,
)
    requires
        is_prover_param(param, g, h, secrets),
        poly.wf(),
        0 < poly.num_vars <= secrets.len(),
        combines_multiples(
            g1_views(param.powers_of_g@[secrets.len() - poly.num_vars].evals@),
            poly.table(),
            commitment@,
        ),
    ensures
        is_commitment(commitment, g@, secrets.skip(secrets.len() - poly.num_vars), poly),
{
    let p = Fr::modulus();
    let k = secrets.len() - poly.num_vars;
    let last = secrets.skip(k);
    let t = poly.table();
    let size = t.len() as int;
    let powers = g1_views(param.powers_of_g@[k].evals@);
    let logs = Seq::new(t.len(), |x: int| eq_at(last, x) % p);
    assert(is_power_table(param.powers_of_g@[k], g@, last));
    assert(are_multiples(powers, g@, logs));
    let f = |x: int| logs[x] * t[x];
    let h = |x: int| t[x] * eq_at(last, x);
    assert forall|x: int| 0 <= x < size implies eqm(p, #[trigger] f(x), h(x)) by {
        let (e, y) = (eq_at(last, x), t[x]);
        lemma_eqm_residue(p, e);
        lemma_eqm_mul(p, e % p, e, y, y);
        assert(e * y == y * e) by (nonlinear_arith);
    }
    lemma_sum_eqm(p, f, h, 0, size);
    lemma_mle_weighted_sum(t, last);
}

/// The commitment that the verifier combines is a commitment to the polynomial
/// that the prover opens.
pub proof fn lemma_combined_commitment<P>(
    plan: OpeningPlan<Fr>,
    polynomials: Seq<Arc<DenseMultilinearExtension<Fr>>>,
    points: Seq<Vec<Fr>>,
    weights: Seq<Fr>,
    g_prime: DenseMultilinearExtension<Fr>,
    proof: BatchProof<Fr, P>,
    t: Seq<Fr>,
    commitments: Seq<G1Affine>,
    claim: BatchClaim,
    g: (int, int, bool),
    secrets: Seq<int>,
)
    requires
        polynomials.len() > 0,
        plan.plans(polynomials, points, weights),
        queries_fit(polynomials, points, weights, plan.num_var as nat),
        vals(weights) == residues(Fr::modulus(), eq_table(vals(t))),
        is_combined(plan, g_prime, vals(proof.sum_check_proof.point@)),
        is_g1(g),
        secrets.len() == plan.num_var,
        commitments.len() == polynomials.len(),
        forall|i: int|
            0 <= i < commitments.len() ==> is_commitment(
                #[trigger] commitments[i],
                g,
                secrets,
                *polynomials[i],
            ),
        is_claim(claim, commitments, points, proof, t),
    ensures
        is_commitment(claim.commitment, g, secrets, g_prime),
{
    let p = Fr::modulus();
    let k = polynomials.len() as int;
    let a2 = vals(proof.sum_check_proof.point@);
    let scalars = claim_scalars(points, a2, vals(weights));
    let values = |i: int| mle(polynomials[i].table(), secrets);
    let logs = Seq::new(k as nat, |i: int| values(i) % p);
    assert(commitments.take(k) =~= commitments);
    let bases = g1_views(commitments);
    assert forall|i: int| 0 <= i < k implies #[trigger] bases[i] == g1_multiple(g, logs[i]) by {
        assert(is_commitment(commitments[i], g, secrets, *polynomials[i]));
    }
    assert(are_multiples(bases, g, logs));
    lemma_combined_value(plan, polynomials, points, weights, g_prime, a2, secrets);
    let f = |i: int| logs[i] * scalars[i];
    let h = |i: int| scalars[i] * mle(polynomials[i].table(), secrets);
    assert forall|i: int| 0 <= i < k implies eqm(p, #[trigger] f(i), h(i)) by {
        let (v, s) = (values(i), scalars[i]);
        lemma_eqm_residue(p, v);
        lemma_eqm_mul(p, v % p, v, s, s);
        assert(v * s == s * v) by (nonlinear_arith);
    }
    lemma_sum_eqm(p, f, h, 0, k);
}

/// The first message of a batch opening adds up, at 0 and 1, to the weighted
/// sum of the polynomials' values at their points.
pub proof fn lemma_opening_first_message<F: PrimeField>(
    plan: OpeningPlan<F>,
    polynomials: Seq<Arc<DenseMultilinearExtension<F>>>,
    points: Seq<Vec<F>>,
    weights: Seq<F>,
    vp: VirtualPolynomial<F>,
    proof: IOPProof<F>,
    g_prime: DenseMultilinearExtension<F>,
    challenges: Seq<F>,
)
    requires
        polynomials.len() > 0,
        plan.num_var > 0,
        plan.plans(polynomials, points, weights),
        queries_fit(polynomials, points, weights, plan.num_var as nat),
        opens_with(plan, proof, g_prime, challenges, vp),
        plan.has_multiplicand(),
    ensures
        eqm(
            F::modulus(),
            proof.proofs@[0].evaluations@[0].val() + proof.proofs@[0].evaluations@[1].val(),
            weighted_sum(
                vals(weights),
                query_values(polynomials, points),
                polynomials.len() as int,
            ),
        ),
{
    let n = plan.num_var as nat;
    vp.lemma_shape(n);
    lemma_opening_sum(plan, polynomials, points, weights, vp);
    lemma_first_message_sum(
        proof,
        vp.tables(),
        vp.terms(),
        n,
        vp.aux_info.max_degree as int,
    );
}

/// With the polynomials' true values, the sum that the verifier claims is the
/// sum at 0 and 1 of the prover's first message.
pub proof fn lemma_claimed_sum_is_shown<P>(
    plan: OpeningPlan<Fr>,
    polynomials: Seq<Arc<DenseMultilinearExtension<Fr>>>,
    points: Seq<Vec<Fr>>,
    weights: Seq<Fr>,
    vp: VirtualPolynomial<Fr>,
    g_prime: DenseMultilinearExtension<Fr>,
    proof: BatchProof<Fr, P>,
    t: Seq<Fr>,
    commitments: Seq<G1Affine>,
    claim: BatchClaim,
)
    requires
        polynomials.len() > 0,
        plan.num_var > 0,
        plan.plans(polynomials, points, weights),
        queries_fit(polynomials, points, weights, plan.num_var as nat),
        vals(weights) == residues(Fr::modulus(), eq_table(vals(t))),
        opens_with(plan, proof.sum_check_proof, g_prime, proof.sum_check_proof.point@, vp),
        plan.has_multiplicand(),
        vals(proof.f_i_eval_at_point_i@) == residues(
            Fr::modulus(),
            query_values(polynomials, points),
        ),
        commitments.len() == polynomials.len(),
        is_claim(claim, commitments, points, proof, t),
    ensures
        eqm(
            Fr::modulus(),
            claim.sum.val(),
            proof.sum_check_proof.proofs@[0].evaluations@[0].val()
                + proof.sum_check_proof.proofs@[0].evaluations@[1].val(),
        ),
{
    let p = Fr::modulus();
    let k = polynomials.len() as int;
    let ws = vals(weights);
    let ys = query_values(polynomials, points);
    let evals = vals(proof.f_i_eval_at_point_i@);
    lemma_opening_first_message(
        plan,
        polynomials,
        points,
        weights,
        vp,
        proof.sum_check_proof,
        g_prime,
        proof.sum_check_proof.point@,
    );
    let f = |i: int| ws[i] * evals[i];
    let h = |i: int| ws[i] * ys[i];
    assert forall|i: int| 0 <= i < k implies eqm(p, #[trigger] f(i), h(i)) by {
        lemma_eqm_residue(p, ys[i]);
        lemma_eqm_mul(p, ws[i], ws[i], ys[i] % p, ys[i]);
    }
    lemma_sum_eqm(p, f, h, 0, k);
    lemma_eqm_residue(p, weighted_sum(ws, evals, k));
}

/// An honest batch opening convinces, also of repeated points and polynomials:
/// the sum-check proof shows the sum that the verifier claims, it ends in the
/// value of the combined polynomial at the claim's point, and the claim's
/// commitment is one to that polynomial.
pub proof fn lemma_honest_opening_convinces<P>(
    plan: OpeningPlan<Fr>,
    polynomials: Seq<Arc<DenseMultilinearExtension<Fr>>>,
    points: Seq<Vec<Fr>>,
    weights: Seq<Fr>,
    g_prime: DenseMultilinearExtension<Fr>,
    proof: BatchProof<Fr, P>,
    t: Seq<Fr>,
    commitments: Seq<G1Affine>,
    claim: BatchClaim,
    g: (int, int, bool),
    secrets: Seq<int>,
)
    requires
        polynomials.len() > 0,
        plan.num_var > 0,
        plan.plans(polynomials, points, weights),
        queries_fit(polynomials, points, weights, plan.num_var as nat),
        vals(weights) == residues(Fr::modulus(), eq_table(vals(t))),
        plan.has_multiplicand(),
        opens(plan, proof.sum_check_proof, g_prime, proof.sum_check_proof.point@),
        vals(proof.f_i_eval_at_point_i@) == residues(
            Fr::modulus(),
            query_values(polynomials, points),
        ),
        is_g1(g),
        secrets.len() == plan.num_var,
        commitments.len() == polynomials.len(),
        forall|i: int|
            0 <= i < commitments.len() ==> is_commitment(
                #[trigger] commitments[i],
                g,
                secrets,
                *polynomials[i],
            ),
        is_claim(claim, commitments, points, proof, t),
    ensures
        convinces(
            proof.sum_check_proof,
            claim.sum.val(),
            claim.aux_info.max_degree as int,
            claim.aux_info.num_variables as nat,
            mle(g_prime.table(), vals(claim.point@)),
        ),
        is_commitment(claim.commitment, g, secrets, g_prime),
{
    Fr::lemma_modulus();
    let p = Fr::modulus();
    let n = plan.num_var as nat;
    let sum_check = proof.sum_check_proof;
    let a2 = vals(sum_check.point@);
    let vp = choose|vp: VirtualPolynomial<Fr>| #[trigger]
        opens_with(plan, sum_check, g_prime, sum_check.point@, vp);
    let (ts, terms) = (vp.tables(), vp.terms());
    vp.lemma_shape(n);
    assert(factors_at_most(terms, 2)) by {
        assert forall|k: int| 0 <= k < terms.len() implies (#[trigger] terms[k]).factors.len()
            <= 2 by {
            assert(vp.products@[k].1@.len() <= vp.aux_info.max_degree);
        }
    }
    lemma_proof_convinces(sum_check, ts, terms, n, 2);
    lemma_claimed_sum_is_shown(
        plan,
        polynomials,
        points,
        weights,
        vp,
        g_prime,
        proof,
        t,
        commitments,
        claim,
    );
    lemma_opening_value(plan, polynomials, points, weights, vp, g_prime, a2);
    lemma_combined_commitment(
        plan,
        polynomials,
        points,
        weights,
        g_prime,
        proof,
        t,
        commitments,
        claim,
        g,
        secrets,
    );
    assert forall|i: int, q: spec_fn(int) -> int|
        0 <= i < n && #[trigger] reads_as(sum_check.proofs@[i], q, 2) implies eqm(
        p,
        q(sum_check.point@[i].val()),
        if i + 1 < n {
            ends(sum_check.proofs@[i + 1])
        } else {
            mle(g_prime.table(), a2)
        },
    ) by {}
}

/// A batch opening has a message for each challenge, and where there is something
/// to prove each holds three values.
pub proof fn lemma_message_lengths<F: PrimeField>(
    plan: OpeningPlan<F>,
    proof: IOPProof<F>,
    g_prime: DenseMultilinearExtension<F>,
    challenges: Seq<F>,
    i: int,
)
    requires
        opens(plan, proof, g_prime, challenges),
        0 <= i < plan.num_var,
    ensures
        proof.point@ == challenges,
        proof.point@.len() == plan.num_var,
        proof.proofs@.len() == plan.num_var,
        g_prime.num_vars == plan.num_var,
        g_prime.table().len() == pow2(plan.num_var as nat),
        plan.has_multiplicand() ==> proof.proofs@[i].evaluations@.len() == 3,
{
    let vp = choose|vp: VirtualPolynomial<F>| #[trigger]
        opens_with(plan, proof, g_prime, challenges, vp);
    assert(is_dense_message(proof.proofs@[i], vp, vals(proof.point@).take(i)));
}

/// Every value of a message of an opening: the sum over the vertices that are
/// left of what the queries call for, at the challenges so far, the value's own
/// place and the vertex.
pub proof fn lemma_message_value<F: PrimeField>(
    plan: OpeningPlan<F>,
    polynomials: Seq<Arc<DenseMultilinearExtension<F>>>,
    points: Seq<Vec<F>>,
    weights: Seq<F>,
    proof: IOPProof<F>,
    g_prime: DenseMultilinearExtension<F>,
    challenges: Seq<F>,
    i: int,
    j: int,
)
    requires
        polynomials.len() > 0,
        plan.plans(polynomials, points, weights),
        points_full(points, plan.num_var as nat),
        opens(plan, proof, g_prime, challenges),
        0 <= i < plan.num_var,
        0 <= j < proof.proofs@[i].evaluations@.len(),
    ensures
        eqm(
            F::modulus(),
            proof.proofs@[i].evaluations@[j].val(),
            sum(
                |x: int|
                    sum(
                        |q: int|
                            query_value(
                                polynomials,
                                points,
                                weights,
                                vals(challenges).take(i).push(j) + bits(
                                    x,
                                    (plan.num_var - 1 - i) as nat,
                                ),
                                q,
                            ),
                        0,
                        least(
                            polynomials.len() as int,
                            points.len() as int,
                            weights.len() as int,
                        ),
                    ),
                0,
                pow2((plan.num_var - 1 - i) as nat) as int,
            ),
        ),
{
    F::lemma_modulus();
    let p = F::modulus();
    let n = plan.num_var as nat;
    let k = least(polynomials.len() as int, points.len() as int, weights.len() as int);
    let rest = (n - 1 - i) as nat;
    let vp = choose|vp: VirtualPolynomial<F>| #[trigger]
        opens_with(plan, proof, g_prime, challenges, vp);
    let (ts, terms) = (vp.tables(), vp.terms());
    let chs = vals(challenges).take(i);
    let fixed = chs.push(j);
    assert(is_dense_message(proof.proofs@[i], vp, vals(proof.point@).take(i)));
    vp.lemma_shape(n);
    lemma_fix_all_push(ts, chs, j);
    lemma_sum_of_values(ts, terms, n, fixed);
    let a = |x: int| terms_value(ts, terms, fixed + bits(x, rest));
    let b = |x: int|
        sum(
            |q: int| query_value(polynomials, points, weights, fixed + bits(x, rest), q),
            0,
            k,
        );
    assert forall|x: int| 0 <= x < pow2(rest) implies eqm(p, #[trigger] a(x), b(x)) by {
        lemma_bits_len(x, rest);
        lemma_query_sum_value(
            plan,
            polynomials,
            points,
            weights,
            vp,
            fixed + bits(x, rest),
        );
    }
    lemma_sum_eqm(p, a, b, 0, pow2(rest) as int);
    lemma_eqm_residue(p, sum(a, 0, pow2(rest) as int));
}

} // verus!
