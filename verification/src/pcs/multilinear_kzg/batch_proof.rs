//! Opening several polynomials at once, and checking such an opening.

use crate::arithmetic::dense::{copy_slice, DenseMultilinearExtension};
use crate::arithmetic::eq::build_eq_x_r_vec;
use crate::arithmetic::virtual_polynomial::{wrong_multiplicand_text, VPAuxInfo, VirtualPolynomial};
use crate::bls12_381::group::{
    combines_multiples, g1_linear_combination, g1_msm, g1_views, G1Affine,
};
use crate::bls12_381::scalar::Fr;
use crate::errors::PCSError;
use crate::field::{vals, PrimeField};
use crate::math::grouping::{occurs, rows_total};
use crate::math::modular::{eqm, lemma_eqm_add, lemma_eqm_mul, lemma_eqm_residue, residues};
use crate::math::multilinear::{eq_points, eq_table};
use crate::math::sums::{smaller, weighted_sum};
use crate::pcs::multilinear_kzg::batching::{has_no_table, table_fits};
use crate::pcs::multilinear_kzg::opening::{places, OpeningPlan};
use crate::pcs::multilinear_kzg::util::{eq_eval, is_ceil_log2};
use crate::poly_iop::structs::IOPProof;
use crate::poly_iop::sum_check::dense_prover::{is_dense_proof, prove_rounds};
use std::sync::Arc;
use vstd::arithmetic::div_mod::{lemma_mod_twice, lemma_small_mod};
use vstd::arithmetic::power2::pow2;
use vstd::prelude::*;

verus! {

/// A batch opening, with the values of the polynomials at the points. `P` is
/// the commitment scheme's proof of one opening.
#[derive(Clone, Debug, PartialEq, Eq)]
pub struct BatchProof<F: PrimeField, P> {
    /// The sum-check proof of the queries' weighted sum.
    pub sum_check_proof: IOPProof<F>,
    /// The value of each polynomial at its point.
    pub f_i_eval_at_point_i: Vec<F>,
    /// The opening of the combined polynomial.
    pub g_prime_proof: P,
}

/// A batch opening without the values.
#[derive(Clone, Debug, PartialEq, Eq)]
pub struct BatchProofWithoutEvals<F: PrimeField, P> {
    pub sum_check_proof: IOPProof<F>,
    pub g_prime_proof: P,
}

/// The same field elements, in the same order.
pub open spec fn copies_proof<F: PrimeField>(a: IOPProof<F>, b: IOPProof<F>) -> bool {
    &&& a.point@ == b.point@
    &&& a.proofs@.len() == b.proofs@.len()
    &&& forall|i: int|
        0 <= i < a.proofs@.len() ==> (#[trigger] a.proofs@[i]).evaluations@
            == b.proofs@[i].evaluations@
}

impl<F: PrimeField, P> BatchProof<F, P> {
    /// The batch opening that is made of a sum-check proof, the values that it
    /// is about and the opening of the combined polynomial.
    pub fn new(sum_check_proof: IOPProof<F>, evals: &[F], g_prime_proof: P) -> (r: Self)
        ensures
            r.sum_check_proof == sum_check_proof,
            r.f_i_eval_at_point_i@ == evals@,
            r.g_prime_proof == g_prime_proof,
    {
        BatchProof { sum_check_proof, f_i_eval_at_point_i: copy_slice(evals), g_prime_proof }
    }
}

impl<F: PrimeField, P: Clone> BatchProof<F, P> {
    /// Leaves out the values.
    pub fn without_evaluations(&self) -> (r: BatchProofWithoutEvals<F, P>)
        ensures
            copies_proof(r.sum_check_proof, self.sum_check_proof),
            cloned(self.g_prime_proof, r.g_prime_proof),
    {
        BatchProofWithoutEvals {
            sum_check_proof: self.sum_check_proof.copy(),
            g_prime_proof: self.g_prime_proof.clone(),
        }
    }
}

impl<F: PrimeField, P: Clone> BatchProofWithoutEvals<F, P> {
    /// Puts the values in.
    pub fn with_evaluations(&self, evals: Vec<F>) -> (r: BatchProof<F, P>)
        ensures
            copies_proof(r.sum_check_proof, self.sum_check_proof),
            r.f_i_eval_at_point_i == evals,
            cloned(self.g_prime_proof, r.g_prime_proof),
    {
        BatchProof {
            sum_check_proof: self.sum_check_proof.copy(),
            f_i_eval_at_point_i: evals,
            g_prime_proof: self.g_prime_proof.clone(),
        }
    }
}

/// Leaving out the values and putting them in again restores a batch opening.
pub proof fn lemma_evaluations_restored<F: PrimeField, P>(
    proof: BatchProof<F, P>,
    stripped: BatchProofWithoutEvals<F, P>,
    restored: BatchProof<F, P>,
)
    requires
        copies_proof(stripped.sum_check_proof, proof.sum_check_proof),
        copies_proof(restored.sum_check_proof, stripped.sum_check_proof),
        restored.f_i_eval_at_point_i == proof.f_i_eval_at_point_i,
        stripped.g_prime_proof == proof.g_prime_proof,
        restored.g_prime_proof == stripped.g_prime_proof,
    ensures
        copies_proof(restored.sum_check_proof, proof.sum_check_proof),
        restored.f_i_eval_at_point_i@ == proof.f_i_eval_at_point_i@,
        restored.g_prime_proof == proof.g_prime_proof,
{
    let (a, b, c) = (
        restored.sum_check_proof.proofs@,
        stripped.sum_check_proof.proofs@,
        proof.sum_check_proof.proofs@,
    );
    assert forall|i: int| 0 <= i < a.len() implies (#[trigger] a[i]).evaluations@
        == c[i].evaluations@ by {
        assert(a[i].evaluations@ == b[i].evaluations@);
        assert(b[i].evaluations@ == c[i].evaluations@);
    }
}

/// The number of challenges that tell `k` polynomials apart.
pub fn batching_challenge_count(k: usize) -> (r: usize)
    ensures
        is_ceil_log2(k as nat, r as nat),
{
    ark_std::log2(k) as usize
}

/// As many challenges as are taken for `k` polynomials give each of them a
/// weight, and one challenge less would not.
pub proof fn lemma_challenges_suffice(k: nat, count: nat, t: Seq<int>)
    requires
        is_ceil_log2(k, count),
        t.len() == count,
    ensures
        eq_table(t).len() >= k,
        t.len() > 0 ==> eq_table(t.drop_first()).len() < k,
{
}

/// The weights of the queries: the equality values of the challenge point.
pub fn batching_weights<F: PrimeField>(t: &[F]) -> (r: Result<Vec<F>, PCSError>)
    requires
        pow2(t@.len()) <= usize::MAX,
    ensures
        r is Err <==> t@.len() == 0,
        r matches Err(e) ==> e.is_arith_error("r length is 0"@),
        r matches Ok(w) ==> vals(w@) == residues(F::modulus(), eq_table(vals(t@))),
{
    match build_eq_x_r_vec(t) {
        Ok(weights) => Ok(weights),
        Err(e) => Err(PCSError::ArithErrors(e)),
    }
}

/// What a batch opening is made of: the sum-check proof under the challenges
/// about a virtual polynomial that is the plan's weighted sum, and the combined
/// polynomial at the challenges.
pub open spec fn opens_with<F: PrimeField>(
    plan: OpeningPlan<F>,
    proof: IOPProof<F>,
    g_prime: DenseMultilinearExtension<F>,
    challenges: Seq<F>,
    vp: VirtualPolynomial<F>,
) -> bool {
    &&& vp.wf()
    &&& vp.aux_info.num_variables == plan.num_var
    &&& vp.aux_info.max_degree == if plan.has_multiplicand() {
        2int
    } else {
        0
    }
    &&& plan.is_query_sum(vp)
    &&& proof.point@ == challenges
    &&& is_dense_proof(proof, vp)
    &&& is_combined(plan, g_prime, vals(challenges))
}

/// A batch opening of a plan.
pub open spec fn opens<F: PrimeField>(
    plan: OpeningPlan<F>,
    proof: IOPProof<F>,
    g_prime: DenseMultilinearExtension<F>,
    challenges: Seq<F>,
) -> bool {
    exists|vp: VirtualPolynomial<F>| #[trigger] opens_with(plan, proof, g_prime, challenges, vp)
}

/// `g_prime` is the polynomial to open at `a2`.
pub open spec fn is_combined<F: PrimeField>(
    plan: OpeningPlan<F>,
    g_prime: DenseMultilinearExtension<F>,
    a2: Seq<int>,
) -> bool {
    &&& g_prime.wf()
    &&& g_prime.num_vars == plan.num_var
    &&& forall|x: int|
        0 <= x < pow2(plan.num_var as nat) ==> (#[trigger] g_prime.table()[x]) == rows_total(
            plan.rows(),
            plan.combined_at(a2, x),
        ) % F::modulus()
}

/// All points of the plan have `num_var` coordinates.
pub open spec fn points_fit<F: PrimeField>(plan: OpeningPlan<F>) -> bool {
    forall|d: int|
        0 <= d < plan.points@.len() ==> (#[trigger] plan.points@[d])@.len() == plan.num_var
}

/// Some polynomial of the plan is a misfit.
pub open spec fn has_misfit<F: PrimeField>(plan: OpeningPlan<F>) -> bool {
    exists|u: int| #[trigger] plan.is_misfit(u)
}

/// The error for a plan that cannot be opened.
pub open spec fn is_plan_error<F: PrimeField>(plan: OpeningPlan<F>, e: PCSError) -> bool {
    if plan.lacks_some_table() {
        e.is_invalid_parameters("Invalid parameters: r length is 0"@)
    } else if has_misfit(plan) {
        exists|u: int| #[trigger]
            plan.is_first_misfit(u) && e.is_arith_error(
                wrong_multiplicand_text(
                    plan.polynomials@[u].num_vars as nat,
                    plan.num_var as nat,
                ),
            )
    } else if plan.num_var == 0 {
        e.is_invalid_prover("Sumcheck in batch proving Failed"@)
    } else {
        !points_fit(plan) && e.is_invalid_parameters("x and y have different length"@)
    }
}

/// A plan can be opened.
pub open spec fn is_openable<F: PrimeField>(plan: OpeningPlan<F>) -> bool {
    &&& !plan.lacks_some_table()
    &&& !has_misfit(plan)
    &&& plan.num_var > 0
    &&& points_fit(plan)
}

/// The outcome of opening a plan.
pub open spec fn is_outcome<F: PrimeField>(
    plan: OpeningPlan<F>,
    challenges: Seq<F>,
    r: Result<(IOPProof<F>, Arc<DenseMultilinearExtension<F>>), PCSError>,
) -> bool {
    match r {
        Ok(opening) => is_openable(plan) && opens(plan, opening.0, *opening.1, challenges),
        Err(e) => !is_openable(plan) && is_plan_error(plan, e),
    }
}

/// The outcome of opening the polynomials, each at its point, with the weights
/// that the challenges `t` give the queries. The plan merges queries of one
/// polynomial at one point.
pub open spec fn is_batch_outcome<F: PrimeField>(
    polynomials: Seq<Arc<DenseMultilinearExtension<F>>>,
    points: Seq<Vec<F>>,
    t: Seq<F>,
    challenges: Seq<F>,
    r: Result<(IOPProof<F>, Arc<DenseMultilinearExtension<F>>), PCSError>,
) -> bool {
    exists|plan: OpeningPlan<F>, weights: Seq<F>| #[trigger]
        plan.plans(polynomials, points, weights) && vals(weights) == residues(
            F::modulus(),
            eq_table(vals(t)),
        ) && is_outcome(plan, challenges, r)
}

/// Queries as a batch opening is meant for: polynomials in the same variables,
/// at least one of each, and points with a coordinate for each variable.
pub open spec fn are_queries<F: PrimeField>(
    polynomials: Seq<Arc<DenseMultilinearExtension<F>>>,
    points: Seq<Vec<F>>,
) -> bool {
    &&& polynomials.len() > 0
    &&& polynomials[0].num_vars > 0
    &&& forall|i: int|
        0 <= i < polynomials.len() ==> (#[trigger] polynomials[i]).num_vars
            == polynomials[0].num_vars
    &&& forall|i: int|
        0 <= i < points.len() ==> (#[trigger] points[i])@.len() == polynomials[0].num_vars
}

/// Queries that a batch opening is meant for always open, whatever their number
/// and that of the different points and polynomials among them.
pub proof fn lemma_queries_open<F: PrimeField>(
    polynomials: Seq<Arc<DenseMultilinearExtension<F>>>,
    points: Seq<Vec<F>>,
    t: Seq<F>,
    challenges: Seq<F>,
    r: Result<(IOPProof<F>, Arc<DenseMultilinearExtension<F>>), PCSError>,
)
    requires
        are_queries(polynomials, points),
        is_batch_outcome(polynomials, points, t, challenges, r),
    ensures
        r is Ok,
{
    let (plan, weights) = choose|plan: OpeningPlan<F>, weights: Seq<F>| #[trigger]
        plan.plans(polynomials, points, weights) && vals(weights) == residues(
            F::modulus(),
            eq_table(vals(t)),
        ) && is_outcome(plan, challenges, r);
    let n = polynomials[0].num_vars;
    let (us, ds) = (places(plan.poly_indices@), places(plan.point_indices@));
    assert forall|d: int| 0 <= d < plan.points@.len() implies (
    #[trigger] plan.points@[d])@.len() == n by {
        assert(occurs(ds, d));
        let i = choose|i: int| 0 <= i < ds.len() && #[trigger] ds[i] == d;
        assert(plan.point(plan.point_indices@[i] as int) == vals(points[i]@));
        assert(plan.point(d).len() == vals(points[i]@).len());
    }
    assert forall|u: int| 0 <= u < plan.polynomials@.len() implies (
    #[trigger] plan.polynomials@[u]).num_vars == n by {
        assert(occurs(us, u));
        let i = choose|i: int| 0 <= i < us.len() && #[trigger] us[i] == u;
        assert(*plan.polynomials@[plan.poly_indices@[i] as int] == *polynomials[i]);
    }
    assert forall|u: int| !#[trigger] plan.is_misfit(u) by {}
    assert(!plan.lacks_some_table()) by {
        if plan.points@.len() == 1 {
            assert(plan.points@[0]@.len() == n);
            assert(plan.point(0).len() == n);
        }
        assert forall|u: int, j: int| !#[trigger] plan.lacks_table(u, j) by {
            if plan.lacks_table(u, j) {
                let d = plan.coefficients@[u]@[j].0 as int;
                assert(plan.rows()[u][j].0 == d);
                assert(plan.coefficients@[u]@[j].0 < plan.points@.len());
                assert(plan.points@[d]@.len() == n);
                assert(plan.point(d).len() == n);
            }
        }
    }
}

/// Only queries at points with a coordinate for each variable open, and where
/// two points differ, only polynomials in the same variables.
pub proof fn lemma_opened_are_queries<F: PrimeField>(
    polynomials: Seq<Arc<DenseMultilinearExtension<F>>>,
    points: Seq<Vec<F>>,
    t: Seq<F>,
    challenges: Seq<F>,
    opening: (IOPProof<F>, Arc<DenseMultilinearExtension<F>>),
)
    requires
        polynomials.len() > 0,
        is_batch_outcome(polynomials, points, t, challenges, Ok(opening)),
    ensures
        polynomials[0].num_vars > 0,
        forall|i: int|
            0 <= i < points.len() ==> (#[trigger] points[i])@.len() == polynomials[0].num_vars,
        (exists|i: int, j: int|
            0 <= i < points.len() && 0 <= j < points.len() && vals((#[trigger] points[i])@)
                != vals((#[trigger] points[j])@)) ==> forall|i: int|
            0 <= i < polynomials.len() ==> (#[trigger] polynomials[i]).num_vars
                == polynomials[0].num_vars,
{
    let (plan, weights) = choose|plan: OpeningPlan<F>, weights: Seq<F>| #[trigger]
        plan.plans(polynomials, points, weights) && vals(weights) == residues(
            F::modulus(),
            eq_table(vals(t)),
        ) && is_outcome(plan, challenges, Ok(opening));
    let (us, ds) = (places(plan.poly_indices@), places(plan.point_indices@));
    assert forall|i: int| 0 <= i < points.len() implies (#[trigger] points[i])@.len()
        == polynomials[0].num_vars by {
        let d = plan.point_indices@[i] as int;
        assert(ds[i] == d);
        assert(plan.point(d) == vals(points[i]@));
        assert(plan.points@[d]@.len() == plan.num_var);
        assert(vals(points[i]@).len() == points[i]@.len());
    }
    if exists|i: int, j: int|
        0 <= i < points.len() && 0 <= j < points.len() && vals((#[trigger] points[i])@) != vals(
            (#[trigger] points[j])@,
        ) {
        let (i, j) = choose|i: int, j: int|
            0 <= i < points.len() && 0 <= j < points.len() && vals((#[trigger] points[i])@)
                != vals((#[trigger] points[j])@);
        assert(plan.point(plan.point_indices@[i] as int) == vals(points[i]@));
        assert(plan.point(plan.point_indices@[j] as int) == vals(points[j]@));
        assert(0 <= ds[i] < plan.points@.len() && 0 <= ds[j] < plan.points@.len());
        assert(plan.points@.len() != 1);
        assert forall|k: int| 0 <= k < polynomials.len() implies (
        #[trigger] polynomials[k]).num_vars == polynomials[0].num_vars by {
            let u = plan.poly_indices@[k] as int;
            assert(us[k] == u);
            assert(*plan.polynomials@[plan.poly_indices@[k] as int] == *polynomials[k]);
            assert(!plan.is_misfit(u));
            assert(plan.is_multiplicand(u));
        }
    }
}

/// The equality tables of all points fit in the table of `num_var` variables.
pub open spec fn all_tables_fit<F: PrimeField>(num_var: nat, points: Seq<Vec<F>>) -> bool {
    forall|i: int|
        0 <= i < points.len() ==> has_no_table(num_var, vals((#[trigger] points[i])@))
            || table_fits(num_var, vals(points[i]@))
}

/// The equality tables that the queries need, weighed by the challenges `t`,
/// fit.
pub open spec fn needed_tables_fit<F: PrimeField>(
    polynomials: Seq<Arc<DenseMultilinearExtension<F>>>,
    points: Seq<Vec<F>>,
    t: Seq<F>,
) -> bool {
    forall|plan: OpeningPlan<F>, weights: Seq<F>| #[trigger]
        plan.plans(polynomials, points, weights) && vals(weights) == residues(
            F::modulus(),
            eq_table(vals(t)),
        ) ==> plan.tables_fit()
}

/// The prover's part of a batch opening, given the challenges `t` that weigh
/// the queries and those of the sum-check protocol: the sum-check proof, and
/// the polynomial that is left to be opened at the proof's point.
pub fn multi_open_internal<F: PrimeField>(
    polynomials: &[Arc<DenseMultilinearExtension<F>>],
    points: &[Vec<F>],
    t: &[F],
    challenges: &[F],
) -> (r: Result<(IOPProof<F>, Arc<DenseMultilinearExtension<F>>), PCSError>)
    requires
        polynomials@.len() > 0,
        forall|i: int| 0 <= i < polynomials@.len() ==> (#[trigger] polynomials@[i]).wf(),
        t@.len() > 0 ==> all_tables_fit(polynomials@[0].num_vars as nat, points@)
            || needed_tables_fit(polynomials@, points@, t@),
        pow2(t@.len()) <= usize::MAX,
        challenges@.len() == polynomials@[0].num_vars,
    ensures
        t@.len() == 0 ==> (r matches Err(e) && e.is_arith_error("r length is 0"@)),
        t@.len() > 0 ==> is_batch_outcome(polynomials@, points@, t@, challenges@, r),
        t@.len() > 0 && are_queries(polynomials@, points@) ==> r is Ok,
{
    let weights = match batching_weights(t) {
        Ok(weights) => weights,
        Err(e) => {
            return Err(e);
        },
    };
    let plan = OpeningPlan::new(polynomials, points, weights.as_slice());
    proof {
        assert(plan.plans(polynomials@, points@, weights@));
        if all_tables_fit(plan.num_var as nat, points@) {
            lemma_tables_fit(plan, polynomials@, points@);
        }
    }
    let r = open_plan(&plan, challenges);
    assert(plan.plans(polynomials@, points@, weights@) && is_outcome(plan, challenges@, r));
    proof {
        if are_queries(polynomials@, points@) {
            lemma_queries_open(polynomials@, points@, t@, challenges@, r);
        }
    }
    r
}

/// Tables fit in a plan where they fit in the queries.
proof fn lemma_tables_fit<F: PrimeField>(
    plan: OpeningPlan<F>,
    polynomials: Seq<Arc<DenseMultilinearExtension<F>>>,
    points: Seq<Vec<F>>,
)
    requires
        plan.wf(),
        plan.places_queries(polynomials, points),
        all_tables_fit(plan.num_var as nat, points),
    ensures
        plan.tables_fit(),
{
    let n = plan.num_var as nat;
    let ds = places(plan.point_indices@);
    assert forall|d: int| 0 <= d < plan.points@.len() implies has_no_table(
        n,
        #[trigger] plan.point(d),
    ) || table_fits(n, plan.point(d)) by {
        assert(occurs(ds, d));
        let i = choose|i: int| 0 <= i < ds.len() && #[trigger] ds[i] == d;
        assert(plan.point(plan.point_indices@[i] as int) == vals(points[i]@));
    }
    assert forall|u: int, j: int|
        0 <= u < plan.rows().len() && 0 <= j < plan.rows()[u].len() && (
        #[trigger] plan.rows()[u][j]).1 != 0 implies has_no_table(
        n,
        plan.point(plan.rows()[u][j].0),
    ) || table_fits(n, plan.point(plan.rows()[u][j].0)) by {
        assert(plan.coefficients@[u]@[j].0 < plan.points@.len());
    }
}

/// Opens a plan under the challenges of the sum-check protocol.
pub fn open_plan<F: PrimeField>(
    plan: &OpeningPlan<F>,
    challenges: &[F],
) -> (r: Result<(IOPProof<F>, Arc<DenseMultilinearExtension<F>>), PCSError>)
    requires
        plan.wf(),
        plan.tables_fit(),
        challenges@.len() == plan.num_var,
    ensures
        is_outcome(*plan, challenges@, r),
{
    let vp = match plan.sum_check_polynomial() {
        Ok(vp) => vp,
        Err(e) => {
            return Err(e);
        },
    };
    let proof = match prove_rounds(&vp, challenges) {
        Ok(proof) => proof,
        Err(_) => {
            return Err(PCSError::InvalidProver("Sumcheck in batch proving Failed".to_string()));
        },
    };
    finish_opening(plan, &vp, proof)
}

/// Ends the opening of a plan, given the sum-check proof about the plan's
/// virtual polynomial.
pub fn finish_opening<F: PrimeField>(
    plan: &OpeningPlan<F>,
    vp: &VirtualPolynomial<F>,
    proof: IOPProof<F>,
) -> (r: Result<(IOPProof<F>, Arc<DenseMultilinearExtension<F>>), PCSError>)
    requires
        plan.wf(),
        plan.num_var > 0,
        !plan.lacks_some_table(),
        plan.is_product_sum(Ok(*vp)),
        is_dense_proof(proof, *vp),
    ensures
        is_outcome(*plan, proof.point@, r),
{
    let g_prime = match plan.combined_polynomial(proof.point.as_slice()) {
        Ok(g_prime) => g_prime,
        Err(e) => {
            return Err(e);
        },
    };
    let ghost given = proof.point@;
    assert(opens_with(*plan, proof, *g_prime, given, *vp));
    assert(opens(*plan, proof, *g_prime, given));
    Ok((proof, g_prime))
}

/// One of the points up to place `m` has not `n` coordinates.
pub open spec fn has_wrong_length<F: PrimeField>(points: Seq<Vec<F>>, n: nat, m: int) -> bool {
    exists|i: int| 0 <= i <= m && i < points.len() && (#[trigger] points[i])@.len() != n
}

/// The weights of the commitments in the combined commitment.
pub fn batch_scalars<F: PrimeField>(
    points: &[Vec<F>],
    a2: &[F],
    weights: &[F],
) -> (r: Result<Vec<F>, PCSError>)
    requires
        points@.len() <= weights@.len() || has_wrong_length(
            points@,
            a2@.len(),
            weights@.len() as int,
        ),
    ensures
        r is Ok <==> forall|i: int|
            0 <= i < points@.len() ==> (#[trigger] points@[i])@.len() == a2@.len(),
        r matches Err(e) ==> e.is_invalid_parameters("x and y have different length"@),
        r matches Ok(scalars) ==> {
            &&& scalars@.len() == points@.len()
            &&& forall|i: int|
                0 <= i < points@.len() ==> (#[trigger] scalars@[i]).val() == (eq_points(
                    vals(a2@),
                    vals(points@[i]@),
                ) * weights@[i].val()) % F::modulus()
        },
{
    let ghost p = F::modulus();
    proof {
        F::lemma_modulus();
    }
    let mut scalars: Vec<F> = Vec::with_capacity(points.len());
    let mut i: usize = 0;
    while i < points.len()
        invariant
            0 <= i <= points@.len(),
            i <= weights@.len(),
            points@.len() <= weights@.len() || has_wrong_length(
                points@,
                a2@.len(),
                weights@.len() as int,
            ),
            p == F::modulus(),
            p > u64::MAX,
            scalars@.len() == i,
            forall|k: int| 0 <= k < i ==> (#[trigger] points@[k])@.len() == a2@.len(),
            forall|k: int|
                0 <= k < i ==> (#[trigger] scalars@[k]).val() == (eq_points(
                    vals(a2@),
                    vals(points@[k]@),
                ) * weights@[k].val()) % p,
        decreases points.len() - i,
    {
        match eq_eval(a2, points[i].as_slice()) {
            Ok(value) => {
                proof {
                    let e = eq_points(vals(a2@), vals(points@[i as int]@));
                    let w = weights@[i as int].val();
                    lemma_eqm_residue(p, e);
                    lemma_eqm_mul(p, e % p, e, w, w);
                }
                scalars.push(value.mul(weights[i]));
            },
            Err(e) => {
                assert(points@[i as int]@.len() != a2@.len());
                return Err(e);
            },
        }
        i = i + 1;
    }
    Ok(scalars)
}

/// The sum that a batch opening of `k` polynomials claims.
pub fn batch_claimed_sum<F: PrimeField>(weights: &[F], evals: &[F], k: usize) -> (r: F)
    requires
        smaller(k as int, weights@.len() as int) <= evals@.len(),
    ensures
        r.val() == weighted_sum(
            vals(weights@),
            vals(evals@),
            smaller(k as int, weights@.len() as int),
        ) % F::modulus(),
{
    let ghost p = F::modulus();
    let ghost (ws, ys) = (vals(weights@), vals(evals@));
    proof {
        F::lemma_modulus();
        F::lemma_val();
    }
    let mut total = F::zero();
    let mut i: usize = 0;
    while i < weights.len() && i < k
        invariant
            0 <= i <= smaller(k as int, weights@.len() as int),
            smaller(k as int, weights@.len() as int) <= evals@.len(),
            p == F::modulus(),
            p > u64::MAX,
            ws == vals(weights@),
            ys == vals(evals@),
            eqm(p, total.val(), weighted_sum(ws, ys, i as int)),
        decreases weights.len() - i,
    {
        let ghost before = total.val();
        total = total.add(weights[i].mul(evals[i]));
        proof {
            broadcast use lemma_mod_twice;

            let e = ws[i as int] * ys[i as int];
            lemma_eqm_add(p, before, weighted_sum(ws, ys, i as int), e % p, e);
        }
        i = i + 1;
    }
    proof {
        lemma_small_mod(total.val() as nat, p as nat);
    }
    total
}

/// What is left to check of a batch opening: that the sum-check proof shows the
/// sum, and that the combined commitment opens at the proof's point to the
/// value that the sum-check protocol ends in.
pub struct BatchClaim {
    pub commitment: G1Affine,
    pub point: Vec<Fr>,
    pub sum: Fr,
    pub aux_info: VPAuxInfo,
}

/// The verifier's part of a batch opening, given the challenges `t` that weigh
/// the queries.
pub fn batch_verify_internal<P>(
    f_i_commitments: &[G1Affine],
    points: &[Vec<Fr>],
    proof: &BatchProof<Fr, P>,
    t: &[Fr],
) -> (r: Result<BatchClaim, PCSError>)
    requires
        pow2(t@.len()) <= usize::MAX,
        t@.len() > 0 ==> has_wrong_length(
            points@,
            proof.sum_check_proof.point@.len(),
            smaller(f_i_commitments@.len() as int, pow2(t@.len()) as int),
        ) || (points@.len() <= smaller(f_i_commitments@.len() as int, pow2(t@.len()) as int)
            <= proof.f_i_eval_at_point_i@.len()),
    ensures
        r is Ok <==> t@.len() > 0 && forall|i: int|
            0 <= i < points@.len() ==> (#[trigger] points@[i])@.len()
                == proof.sum_check_proof.point@.len(),
        r matches Err(e) ==> if t@.len() == 0 {
            e.is_arith_error("r length is 0"@)
        } else {
            e.is_invalid_parameters("x and y have different length"@)
        },
        r matches Ok(claim) ==> is_claim(claim, f_i_commitments@, points@, *proof, t@),
        is_claim_outcome(f_i_commitments@, points@, *proof, t@, r),
{
    let weights = match batching_weights(t) {
        Ok(weights) => weights,
        Err(e) => {
            return Err(e);
        },
    };
    assert(vals(weights@).len() == pow2(t@.len()));
    let a2 = copy_slice(proof.sum_check_proof.point.as_slice());
    let scalars = match batch_scalars(points, a2.as_slice(), weights.as_slice()) {
        Ok(scalars) => scalars,
        Err(e) => {
            return Err(e);
        },
    };
    let bases = &f_i_commitments[0..points.len()];
    let commitment = g1_msm(bases, scalars.as_slice());
    let sum = batch_claimed_sum(
        weights.as_slice(),
        proof.f_i_eval_at_point_i.as_slice(),
        f_i_commitments.len(),
    );
    let aux_info = VPAuxInfo { max_degree: 2, num_variables: a2.len() };
    proof {
        let p = Fr::modulus();
        let (point, ws) = (vals(a2@), vals(weights@));
        assert(bases@ =~= f_i_commitments@.take(points@.len() as int));
        assert(vals(scalars@) =~= claim_scalars(points@, point, ws));
    }
    Ok(BatchClaim { commitment, point: a2, sum, aux_info })
}

/// The weights of the commitments: the equality of `a2` with each point, times
/// the query's weight.
pub open spec fn claim_scalars<F: PrimeField>(
    points: Seq<Vec<F>>,
    a2: Seq<int>,
    ws: Seq<int>,
) -> Seq<int> {
    Seq::new(points.len(), |i: int| (eq_points(a2, vals(points[i]@)) * ws[i]) % F::modulus())
}

/// The claim of a batch opening under the challenges `t`.
pub open spec fn is_claim<P>(
    claim: BatchClaim,
    commitments: Seq<G1Affine>,
    points: Seq<Vec<Fr>>,
    proof: BatchProof<Fr, P>,
    t: Seq<Fr>,
) -> bool {
    let ws = residues(Fr::modulus(), eq_table(vals(t)));
    let a2 = vals(proof.sum_check_proof.point@);
    &&& claim.point@ == proof.sum_check_proof.point@
    &&& claim.aux_info.max_degree == 2
    &&& claim.aux_info.num_variables == claim.point@.len()
    &&& claim.sum.val() == weighted_sum(
        ws,
        vals(proof.f_i_eval_at_point_i@),
        smaller(commitments.len() as int, ws.len() as int),
    ) % Fr::modulus()
    &&& claim.commitment@ == g1_linear_combination(
        g1_views(commitments.take(points.len() as int)),
        claim_scalars(points, a2, ws),
    )
    &&& combines_multiples(
        g1_views(commitments.take(points.len() as int)),
        claim_scalars(points, a2, ws),
        claim.commitment@,
    )
}

/// The outcome of the verifier's part under the challenges `t`.
pub open spec fn is_claim_outcome<P>(
    commitments: Seq<G1Affine>,
    points: Seq<Vec<Fr>>,
    proof: BatchProof<Fr, P>,
    t: Seq<Fr>,
    r: Result<BatchClaim, PCSError>,
) -> bool {
    match r {
        Ok(claim) => {
            &&& t.len() > 0
            &&& forall|i: int|
                0 <= i < points.len() ==> (#[trigger] points[i])@.len()
                    == proof.sum_check_proof.point@.len()
            &&& is_claim(claim, commitments, points, proof, t)
        },
        Err(e) => if t.len() == 0 {
            e.is_arith_error("r length is 0"@)
        } else {
            &&& exists|i: int|
                0 <= i < points.len() && (#[trigger] points[i])@.len()
                    != proof.sum_check_proof.point@.len()
            &&& e.is_invalid_parameters("x and y have different length"@)
        },
    }
}

} // verus!
