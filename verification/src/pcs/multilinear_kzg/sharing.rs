//! When a batch opening has something to prove, and why it does not depend on
//! which polynomials share an allocation.

use crate::arithmetic::dense::DenseMultilinearExtension;
use crate::arithmetic::virtual_polynomial::VirtualPolynomial;
use crate::field::{vals, PrimeField};
use crate::math::grouping::{occurs, queries_total, row_total, rows_total};
use crate::math::modular::{eqm, residues};
use crate::math::multilinear::eq_table;
use crate::math::sums::{lemma_sum_ext, lemma_sum_zero, sum};
use crate::math::terms::terms_value;
use crate::pcs::multilinear_kzg::batch_proof::{is_batch_outcome, is_outcome, opens, opens_with};
use crate::pcs::multilinear_kzg::completeness::lemma_planned;
use crate::pcs::multilinear_kzg::opening::{least, places, OpeningPlan};
use crate::poly_iop::structs::{same_proof, IOPProof};
use crate::poly_iop::sum_check::consistency::lemma_values_determine_message;
use crate::poly_iop::sum_check::dense_prover::is_dense_message;
use std::sync::Arc;
use vstd::arithmetic::div_mod::lemma_small_mod;
use vstd::arithmetic::power2::lemma_pow2_pos;
use vstd::prelude::*;

verus! {

/// Where anything that can be summed over the queries is not zero, there is
/// something to prove.
pub proof fn lemma_has_multiplicand<F: PrimeField>(
    plan: OpeningPlan<F>,
    polynomials: Seq<Arc<DenseMultilinearExtension<F>>>,
    points: Seq<Vec<F>>,
    weights: Seq<F>,
    f: spec_fn(int, int) -> int,
)
    requires
        plan.plans(polynomials, points, weights),
        queries_total(
            vals(weights),
            places(plan.poly_indices@),
            places(plan.point_indices@),
            f,
            least(polynomials.len() as int, points.len() as int, weights.len() as int),
        ) % F::modulus() != 0,
    ensures
        plan.has_multiplicand(),
{
    F::lemma_modulus();
    let p = F::modulus();
    let rows = plan.rows();
    let (us, ds) = (places(plan.poly_indices@), places(plan.point_indices@));
    let k = least(polynomials.len() as int, points.len() as int, weights.len() as int);
    assert(eqm(p, rows_total(rows, f), queries_total(vals(weights), us, ds, f, k)));
    if !plan.has_multiplicand() {
        let totals = |u: int| row_total(rows[u], f, u);
        assert forall|u: int| 0 <= u < rows.len() implies #[trigger] totals(u) == 0 by {
            assert(!plan.is_multiplicand(u));
            let row = rows[u];
            let g = |j: int| row[j].1 * f(u, row[j].0);
            assert forall|j: int| 0 <= j < row.len() implies #[trigger] g(j) == 0 by {
                if row[j].1 != 0 {
                    plan.lemma_counted_row(u);
                }
                assert(0 * f(u, row[j].0) == 0);
            }
            lemma_sum_zero(g, 0, row.len() as int);
        }
        lemma_sum_zero(totals, 0, rows.len() as int);
        lemma_small_mod(0, p as nat);
    }
}

/// Where the weights of the queries do not add up to zero, there is something to
/// prove.
pub proof fn lemma_weights_have_multiplicand<F: PrimeField>(
    plan: OpeningPlan<F>,
    polynomials: Seq<Arc<DenseMultilinearExtension<F>>>,
    points: Seq<Vec<F>>,
    weights: Seq<F>,
)
    requires
        plan.plans(polynomials, points, weights),
        sum(
            |i: int| vals(weights)[i],
            0,
            least(polynomials.len() as int, points.len() as int, weights.len() as int),
        ) % F::modulus() != 0,
    ensures
        plan.has_multiplicand(),
{
    let ws = vals(weights);
    let (us, ds) = (places(plan.poly_indices@), places(plan.point_indices@));
    let k = least(polynomials.len() as int, points.len() as int, weights.len() as int);
    let one = |u: int, d: int| 1int;
    let a = |i: int| ws[i] * one(us[i], ds[i]);
    let b = |i: int| ws[i];
    lemma_sum_ext(a, b, 0, k);
    lemma_has_multiplicand(plan, polynomials, points, weights, one);
}

/// Where two points differ, there is something to prove.
pub proof fn lemma_points_have_multiplicand<F: PrimeField>(
    plan: OpeningPlan<F>,
    polynomials: Seq<Arc<DenseMultilinearExtension<F>>>,
    points: Seq<Vec<F>>,
    i: int,
    j: int,
)
    requires
        polynomials.len() > 0,
        plan.places_queries(polynomials, points),
        0 <= i < points.len(),
        0 <= j < points.len(),
        vals(points[i]@) != vals(points[j]@),
    ensures
        plan.has_multiplicand(),
{
    let (us, ds) = (places(plan.poly_indices@), places(plan.point_indices@));
    assert(plan.point(plan.point_indices@[i] as int) == vals(points[i]@));
    assert(plan.point(plan.point_indices@[j] as int) == vals(points[j]@));
    assert(0 <= ds[i] < plan.points@.len() && 0 <= ds[j] < plan.points@.len());
    assert(0 <= us[0] < plan.polynomials@.len());
    assert(plan.is_multiplicand(us[0]));
}

/// The weight that query `i` gives to the pair of the polynomial at place `u`
/// and the point at place `d`.
pub open spec fn weight_of(
    ws: Seq<int>,
    us: Seq<int>,
    ds: Seq<int>,
    u: int,
    d: int,
    i: int,
) -> int {
    if us[i] == u && ds[i] == d {
        ws[i]
    } else {
        0
    }
}

/// The weight that the first `m` queries give to the pair.
pub open spec fn merged_weight(
    ws: Seq<int>,
    us: Seq<int>,
    ds: Seq<int>,
    u: int,
    d: int,
    m: int,
) -> int {
    sum(|i: int| weight_of(ws, us, ds, u, d, i), 0, m)
}

/// Where a merged weight is not zero, there is something to prove.
pub proof fn lemma_merged_weight_has_multiplicand<F: PrimeField>(
    plan: OpeningPlan<F>,
    polynomials: Seq<Arc<DenseMultilinearExtension<F>>>,
    points: Seq<Vec<F>>,
    weights: Seq<F>,
    u: int,
    d: int,
)
    requires
        plan.plans(polynomials, points, weights),
        merged_weight(
            vals(weights),
            places(plan.poly_indices@),
            places(plan.point_indices@),
            u,
            d,
            least(polynomials.len() as int, points.len() as int, weights.len() as int),
        ) % F::modulus() != 0,
    ensures
        plan.has_multiplicand(),
{
    let ws = vals(weights);
    let (us, ds) = (places(plan.poly_indices@), places(plan.point_indices@));
    let k = least(polynomials.len() as int, points.len() as int, weights.len() as int);
    let own = |v: int, e: int|
        if v == u && e == d {
            1int
        } else {
            0
        };
    let a = |i: int| ws[i] * own(us[i], ds[i]);
    let b = |i: int| weight_of(ws, us, ds, u, d, i);
    assert forall|i: int| 0 <= i < k implies #[trigger] a(i) == b(i) by {
        assert(ws[i] * 1 == ws[i] && ws[i] * 0 == 0);
    }
    lemma_sum_ext(a, b, 0, k);
    lemma_has_multiplicand(plan, polynomials, points, weights, own);
}

/// However the polynomials share allocations, no weight that queries of one
/// polynomial at one point come to is zero.
pub open spec fn no_weight_vanishes<F: PrimeField>(
    polynomials: Seq<Arc<DenseMultilinearExtension<F>>>,
    points: Seq<Vec<F>>,
    t: Seq<F>,
) -> bool {
    forall|plan: OpeningPlan<F>, weights: Seq<F>, i: int|
        #![trigger plan.plans(polynomials, points, weights), plan.poly_indices@[i]]
        plan.plans(polynomials, points, weights) && vals(weights) == residues(
            F::modulus(),
            eq_table(vals(t)),
        ) && 0 <= i < least(
            polynomials.len() as int,
            points.len() as int,
            weights.len() as int,
        ) ==> merged_weight(
            vals(weights),
            places(plan.poly_indices@),
            places(plan.point_indices@),
            plan.poly_indices@[i] as int,
            plan.point_indices@[i] as int,
            least(polynomials.len() as int, points.len() as int, weights.len() as int),
        ) % F::modulus() != 0
}

/// Where no merged weight is zero, there is something to prove.
pub proof fn lemma_merged_weights_have_multiplicand<F: PrimeField>(
    plan: OpeningPlan<F>,
    polynomials: Seq<Arc<DenseMultilinearExtension<F>>>,
    points: Seq<Vec<F>>,
    weights: Seq<F>,
    t: Seq<F>,
)
    requires
        polynomials.len() > 0,
        plan.plans(polynomials, points, weights),
        vals(weights) == residues(F::modulus(), eq_table(vals(t))),
        no_weight_vanishes(polynomials, points, t),
    ensures
        plan.has_multiplicand(),
{
    let us = places(plan.poly_indices@);
    assert(0 <= us[0] < plan.polynomials@.len());
    if points.len() == 0 {
        if plan.points@.len() == 1 {
            assert(occurs(places(plan.point_indices@), 0));
        }
        assert(plan.is_multiplicand(us[0]));
    } else {
        lemma_pow2_pos(vals(t).len());
        assert(vals(weights).len() == weights.len());
        assert(plan.poly_indices@[0] == us[0]);
        lemma_merged_weight_has_multiplicand(
            plan,
            polynomials,
            points,
            weights,
            plan.poly_indices@[0] as int,
            plan.point_indices@[0] as int,
        );
    }
}

/// Two lists of polynomials with the same values, whichever of them share an
/// allocation.
pub open spec fn same_polynomials<F: PrimeField>(
    a: Seq<Arc<DenseMultilinearExtension<F>>>,
    b: Seq<Arc<DenseMultilinearExtension<F>>>,
) -> bool {
    &&& a.len() == b.len()
    &&& forall|i: int|
        0 <= i < a.len() ==> (#[trigger] a[i]).num_vars == b[i].num_vars && a[i].table()
            == b[i].table()
}

/// What two plans call for of queries with the same values comes to the same,
/// whatever is to be added up.
proof fn lemma_same_queries<F: PrimeField>(
    plan: OpeningPlan<F>,
    polynomials: Seq<Arc<DenseMultilinearExtension<F>>>,
    other_plan: OpeningPlan<F>,
    other_polynomials: Seq<Arc<DenseMultilinearExtension<F>>>,
    points: Seq<Vec<F>>,
    weights: Seq<F>,
    other_weights: Seq<F>,
    f: spec_fn(int, int) -> int,
    g: spec_fn(int, int) -> int,
)
    requires
        same_polynomials(polynomials, other_polynomials),
        plan.plans(polynomials, points, weights),
        other_plan.plans(other_polynomials, points, other_weights),
        vals(weights) == vals(other_weights),
        forall|u: int, d: int, v: int, e: int|
            plan.table(u) == other_plan.table(v) && plan.point(d) == other_plan.point(e)
                ==> #[trigger] f(u, d) == #[trigger] g(v, e),
    ensures
        eqm(F::modulus(), rows_total(plan.rows(), f), rows_total(other_plan.rows(), g)),
{
    let p = F::modulus();
    let ws = vals(weights);
    assert(vals(other_weights).len() == other_weights.len() && ws.len() == weights.len());
    let k = least(polynomials.len() as int, points.len() as int, weights.len() as int);
    let (us, ds) = (places(plan.poly_indices@), places(plan.point_indices@));
    let (vs, es) = (places(other_plan.poly_indices@), places(other_plan.point_indices@));
    assert(eqm(p, rows_total(plan.rows(), f), queries_total(ws, us, ds, f, k)));
    assert(eqm(p, rows_total(other_plan.rows(), g), queries_total(ws, vs, es, g, k)));
    let a = |i: int| ws[i] * f(us[i], ds[i]);
    let b = |i: int| ws[i] * g(vs[i], es[i]);
    assert forall|i: int| 0 <= i < k implies #[trigger] a(i) == b(i) by {
        lemma_planned(plan, polynomials, points, i);
        lemma_planned(other_plan, other_polynomials, points, i);
        assert(polynomials[i].table() == other_polynomials[i].table());
        assert(f(us[i], ds[i]) == g(vs[i], es[i]));
    }
    lemma_sum_ext(a, b, 0, k);
}

/// A message of a batch opening depends on the values of the polynomials and on
/// the challenges before it, and not on which of the polynomials share an
/// allocation, as long as the merged weights leave something to prove in both
/// cases or in none.
pub proof fn lemma_sharing_leaves_messages<F: PrimeField>(
    plan: OpeningPlan<F>,
    polynomials: Seq<Arc<DenseMultilinearExtension<F>>>,
    proof: IOPProof<F>,
    g_prime: DenseMultilinearExtension<F>,
    challenges: Seq<F>,
    weights: Seq<F>,
    other_plan: OpeningPlan<F>,
    other_polynomials: Seq<Arc<DenseMultilinearExtension<F>>>,
    other_proof: IOPProof<F>,
    other_g_prime: DenseMultilinearExtension<F>,
    other_challenges: Seq<F>,
    other_weights: Seq<F>,
    points: Seq<Vec<F>>,
    i: int,
)
    requires
        polynomials.len() > 0,
        same_polynomials(polynomials, other_polynomials),
        plan.plans(polynomials, points, weights),
        other_plan.plans(other_polynomials, points, other_weights),
        vals(weights) == vals(other_weights),
        plan.has_multiplicand() == other_plan.has_multiplicand(),
        opens(plan, proof, g_prime, challenges),
        opens(other_plan, other_proof, other_g_prime, other_challenges),
        0 <= i < plan.num_var,
        vals(challenges).take(i) == vals(other_challenges).take(i),
    ensures
        i < proof.proofs@.len(),
        i < other_proof.proofs@.len(),
        vals(proof.proofs@[i].evaluations@) == vals(other_proof.proofs@[i].evaluations@),
{
    let n = plan.num_var as nat;
    assert(polynomials[0].num_vars == other_polynomials[0].num_vars);
    assert(other_plan.num_var == n);
    let vp = choose|vp: VirtualPolynomial<F>| #[trigger]
        opens_with(plan, proof, g_prime, challenges, vp);
    let other_vp = choose|vp: VirtualPolynomial<F>| #[trigger]
        opens_with(other_plan, other_proof, other_g_prime, other_challenges, vp);
    vp.lemma_shape(n);
    other_vp.lemma_shape(n);
    assert forall|at: Seq<int>| at.len() == n implies eqm(
        F::modulus(),
        #[trigger] terms_value(vp.tables(), vp.terms(), at),
        terms_value(other_vp.tables(), other_vp.terms(), at),
    ) by {
        lemma_same_queries(
            plan,
            polynomials,
            other_plan,
            other_polynomials,
            points,
            weights,
            other_weights,
            plan.pair_values(at),
            other_plan.pair_values(at),
        );
        assert(eqm(
            F::modulus(),
            terms_value(other_vp.tables(), other_vp.terms(), at),
            rows_total(other_plan.rows(), other_plan.pair_values(at)),
        ));
    }
    let chs = vals(challenges).take(i);
    assert(is_dense_message(proof.proofs@[i], vp, vals(proof.point@).take(i)));
    assert(is_dense_message(other_proof.proofs@[i], other_vp, vals(other_proof.point@).take(i)));
    lemma_values_determine_message(
        proof.proofs@[i],
        vp.tables(),
        vp.terms(),
        other_proof.proofs@[i],
        other_vp.tables(),
        other_vp.terms(),
        n,
        vp.aux_info.max_degree as int,
        chs,
    );
}

/// A batch opening depends on the values of the polynomials, and not on which of
/// them share an allocation, as long as the merged weights leave something to
/// prove in both cases or in none.
pub proof fn lemma_sharing_does_not_matter<F: PrimeField>(
    plan: OpeningPlan<F>,
    polynomials: Seq<Arc<DenseMultilinearExtension<F>>>,
    proof: IOPProof<F>,
    g_prime: DenseMultilinearExtension<F>,
    weights: Seq<F>,
    other_plan: OpeningPlan<F>,
    other_polynomials: Seq<Arc<DenseMultilinearExtension<F>>>,
    other_proof: IOPProof<F>,
    other_g_prime: DenseMultilinearExtension<F>,
    other_weights: Seq<F>,
    points: Seq<Vec<F>>,
    challenges: Seq<F>,
)
    requires
        polynomials.len() > 0,
        same_polynomials(polynomials, other_polynomials),
        plan.plans(polynomials, points, weights),
        other_plan.plans(other_polynomials, points, other_weights),
        vals(weights) == vals(other_weights),
        plan.has_multiplicand() == other_plan.has_multiplicand(),
        opens(plan, proof, g_prime, challenges),
        opens(other_plan, other_proof, other_g_prime, challenges),
    ensures
        same_proof(proof, other_proof),
        g_prime.num_vars == other_g_prime.num_vars,
        g_prime.table() == other_g_prime.table(),
{
    let n = plan.num_var as nat;
    let a2 = vals(challenges);
    assert(polynomials[0].num_vars == other_polynomials[0].num_vars);
    assert(other_plan.num_var == n);
    let vp = choose|vp: VirtualPolynomial<F>| #[trigger]
        opens_with(plan, proof, g_prime, challenges, vp);
    let other_vp = choose|vp: VirtualPolynomial<F>| #[trigger]
        opens_with(other_plan, other_proof, other_g_prime, challenges, vp);
    assert(proof.proofs@.len() == n && other_proof.proofs@.len() == n);
    assert forall|i: int| 0 <= i < proof.proofs@.len() implies vals(
        (#[trigger] proof.proofs@[i]).evaluations@,
    ) == vals(other_proof.proofs@[i].evaluations@) by {
        lemma_sharing_leaves_messages(
            plan,
            polynomials,
            proof,
            g_prime,
            challenges,
            weights,
            other_plan,
            other_polynomials,
            other_proof,
            other_g_prime,
            challenges,
            other_weights,
            points,
            i,
        );
    }
    let (s, t) = (g_prime.table(), other_g_prime.table());
    assert forall|x: int| 0 <= x < s.len() implies s[x] == t[x] by {
        lemma_same_queries(
            plan,
            polynomials,
            other_plan,
            other_polynomials,
            points,
            weights,
            other_weights,
            plan.combined_at(a2, x),
            other_plan.combined_at(a2, x),
        );
    }
    assert(s =~= t);
}

/// However the polynomials of the one list and those of the other share
/// allocations, the merged weights leave something to prove of both or of none.
pub open spec fn leave_alike<F: PrimeField>(
    polynomials: Seq<Arc<DenseMultilinearExtension<F>>>,
    other_polynomials: Seq<Arc<DenseMultilinearExtension<F>>>,
    points: Seq<Vec<F>>,
    t: Seq<F>,
) -> bool {
    forall|plan: OpeningPlan<F>, weights: Seq<F>, other: OpeningPlan<F>, other_weights: Seq<F>|
        #[trigger] plan.plans(polynomials, points, weights) && #[trigger] other.plans(
            other_polynomials,
            points,
            other_weights,
        ) && vals(weights) == residues(F::modulus(), eq_table(vals(t))) && vals(other_weights)
            == residues(F::modulus(), eq_table(vals(t))) ==> plan.has_multiplicand()
            == other.has_multiplicand()
}

/// What a shared pointer points to.
pub open spec fn pointee<F: PrimeField>(
    shared: Arc<DenseMultilinearExtension<F>>,
) -> DenseMultilinearExtension<F> {
    *shared
}

/// Two batch openings of polynomials with the same values, at the same points
/// and under the same challenges, are the same, whichever of the polynomials
/// share an allocation, unless that decides whether there is something to prove.
pub proof fn lemma_opening_depends_on_values<F: PrimeField>(
    polynomials: Seq<Arc<DenseMultilinearExtension<F>>>,
    other_polynomials: Seq<Arc<DenseMultilinearExtension<F>>>,
    points: Seq<Vec<F>>,
    t: Seq<F>,
    challenges: Seq<F>,
    opening: (IOPProof<F>, Arc<DenseMultilinearExtension<F>>),
    other: (IOPProof<F>, Arc<DenseMultilinearExtension<F>>),
)
    requires
        polynomials.len() > 0,
        same_polynomials(polynomials, other_polynomials),
        leave_alike(polynomials, other_polynomials, points, t),
        is_batch_outcome(polynomials, points, t, challenges, Ok(opening)),
        is_batch_outcome(other_polynomials, points, t, challenges, Ok(other)),
    ensures
        same_proof(opening.0, other.0),
        opening.1.num_vars == other.1.num_vars,
        opening.1.table() == other.1.table(),
{
    let (plan, weights) = choose|plan: OpeningPlan<F>, weights: Seq<F>| #[trigger]
        plan.plans(polynomials, points, weights) && vals(weights) == residues(
            F::modulus(),
            eq_table(vals(t)),
        ) && is_outcome(plan, challenges, Ok(opening));
    let (other_plan, other_weights) = choose|plan: OpeningPlan<F>, weights: Seq<F>| #[trigger]
        plan.plans(other_polynomials, points, weights) && vals(weights) == residues(
            F::modulus(),
            eq_table(vals(t)),
        ) && is_outcome(plan, challenges, Ok(other));
    lemma_sharing_does_not_matter(
        plan,
        polynomials,
        opening.0,
        pointee(opening.1),
        weights,
        other_plan,
        other_polynomials,
        other.0,
        pointee(other.1),
        other_weights,
        points,
        challenges,
    );
}

/// Where no merged weight is zero, sharing does not decide whether there is
/// something to prove.
pub proof fn lemma_weights_leave_alike<F: PrimeField>(
    polynomials: Seq<Arc<DenseMultilinearExtension<F>>>,
    other_polynomials: Seq<Arc<DenseMultilinearExtension<F>>>,
    points: Seq<Vec<F>>,
    t: Seq<F>,
)
    requires
        polynomials.len() > 0,
        other_polynomials.len() > 0,
        no_weight_vanishes(polynomials, points, t),
        no_weight_vanishes(other_polynomials, points, t),
    ensures
        leave_alike(polynomials, other_polynomials, points, t),
{
    assert forall|
        plan: OpeningPlan<F>,
        weights: Seq<F>,
        other: OpeningPlan<F>,
        other_weights: Seq<F>,
    | #[trigger] plan.plans(polynomials, points, weights) && #[trigger] other.plans(
        other_polynomials,
        points,
        other_weights,
    ) && vals(weights) == residues(F::modulus(), eq_table(vals(t))) && vals(other_weights)
        == residues(F::modulus(), eq_table(vals(t))) implies plan.has_multiplicand()
        == other.has_multiplicand() by {
        lemma_merged_weights_have_multiplicand(plan, polynomials, points, weights, t);
        lemma_merged_weights_have_multiplicand(
            other,
            other_polynomials,
            points,
            other_weights,
            t,
        );
    }
}

/// Where two points differ, sharing does not decide whether there is something
/// to prove.
pub proof fn lemma_points_leave_alike<F: PrimeField>(
    polynomials: Seq<Arc<DenseMultilinearExtension<F>>>,
    other_polynomials: Seq<Arc<DenseMultilinearExtension<F>>>,
    points: Seq<Vec<F>>,
    t: Seq<F>,
    i: int,
    j: int,
)
    requires
        polynomials.len() > 0,
        other_polynomials.len() > 0,
        0 <= i < points.len(),
        0 <= j < points.len(),
        vals(points[i]@) != vals(points[j]@),
    ensures
        leave_alike(polynomials, other_polynomials, points, t),
{
    assert forall|
        plan: OpeningPlan<F>,
        weights: Seq<F>,
        other: OpeningPlan<F>,
        other_weights: Seq<F>,
    | #[trigger] plan.plans(polynomials, points, weights) && #[trigger] other.plans(
        other_polynomials,
        points,
        other_weights,
    ) && vals(weights) == residues(F::modulus(), eq_table(vals(t))) && vals(other_weights)
        == residues(F::modulus(), eq_table(vals(t))) implies plan.has_multiplicand()
        == other.has_multiplicand() by {
        lemma_points_have_multiplicand(plan, polynomials, points, i, j);
        lemma_points_have_multiplicand(other, other_polynomials, points, i, j);
    }
}

/// Where the weights of the queries do not add up to zero, sharing does not
/// decide whether there is something to prove.
pub proof fn lemma_total_leaves_alike<F: PrimeField>(
    polynomials: Seq<Arc<DenseMultilinearExtension<F>>>,
    other_polynomials: Seq<Arc<DenseMultilinearExtension<F>>>,
    points: Seq<Vec<F>>,
    t: Seq<F>,
)
    requires
        other_polynomials.len() == polynomials.len(),
        sum(
            |i: int| residues(F::modulus(), eq_table(vals(t)))[i],
            0,
            least(
                polynomials.len() as int,
                points.len() as int,
                eq_table(vals(t)).len() as int,
            ),
        ) % F::modulus() != 0,
    ensures
        leave_alike(polynomials, other_polynomials, points, t),
{
    assert forall|
        plan: OpeningPlan<F>,
        weights: Seq<F>,
        other: OpeningPlan<F>,
        other_weights: Seq<F>,
    | #[trigger] plan.plans(polynomials, points, weights) && #[trigger] other.plans(
        other_polynomials,
        points,
        other_weights,
    ) && vals(weights) == residues(F::modulus(), eq_table(vals(t))) && vals(other_weights)
        == residues(F::modulus(), eq_table(vals(t))) implies plan.has_multiplicand()
        == other.has_multiplicand() by {
        assert(vals(weights).len() == weights.len());
        assert(vals(other_weights).len() == other_weights.len());
        lemma_weights_have_multiplicand(plan, polynomials, points, weights);
        lemma_weights_have_multiplicand(other, other_polynomials, points, other_weights);
    }
}

/// However the polynomials share allocations, there is something to prove.
pub open spec fn always_proves<F: PrimeField>(
    polynomials: Seq<Arc<DenseMultilinearExtension<F>>>,
    points: Seq<Vec<F>>,
    t: Seq<F>,
) -> bool {
    forall|plan: OpeningPlan<F>, weights: Seq<F>| #[trigger]
        plan.plans(polynomials, points, weights) && vals(weights) == residues(
            F::modulus(),
            eq_table(vals(t)),
        ) ==> plan.has_multiplicand()
}

/// There is always something to prove where two points differ, where the weights
/// of the queries do not add up to zero, and where no merged weight is zero.
pub proof fn lemma_always_proves<F: PrimeField>(
    polynomials: Seq<Arc<DenseMultilinearExtension<F>>>,
    points: Seq<Vec<F>>,
    t: Seq<F>,
)
    requires
        polynomials.len() > 0,
        (exists|i: int, j: int|
            0 <= i < points.len() && 0 <= j < points.len() && vals((#[trigger] points[i])@)
                != vals((#[trigger] points[j])@)) || sum(
            |i: int| residues(F::modulus(), eq_table(vals(t)))[i],
            0,
            least(
                polynomials.len() as int,
                points.len() as int,
                eq_table(vals(t)).len() as int,
            ),
        ) % F::modulus() != 0 || no_weight_vanishes(polynomials, points, t),
    ensures
        always_proves(polynomials, points, t),
{
    assert forall|plan: OpeningPlan<F>, weights: Seq<F>| #[trigger]
        plan.plans(polynomials, points, weights) && vals(weights) == residues(
            F::modulus(),
            eq_table(vals(t)),
        ) implies plan.has_multiplicand() by {
        assert(vals(weights).len() == weights.len());
        if exists|i: int, j: int|
            0 <= i < points.len() && 0 <= j < points.len() && vals((#[trigger] points[i])@)
                != vals((#[trigger] points[j])@) {
            let (i, j) = choose|i: int, j: int|
                0 <= i < points.len() && 0 <= j < points.len() && vals((#[trigger] points[i])@)
                    != vals((#[trigger] points[j])@);
            lemma_points_have_multiplicand(plan, polynomials, points, i, j);
        } else if no_weight_vanishes(polynomials, points, t) {
            lemma_merged_weights_have_multiplicand(plan, polynomials, points, weights, t);
        } else {
            lemma_weights_have_multiplicand(plan, polynomials, points, weights);
        }
    }
}

} // verus!
