//! What sum-check proofs are good for: a proof of the dense prover and one of
//! the mixed prover convince, whatever the degree, and every value that they
//! hold is a sum of the polynomial's own values.

use crate::arithmetic::dense::DenseMultilinearExtension;
use crate::arithmetic::virtual_polynomial::VirtualPolynomial;
use crate::errors::PolyIOPErrors;
use crate::field::{vals, PrimeField};
use crate::math::boolean::bits;
use crate::math::modular::{eqm, lemma_eqm_residue};
use crate::math::multilinear::{fold, lemma_fix_first, lemma_pow2_halves, mle};
use crate::math::sparse::lemma_value_miss;
use crate::math::sums::{
    counting, lemma_product_ext, lemma_sum_ext, lemma_sum_shift, lemma_sum_split, product, sum,
};
use crate::math::terms::{
    all_sized, cube_sum, factors_below, fix_all, fold_all, lemma_fix_all_empty, lemma_fix_all_push,
    lemma_product_at_two, lemma_product_sum_two, lemma_term_appended, pair_sum, product_at,
    product_sum, round_value, terms_value, Term,
};
use crate::poly_iop::structs::{is_message, is_proof, IOPProof, IOPProverMessage};
use crate::poly_iop::sum_check::consistency::{
    convinces, factors_at_most, lemma_proof_convinces, lemma_sum_of_values, same_term,
};
use crate::poly_iop::sum_check::dense_prover::{
    is_dense_message, is_dense_proof, is_proving_outcome,
};
use crate::poly_iop::sum_check::mixed_prover::{
    all_in, is_mixed_message, is_mixed_outcome, is_mixed_proof, sparse_share, sparse_shares,
};
use crate::poly_iop::sum_check::sparse_product::SparseSupportProduct;
use std::sync::Arc;
use vstd::arithmetic::power2::{lemma2_to64, pow2};
use vstd::prelude::*;

verus! {

/// At a vertex of the hypercube a multilinear polynomial takes the value that
/// its table holds there.
pub proof fn lemma_vertex_value(t: Seq<int>, x: int, n: nat)
    requires
        t.len() == pow2(n),
        0 <= x < t.len(),
    ensures
        mle(t, bits(x, n)) == t[x],
    decreases n,
{
    lemma2_to64();
    if n > 0 {
        let point = bits(x, n);
        let rest = (n - 1) as nat;
        let half = fold(t, x % 2);
        lemma_pow2_halves(n);
        lemma_fix_first(t, point);
        assert(point.drop_first() =~= bits(x / 2, rest));
        assert(point[0] == x % 2);
        lemma_vertex_value(half, x / 2, rest);
        let (a, b) = (t[2 * (x / 2)], t[2 * (x / 2) + 1]);
        assert(x == 2 * (x / 2) + x % 2);
        assert(x % 2 == 0 || x % 2 == 1);
        assert(a + 0 * (b - a) == a && a + 1 * (b - a) == b) by (nonlinear_arith);
    }
}

/// The value at `point` of a sum of terms: each coefficient times the values of
/// its factors.
pub proof fn lemma_terms_value(ts: Seq<Seq<int>>, terms: Seq<Term>, point: Seq<int>)
    requires
        factors_below(terms, ts.len() as int),
    ensures
        terms_value(ts, terms, point) == sum(
            |k: int|
                terms[k].coeff * product(
                    |j: int| mle(ts[terms[k].factors[j]], point),
                    0,
                    terms[k].factors.len() as int,
                ),
            0,
            terms.len() as int,
        ),
{
    let us = fix_all(ts, point);
    let f = |k: int| terms[k].coeff * product_sum(us, terms[k].factors, 1);
    let g = |k: int|
        terms[k].coeff * product(
            |j: int| mle(ts[terms[k].factors[j]], point),
            0,
            terms[k].factors.len() as int,
        );
    assert forall|k: int| 0 <= k < terms.len() implies #[trigger] f(k) == g(k) by {
        let factors = terms[k].factors;
        let at = |x: int| product_at(us, factors, x);
        assert(sum(at, 0, 1) == sum(at, 0, 0) + at(0));
        let a = |j: int| us[factors[j]][0];
        let b = |j: int| mle(ts[factors[j]], point);
        assert forall|j: int| 0 <= j < factors.len() implies #[trigger] a(j) == b(j) by {
            assert(0 <= terms[k].factors[j] < ts.len());
        }
        lemma_product_ext(a, b, 0, factors.len() as int);
        let c = |j: int| mle(ts[terms[k].factors[j]], point);
        lemma_product_ext(b, c, 0, factors.len() as int);
    }
    lemma_sum_ext(f, g, 0, terms.len() as int);
}

/// Adding a product adds, at every point, the coefficient times the values of
/// the multiplicands.
pub proof fn lemma_added_product<F: PrimeField>(
    before: VirtualPolynomial<F>,
    after: VirtualPolynomial<F>,
    mle_list: Seq<Arc<DenseMultilinearExtension<F>>>,
    coefficient: F,
    point: Seq<int>,
)
    requires
        before.wf(),
        before.is_added(after, mle_list, coefficient),
    ensures
        terms_value(after.tables(), after.terms(), point) == terms_value(
            before.tables(),
            before.terms(),
            point,
        ) + coefficient.val() * product(
            |j: int| mle(mle_list[j].table(), point),
            0,
            mle_list.len() as int,
        ),
{
    let n = before.aux_info.num_variables as nat;
    let m = before.products@.len() as int;
    before.lemma_shape(n);
    after.lemma_shape(n);
    let (ts, us) = (fix_all(before.tables(), point), fix_all(after.tables(), point));
    let (terms, longer) = (before.terms(), after.terms());
    let term = longer[m];
    assert forall|k: int| 0 <= k < ts.len() implies #[trigger] us[k] == ts[k] by {
        assert(after.flattened_ml_extensions@.subrange(
            0,
            before.flattened_ml_extensions@.len() as int,
        )[k] == after.flattened_ml_extensions@[k]);
    }
    assert forall|k: int| 0 <= k < m implies longer[k] == terms[k] by {
        assert(after.products@.drop_last()[k] == after.products@[k]);
    }
    assert(longer =~= terms.push(term));
    lemma_term_appended(ts, us, terms, term, 1);
    let factors = term.factors;
    let at = |x: int| product_at(us, factors, x);
    assert(sum(at, 0, 1) == sum(at, 0, 0) + at(0));
    let a = |j: int| us[factors[j]][0];
    let b = |j: int| mle(mle_list[j].table(), point);
    assert forall|j: int| 0 <= j < mle_list.len() implies #[trigger] a(j) == b(j) by {
        let place = after.products@.last().1@[j];
        assert(*after.flattened_ml_extensions@[place as int] == *mle_list[j]);
        assert(after.products@[m].1@[j] < after.flattened_ml_extensions@.len());
    }
    lemma_product_ext(a, b, 0, mle_list.len() as int);
}

/// The proof convinces of the sum of `poly` over the hypercube, with the
/// polynomial's value at the point at its end.
pub open spec fn shows_sum<F: PrimeField>(
    proof: IOPProof<F>,
    poly: VirtualPolynomial<F>,
) -> bool {
    convinces(
        proof,
        cube_sum(
            poly.tables(),
            poly.terms(),
            pow2(poly.aux_info.num_variables as nat) as int,
        ),
        poly.aux_info.max_degree as int,
        poly.aux_info.num_variables as nat,
        terms_value(poly.tables(), poly.terms(), vals(proof.point@)),
    )
}

/// A proof of the dense prover convinces, whatever the degree: each message
/// holds `max_degree + 1` values, more than any product has multiplicands; the
/// first shows the sum over the hypercube; each leads to the next, and the last
/// to the polynomial's value at the point.
pub proof fn lemma_dense_proof_convinces<F: PrimeField>(
    proof: IOPProof<F>,
    poly: VirtualPolynomial<F>,
)
    requires
        poly.wf(),
        poly.aux_info.num_variables > 0,
        poly.products@.len() > 0,
        is_dense_proof(proof, poly),
    ensures
        shows_sum(proof, poly),
        forall|i: int, k: int|
            0 <= i < proof.proofs@.len() && 0 <= k < poly.products@.len() ==> (
            #[trigger] proof.proofs@[i]).evaluations@.len() > (
            #[trigger] poly.products@[k]).1@.len(),
{
    let n = poly.aux_info.num_variables as nat;
    let d = poly.aux_info.max_degree as int;
    let terms = poly.terms();
    poly.lemma_shape(n);
    assert(factors_at_most(terms, d)) by {
        assert forall|k: int| 0 <= k < terms.len() implies (#[trigger] terms[k]).factors.len()
            <= d by {
            assert(poly.products@[k].1@.len() <= d);
        }
    }
    assert(poly.products@[0].1@.len() > 0);
    lemma_proof_convinces(proof, poly.tables(), terms, n, d);
}

/// The message holds the values of the round that follows `challenges`: value
/// `j` is the sum, over the vertices that are left, of the polynomial at the
/// challenges, `j` and the vertex.
pub open spec fn holds_round<F: PrimeField>(
    message: IOPProverMessage<F>,
    poly: VirtualPolynomial<F>,
    challenges: Seq<int>,
) -> bool {
    &&& message.evaluations@.len() == poly.aux_info.max_degree + 1
    &&& forall|j: int|
        0 <= j < message.evaluations@.len() ==> eqm(
            F::modulus(),
            (#[trigger] message.evaluations@[j]).val(),
            sum(
                |x: int|
                    terms_value(
                        poly.tables(),
                        poly.terms(),
                        challenges.push(j) + bits(
                            x,
                            (poly.aux_info.num_variables - 1 - challenges.len()) as nat,
                        ),
                    ),
                0,
                pow2((poly.aux_info.num_variables - 1 - challenges.len()) as nat) as int,
            ),
        )
}

/// A message of the dense prover holds the values of its round.
pub proof fn lemma_dense_message_holds_round<F: PrimeField>(
    message: IOPProverMessage<F>,
    poly: VirtualPolynomial<F>,
    challenges: Seq<int>,
)
    requires
        poly.wf(),
        challenges.len() < poly.aux_info.num_variables,
        is_dense_message(message, poly, challenges),
    ensures
        holds_round(message, poly, challenges),
{
    F::lemma_modulus();
    let n = poly.aux_info.num_variables as nat;
    let (ts, terms) = (poly.tables(), poly.terms());
    poly.lemma_shape(n);
    assert forall|j: int| 0 <= j < message.evaluations@.len() implies eqm(
        F::modulus(),
        (#[trigger] message.evaluations@[j]).val(),
        sum(
            |x: int|
                terms_value(
                    ts,
                    terms,
                    challenges.push(j) + bits(x, (n - 1 - challenges.len()) as nat),
                ),
            0,
            pow2((n - 1 - challenges.len()) as nat) as int,
        ),
    ) by {
        lemma_fix_all_push(ts, challenges, j);
        lemma_sum_of_values(ts, terms, n, challenges.push(j));
        lemma_eqm_residue(
            F::modulus(),
            round_value(
                fix_all(ts, challenges),
                terms,
                pow2((n - 1 - challenges.len()) as nat) as int,
                j,
            ),
        );
    }
}

/// The value at `point` of the sparse products: each coefficient times the
/// values of the two factors.
pub open spec fn sparse_value<F: PrimeField>(
    sparse: Seq<SparseSupportProduct<F>>,
    point: Seq<int>,
) -> int {
    sum(
        |k: int|
            sparse[k].coeff() * (mle(sparse[k].left_table(), point) * mle(
                sparse[k].right_table(),
                point,
            )),
        0,
        sparse.len() as int,
    )
}

/// The sum of the sparse products over the `n`-dimensional hypercube.
pub open spec fn sparse_total<F: PrimeField>(
    sparse: Seq<SparseSupportProduct<F>>,
    n: nat,
) -> int {
    sum(
        |k: int|
            sparse[k].coeff() * pair_sum(
                sparse[k].left_table(),
                sparse[k].right_table(),
                pow2(n) as int,
            ),
        0,
        sparse.len() as int,
    )
}

/// The tables of a virtual polynomial and those of the sparse products, in one
/// list.
spec fn joined_tables<F: PrimeField>(
    poly: VirtualPolynomial<F>,
    sparse: Seq<SparseSupportProduct<F>>,
) -> Seq<Seq<int>> {
    poly.tables() + Seq::new(2 * sparse.len(), |i: int| sparse[i / 2].tables()[i % 2])
}

/// The terms over the one list.
spec fn joined_terms<F: PrimeField>(
    poly: VirtualPolynomial<F>,
    sparse: Seq<SparseSupportProduct<F>>,
) -> Seq<Term> {
    let m = poly.tables().len() as int;
    poly.terms() + Seq::new(
        sparse.len(),
        |k: int| (Term { coeff: sparse[k].coeff(), factors: seq![m + 2 * k, m + 2 * k + 1] }),
    )
}

spec fn pair_term<F: PrimeField>(s: SparseSupportProduct<F>) -> Term {
    Term { coeff: s.coeff(), factors: counting(2) }
}

proof fn lemma_joined<F: PrimeField>(
    poly: VirtualPolynomial<F>,
    sparse: Seq<SparseSupportProduct<F>>,
    max_degree: int,
)
    requires
        poly.wf(),
        all_in(sparse, poly.aux_info.num_variables as nat),
        max_degree >= 2,
        max_degree >= poly.aux_info.max_degree,
    ensures
        all_sized(
            joined_tables(poly, sparse),
            pow2(poly.aux_info.num_variables as nat) as int,
        ),
        factors_below(joined_terms(poly, sparse), joined_tables(poly, sparse).len() as int),
        factors_at_most(joined_terms(poly, sparse), max_degree),
        joined_terms(poly, sparse).len() == poly.terms().len() + sparse.len(),
        forall|k: int|
            0 <= k < poly.terms().len() ==> same_term(
                joined_tables(poly, sparse),
                #[trigger] joined_terms(poly, sparse)[k],
                poly.tables(),
                poly.terms()[k],
            ),
        forall|k: int|
            0 <= k < sparse.len() ==> same_term(
                joined_tables(poly, sparse),
                joined_terms(poly, sparse)[poly.terms().len() + k],
                (#[trigger] sparse[k]).tables(),
                pair_term(sparse[k]),
            ),
{
    let n = poly.aux_info.num_variables as nat;
    let (ts, terms) = (joined_tables(poly, sparse), joined_terms(poly, sparse));
    let (us, small) = (poly.tables(), poly.terms());
    let m = us.len() as int;
    poly.lemma_shape(n);
    assert forall|i: int| 0 <= i < ts.len() implies (#[trigger] ts[i]).len() == pow2(n) by {
        if i >= m {
            assert(sparse[(i - m) / 2].vars() == n);
        } else {
            assert(us[i].len() == pow2(n));
        }
    }
    assert forall|k: int, j: int| 0 <= k < terms.len() && 0 <= j < terms[k].factors.len() implies 0
        <= #[trigger] terms[k].factors[j] < ts.len() by {
        if k < small.len() {
            assert(terms[k] == small[k]);
            assert(0 <= small[k].factors[j] < us.len());
        }
    }
    assert forall|k: int| 0 <= k < terms.len() implies (#[trigger] terms[k]).factors.len()
        <= max_degree by {
        if k < small.len() {
            assert(poly.products@[k].1@.len() <= poly.aux_info.max_degree);
        }
    }
    assert forall|k: int| 0 <= k < small.len() implies same_term(
        ts,
        #[trigger] terms[k],
        us,
        small[k],
    ) by {
        assert forall|i: int| 0 <= i < terms[k].factors.len() implies 0
            <= #[trigger] terms[k].factors[i] < ts.len() && 0 <= small[k].factors[i] < us.len()
            && ts[terms[k].factors[i]] == us[small[k].factors[i]] by {
            assert(0 <= small[k].factors[i] < us.len());
        }
    }
    assert forall|k: int| 0 <= k < sparse.len() implies same_term(
        ts,
        terms[small.len() + k],
        (#[trigger] sparse[k]).tables(),
        pair_term(sparse[k]),
    ) by {
        let a = terms[small.len() + k];
        assert((2 * k) / 2 == k && (2 * k) % 2 == 0);
        assert((2 * k + 1) / 2 == k && (2 * k + 1) % 2 == 1);
        assert(ts[m + 2 * k] == sparse[k].tables()[0]);
        assert(ts[m + 2 * k + 1] == sparse[k].tables()[1]);
        assert forall|i: int| 0 <= i < a.factors.len() implies 0 <= #[trigger] a.factors[i]
            < ts.len() && 0 <= pair_term(sparse[k]).factors[i] < sparse[k].tables().len()
            && ts[a.factors[i]] == sparse[k].tables()[pair_term(sparse[k]).factors[i]] by {
            assert(i == 0 || i == 1);
        }
    }
}

/// Terms with the same factors sum to the same.
proof fn lemma_same_sum(ts: Seq<Seq<int>>, a: Term, us: Seq<Seq<int>>, b: Term, size: int)
    requires
        same_term(ts, a, us, b),
    ensures
        product_sum(ts, a.factors, size) == product_sum(us, b.factors, size),
{
    let f = |y: int| product_at(ts, a.factors, y);
    let g = |y: int| product_at(us, b.factors, y);
    assert forall|y: int| 0 <= y < size implies #[trigger] f(y) == g(y) by {
        let s = |k: int| ts[a.factors[k]][y];
        let t = |k: int| us[b.factors[k]][y];
        assert forall|k: int| 0 <= k < a.factors.len() implies #[trigger] s(k) == t(k) by {
            assert(0 <= a.factors[k] < ts.len());
        }
        lemma_product_ext(s, t, 0, a.factors.len() as int);
    }
    lemma_sum_ext(f, g, 0, size);
}

/// A sum of joined terms is the sum of its two parts.
proof fn lemma_joined_sum(
    ts: Seq<Seq<int>>,
    terms: Seq<Term>,
    us: Seq<Seq<int>>,
    small: Seq<Term>,
    parts: Seq<Seq<Seq<int>>>,
    pairs: Seq<Term>,
    size: int,
)
    requires
        parts.len() == pairs.len(),
        terms.len() == small.len() + pairs.len(),
        forall|k: int| 0 <= k < small.len() ==> same_term(ts, #[trigger] terms[k], us, small[k]),
        forall|k: int|
            0 <= k < pairs.len() ==> same_term(
                ts,
                terms[small.len() + k],
                parts[k],
                #[trigger] pairs[k],
            ),
    ensures
        cube_sum(ts, terms, size) == cube_sum(us, small, size) + sum(
            |k: int| pairs[k].coeff * product_sum(parts[k], pairs[k].factors, size),
            0,
            pairs.len() as int,
        ),
{
    let m = small.len() as int;
    let f = |k: int| terms[k].coeff * product_sum(ts, terms[k].factors, size);
    let g = |k: int| small[k].coeff * product_sum(us, small[k].factors, size);
    let h = |k: int| pairs[k].coeff * product_sum(parts[k], pairs[k].factors, size);
    assert forall|k: int| 0 <= k < m implies #[trigger] f(k) == g(k) by {
        assert(same_term(ts, terms[k], us, small[k]));
        lemma_same_sum(ts, terms[k], us, small[k], size);
    }
    lemma_sum_ext(f, g, 0, m);
    lemma_sum_split(f, 0, m, terms.len() as int);
    let shifted = |k: int| f(m + k);
    lemma_sum_shift(f, m, pairs.len() as int);
    assert forall|k: int| 0 <= k < pairs.len() implies #[trigger] shifted(k) == h(k) by {
        assert(same_term(ts, terms[small.len() + k], parts[k], pairs[k]));
        lemma_same_sum(ts, terms[small.len() + k], parts[k], pairs[k], size);
    }
    lemma_sum_ext(shifted, h, 0, pairs.len() as int);
}

/// Fixing first variables keeps the factors of two terms the same.
proof fn lemma_same_fixed(ts: Seq<Seq<int>>, a: Term, us: Seq<Seq<int>>, b: Term, c: Seq<int>)
    requires
        same_term(ts, a, us, b),
    ensures
        same_term(fix_all(ts, c), a, fix_all(us, c), b),
{
    let (v, w) = (fix_all(ts, c), fix_all(us, c));
    assert forall|i: int| 0 <= i < a.factors.len() implies 0 <= #[trigger] a.factors[i] < v.len()
        && 0 <= b.factors[i] < w.len() && v[a.factors[i]] == w[b.factors[i]] by {
        assert(0 <= a.factors[i] < ts.len());
    }
}

/// A sum of a virtual polynomial and sparse products, with the first variables
/// fixed to `c`.
proof fn lemma_joined_fixed<F: PrimeField>(
    poly: VirtualPolynomial<F>,
    sparse: Seq<SparseSupportProduct<F>>,
    c: Seq<int>,
    size: int,
)
    requires
        poly.wf(),
        all_in(sparse, poly.aux_info.num_variables as nat),
    ensures
        cube_sum(
            fix_all(joined_tables(poly, sparse), c),
            joined_terms(poly, sparse),
            size,
        ) == cube_sum(fix_all(poly.tables(), c), poly.terms(), size) + sum(
            |k: int|
                sparse[k].coeff() * product_sum(
                    fix_all(sparse[k].tables(), c),
                    counting(2),
                    size,
                ),
            0,
            sparse.len() as int,
        ),
{
    let (ts, terms) = (joined_tables(poly, sparse), joined_terms(poly, sparse));
    let (us, small) = (poly.tables(), poly.terms());
    let d = if poly.aux_info.max_degree >= 2 {
        poly.aux_info.max_degree as int
    } else {
        2
    };
    lemma_joined(poly, sparse, d);
    let parts = Seq::new(sparse.len(), |k: int| fix_all(sparse[k].tables(), c));
    let pairs = Seq::new(sparse.len(), |k: int| pair_term(sparse[k]));
    let (v, w) = (fix_all(ts, c), fix_all(us, c));
    assert forall|k: int| 0 <= k < small.len() implies same_term(
        v,
        #[trigger] terms[k],
        w,
        small[k],
    ) by {
        lemma_same_fixed(ts, terms[k], us, small[k], c);
    }
    assert forall|k: int| 0 <= k < pairs.len() implies same_term(
        v,
        terms[small.len() + k],
        parts[k],
        #[trigger] pairs[k],
    ) by {
        assert(same_term(ts, terms[small.len() + k], sparse[k].tables(), pair_term(sparse[k])));
        lemma_same_fixed(ts, terms[small.len() + k], sparse[k].tables(), pair_term(sparse[k]), c);
    }
    lemma_joined_sum(v, terms, w, small, parts, pairs, size);
    let f = |k: int| pairs[k].coeff * product_sum(parts[k], pairs[k].factors, size);
    let g = |k: int|
        sparse[k].coeff() * product_sum(fix_all(sparse[k].tables(), c), counting(2), size);
    lemma_sum_ext(f, g, 0, sparse.len() as int);
}

/// The value at a point of a virtual polynomial and sparse products.
proof fn lemma_joined_value<F: PrimeField>(
    poly: VirtualPolynomial<F>,
    sparse: Seq<SparseSupportProduct<F>>,
    point: Seq<int>,
)
    requires
        poly.wf(),
        all_in(sparse, poly.aux_info.num_variables as nat),
    ensures
        terms_value(joined_tables(poly, sparse), joined_terms(poly, sparse), point)
            == terms_value(poly.tables(), poly.terms(), point) + sparse_value(sparse, point),
{
    lemma_joined_fixed(poly, sparse, point, 1);
    let f = |k: int|
        sparse[k].coeff() * product_sum(fix_all(sparse[k].tables(), point), counting(2), 1);
    let g = |k: int|
        sparse[k].coeff() * (mle(sparse[k].left_table(), point) * mle(
            sparse[k].right_table(),
            point,
        ));
    assert forall|k: int| 0 <= k < sparse.len() implies #[trigger] f(k) == g(k) by {
        let us = fix_all(sparse[k].tables(), point);
        let at = |x: int| product_at(us, counting(2), x);
        assert(sum(at, 0, 1) == sum(at, 0, 0) + at(0));
        lemma_product_at_two(us, counting(2), 0);
    }
    lemma_sum_ext(f, g, 0, sparse.len() as int);
}

/// The sum over the hypercube of a virtual polynomial and sparse products.
proof fn lemma_joined_total<F: PrimeField>(
    poly: VirtualPolynomial<F>,
    sparse: Seq<SparseSupportProduct<F>>,
)
    requires
        poly.wf(),
        all_in(sparse, poly.aux_info.num_variables as nat),
    ensures
        cube_sum(
            joined_tables(poly, sparse),
            joined_terms(poly, sparse),
            pow2(poly.aux_info.num_variables as nat) as int,
        ) == cube_sum(
            poly.tables(),
            poly.terms(),
            pow2(poly.aux_info.num_variables as nat) as int,
        ) + sparse_total(sparse, poly.aux_info.num_variables as nat),
{
    let n = poly.aux_info.num_variables as nat;
    let size = pow2(n) as int;
    let none = Seq::<int>::empty();
    lemma_fix_all_empty(joined_tables(poly, sparse));
    lemma_fix_all_empty(poly.tables());
    lemma_joined_fixed(poly, sparse, none, size);
    let f = |k: int|
        sparse[k].coeff() * product_sum(fix_all(sparse[k].tables(), none), counting(2), size);
    let g = |k: int|
        sparse[k].coeff() * pair_sum(sparse[k].left_table(), sparse[k].right_table(), size);
    assert forall|k: int| 0 <= k < sparse.len() implies #[trigger] f(k) == g(k) by {
        lemma_fix_all_empty(sparse[k].tables());
        lemma_product_sum_two(sparse[k].tables(), counting(2), size);
    }
    lemma_sum_ext(f, g, 0, sparse.len() as int);
}

/// A round of a virtual polynomial and sparse products.
proof fn lemma_joined_round<F: PrimeField>(
    poly: VirtualPolynomial<F>,
    sparse: Seq<SparseSupportProduct<F>>,
    challenges: Seq<int>,
    half: int,
    x: int,
)
    requires
        poly.wf(),
        all_in(sparse, poly.aux_info.num_variables as nat),
    ensures
        round_value(
            fix_all(joined_tables(poly, sparse), challenges),
            joined_terms(poly, sparse),
            half,
            x,
        ) == round_value(fix_all(poly.tables(), challenges), poly.terms(), half, x)
            + sparse_shares(sparse, challenges, half, x, sparse.len() as int),
{
    let next = challenges.push(x);
    lemma_fix_all_push(joined_tables(poly, sparse), challenges, x);
    lemma_fix_all_push(poly.tables(), challenges, x);
    lemma_joined_fixed(poly, sparse, next, half);
    let f = |k: int|
        sparse[k].coeff() * product_sum(fix_all(sparse[k].tables(), next), counting(2), half);
    let g = |k: int| sparse_share(sparse[k], challenges, half, x);
    assert forall|k: int| 0 <= k < sparse.len() implies #[trigger] f(k) == g(k) by {
        lemma_fix_all_push(sparse[k].tables(), challenges, x);
    }
    lemma_sum_ext(f, g, 0, sparse.len() as int);
}

/// The proof convinces of the sum over the hypercube of `poly` and of the sparse
/// products, with their value at the point at its end.
pub open spec fn shows_mixed_sum<F: PrimeField>(
    proof: IOPProof<F>,
    poly: VirtualPolynomial<F>,
    sparse: Seq<SparseSupportProduct<F>>,
) -> bool {
    convinces(
        proof,
        cube_sum(
            poly.tables(),
            poly.terms(),
            pow2(poly.aux_info.num_variables as nat) as int,
        ) + sparse_total(sparse, poly.aux_info.num_variables as nat),
        if poly.aux_info.max_degree > 2 {
            poly.aux_info.max_degree as int
        } else {
            2
        },
        poly.aux_info.num_variables as nat,
        mixed_value(poly, sparse, vals(proof.point@)),
    )
}

/// A proof about a virtual polynomial and sparse products convinces, whatever
/// the degree: each message holds one value more than the larger of the
/// polynomial's degree and 2; the first shows the whole sum over the hypercube;
/// each leads to the next, and the last to the whole value at the point.
pub proof fn lemma_mixed_proof_convinces<F: PrimeField>(
    proof: IOPProof<F>,
    poly: VirtualPolynomial<F>,
    sparse: Seq<SparseSupportProduct<F>>,
)
    requires
        poly.wf(),
        poly.aux_info.num_variables > 0,
        all_in(sparse, poly.aux_info.num_variables as nat),
        is_mixed_proof(proof, poly, sparse),
    ensures
        shows_mixed_sum(proof, poly, sparse),
        forall|i: int, k: int|
            0 <= i < proof.proofs@.len() && 0 <= k < poly.products@.len() ==> (
            #[trigger] proof.proofs@[i]).evaluations@.len() > (
            #[trigger] poly.products@[k]).1@.len(),
{
    F::lemma_modulus();
    let p = F::modulus();
    let n = poly.aux_info.num_variables as nat;
    let d = if poly.aux_info.max_degree > 2 {
        poly.aux_info.max_degree as int
    } else {
        2
    };
    let (ts, terms) = (joined_tables(poly, sparse), joined_terms(poly, sparse));
    lemma_joined(poly, sparse, d);
    lemma_joined_total(poly, sparse);
    lemma_joined_value(poly, sparse, vals(proof.point@));
    assert forall|i: int| 0 <= i < n implies is_message(
        #[trigger] proof.proofs@[i],
        ts,
        terms,
        n,
        d,
        vals(proof.point@).take(i),
    ) by {
        let challenges = vals(proof.point@).take(i);
        let half = pow2((n - 1 - i) as nat) as int;
        assert(is_mixed_message(proof.proofs@[i], poly, sparse, challenges));
        assert forall|j: int| 0 <= j <= d implies (
        #[trigger] proof.proofs@[i].evaluations@[j]).val() == round_value(
            fix_all(ts, challenges),
            terms,
            half,
            j,
        ) % p by {
            lemma_joined_round(poly, sparse, challenges, half, j);
        }
    }
    assert(is_proof(proof, ts, terms, n, d));
    lemma_proof_convinces(proof, ts, terms, n, d);
}

/// The message holds the values of the mixed round that follows `challenges`:
/// value `j` is the sum, over the vertices that are left, of the polynomial and
/// of the sparse products at the challenges, `j` and the vertex.
pub open spec fn holds_mixed_round<F: PrimeField>(
    message: IOPProverMessage<F>,
    poly: VirtualPolynomial<F>,
    sparse: Seq<SparseSupportProduct<F>>,
    challenges: Seq<int>,
) -> bool {
    &&& message.evaluations@.len() > 2
    &&& message.evaluations@.len() > poly.aux_info.max_degree
    &&& forall|j: int|
        0 <= j < message.evaluations@.len() ==> eqm(
            F::modulus(),
            (#[trigger] message.evaluations@[j]).val(),
            sum(
                |x: int|
                    mixed_value(
                        poly,
                        sparse,
                        challenges.push(j) + bits(
                            x,
                            (poly.aux_info.num_variables - 1 - challenges.len()) as nat,
                        ),
                    ),
                0,
                pow2((poly.aux_info.num_variables - 1 - challenges.len()) as nat) as int,
            ),
        )
}

/// The value at `point` of a virtual polynomial and sparse products.
pub open spec fn mixed_value<F: PrimeField>(
    poly: VirtualPolynomial<F>,
    sparse: Seq<SparseSupportProduct<F>>,
    point: Seq<int>,
) -> int {
    terms_value(poly.tables(), poly.terms(), point) + sparse_value(sparse, point)
}

/// A message of the mixed prover holds the values of its round.
pub proof fn lemma_mixed_message_holds_round<F: PrimeField>(
    message: IOPProverMessage<F>,
    poly: VirtualPolynomial<F>,
    sparse: Seq<SparseSupportProduct<F>>,
    challenges: Seq<int>,
)
    requires
        poly.wf(),
        all_in(sparse, poly.aux_info.num_variables as nat),
        challenges.len() < poly.aux_info.num_variables,
        is_mixed_message(message, poly, sparse, challenges),
    ensures
        holds_mixed_round(message, poly, sparse, challenges),
{
    F::lemma_modulus();
    let p = F::modulus();
    let n = poly.aux_info.num_variables as nat;
    let rest = (n - 1 - challenges.len()) as nat;
    let half = pow2(rest) as int;
    let d = if poly.aux_info.max_degree > 2 {
        poly.aux_info.max_degree as int
    } else {
        2
    };
    let (ts, terms) = (joined_tables(poly, sparse), joined_terms(poly, sparse));
    lemma_joined(poly, sparse, d);
    assert forall|j: int| 0 <= j < message.evaluations@.len() implies eqm(
        p,
        (#[trigger] message.evaluations@[j]).val(),
        sum(|x: int| mixed_value(poly, sparse, challenges.push(j) + bits(x, rest)), 0, half),
    ) by {
        lemma_joined_round(poly, sparse, challenges, half, j);
        lemma_fix_all_push(ts, challenges, j);
        lemma_sum_of_values(ts, terms, n, challenges.push(j));
        let f = |x: int| terms_value(ts, terms, challenges.push(j) + bits(x, rest));
        let g = |x: int| mixed_value(poly, sparse, challenges.push(j) + bits(x, rest));
        assert forall|x: int| 0 <= x < half implies #[trigger] f(x) == g(x) by {
            lemma_joined_value(poly, sparse, challenges.push(j) + bits(x, rest));
        }
        lemma_sum_ext(f, g, 0, half);
        lemma_eqm_residue(p, round_value(fix_all(ts, challenges), terms, half, j));
    }
}

/// The dense prover proves every polynomial that is not a constant, under any
/// challenges, and each proof convinces.
pub proof fn lemma_proving_succeeds<F: PrimeField>(
    poly: VirtualPolynomial<F>,
    challenges: Seq<F>,
    r: Result<IOPProof<F>, PolyIOPErrors>,
)
    requires
        poly.wf(),
        is_proving_outcome(poly, challenges, r),
    ensures
        r is Ok <==> poly.aux_info.num_variables > 0,
        r matches Ok(proof) ==> {
            &&& vals(proof.point@) == vals(challenges)
            &&& proof.point@ == challenges
            &&& poly.products@.len() > 0 ==> shows_sum(proof, poly)
            &&& forall|i: int|
                0 <= i < poly.aux_info.num_variables ==> holds_round(
                    #[trigger] proof.proofs@[i],
                    poly,
                    vals(challenges).take(i),
                )
        },
{
    if r is Ok {
        let proof = r->Ok_0;
        if poly.products@.len() > 0 {
            lemma_dense_proof_convinces(proof, poly);
        }
        assert forall|i: int| 0 <= i < poly.aux_info.num_variables implies holds_round(
            #[trigger] proof.proofs@[i],
            poly,
            vals(challenges).take(i),
        ) by {
            assert(is_dense_message(proof.proofs@[i], poly, vals(proof.point@).take(i)));
            lemma_dense_message_holds_round(proof.proofs@[i], poly, vals(challenges).take(i));
        }
    }
}

/// The mixed prover proves every sum of a polynomial that is not a constant and
/// of sparse products in the same variables, under any challenges, and each
/// proof convinces.
pub proof fn lemma_mixed_proving_succeeds<F: PrimeField>(
    poly: VirtualPolynomial<F>,
    sparse: Seq<SparseSupportProduct<F>>,
    challenges: Seq<F>,
    r: Result<IOPProof<F>, PolyIOPErrors>,
)
    requires
        poly.wf(),
        is_mixed_outcome(poly, sparse, challenges, r),
    ensures
        r is Ok <==> poly.aux_info.num_variables > 0 && forall|k: int|
            0 <= k < sparse.len() ==> (#[trigger] sparse[k]).vars() == poly.aux_info.num_variables,
        r matches Ok(proof) ==> {
            &&& proof.point@ == challenges
            &&& shows_mixed_sum(proof, poly, sparse)
            &&& forall|i: int|
                0 <= i < poly.aux_info.num_variables ==> holds_mixed_round(
                    #[trigger] proof.proofs@[i],
                    poly,
                    sparse,
                    vals(challenges).take(i),
                )
        },
{
    if r is Ok {
        let proof = r->Ok_0;
        lemma_mixed_proof_convinces(proof, poly, sparse);
        assert forall|i: int| 0 <= i < poly.aux_info.num_variables implies holds_mixed_round(
            #[trigger] proof.proofs@[i],
            poly,
            sparse,
            vals(challenges).take(i),
        ) by {
            assert(is_mixed_message(proof.proofs@[i], poly, sparse, vals(proof.point@).take(i)));
            lemma_mixed_message_holds_round(
                proof.proofs@[i],
                poly,
                sparse,
                vals(challenges).take(i),
            );
        }
    }
}

/// The next round of one sparse product, at `x`: the product's value, summed over
/// all points whose first coordinate is `x` and whose others are those of a
/// vertex. A constant is a factor that vanishes where `x` is one.
pub proof fn lemma_sparse_round_value<F: PrimeField>(s: SparseSupportProduct<F>, x: int)
    ensures
        s.vars() > 0 ==> s.round_value(x) == s.coeff() * sum(
            |b: int|
                mle(s.left_table(), seq![x] + bits(b, (s.vars() - 1) as nat)) * mle(
                    s.right_table(),
                    seq![x] + bits(b, (s.vars() - 1) as nat),
                ),
            0,
            pow2((s.vars() - 1) as nat) as int,
        ),
        s.vars() == 0 && s.wf() ==> s.round_value(x) == s.coeff() * (((1 - x) * s.left_table()[0])
            * ((1 - x) * s.right_table()[0])),
{
    let ts = fold_all(s.paired_tables(), x);
    let f = |b: int| product_at(ts, counting(2), b);
    let rows = s.row_count();
    if s.vars() > 0 {
        let rest = (s.vars() - 1) as nat;
        let (l, r) = (s.left_table(), s.right_table());
        let g = |b: int| mle(l, seq![x] + bits(b, rest)) * mle(r, seq![x] + bits(b, rest));
        lemma_pow2_halves(s.vars());
        s.lemma_paired_tables();
        assert forall|b: int| 0 <= b < rows implies #[trigger] f(b) == g(b) by {
            lemma_product_at_two(ts, counting(2), b);
            lemma_row_of_extension(l, x, b, rest);
            lemma_row_of_extension(r, x, b, rest);
        }
        lemma_sum_ext(f, g, 0, rows);
    } else if s.wf() {
        lemma2_to64();
        let (l, r) = (s.paired_tables()[0], s.paired_tables()[1]);
        lemma_product_at_two(ts, counting(2), 0);
        assert(sum(f, 0, 1) == sum(f, 0, 0) + f(0));
        lemma_value_miss(s.left(), 1);
        lemma_value_miss(s.right(), 1);
        assert(l[1] == 0 && r[1] == 0);
        assert(l[0] + x * (0 - l[0]) == (1 - x) * l[0]) by (nonlinear_arith);
        assert(r[0] + x * (0 - r[0]) == (1 - x) * r[0]) by (nonlinear_arith);
    }
}

/// A row of a table with the first variable fixed is a value of the polynomial.
proof fn lemma_row_of_extension(t: Seq<int>, x: int, b: int, rest: nat)
    requires
        t.len() == 2 * pow2(rest),
        0 <= b < pow2(rest),
    ensures
        fold(t, x)[b] == mle(t, seq![x] + bits(b, rest)),
{
    let point = seq![x] + bits(b, rest);
    lemma_fix_first(t, point);
    assert(point.drop_first() =~= bits(b, rest));
    lemma_vertex_value(fold(t, x), b, rest);
}

} // verus!
