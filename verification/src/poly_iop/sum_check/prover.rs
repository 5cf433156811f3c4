//! Prover subroutines for a sum-check protocol.

use crate::arithmetic::dense::{
    lemma_power_below_word, power_of_two, repeated, DenseMultilinearExtension,
};
use crate::arithmetic::virtual_polynomial::{indices, terms_of, VirtualPolynomial};
use crate::errors::PolyIOPErrors;
use crate::field::{vals, PrimeField};
use crate::math::interpolation::{
    are_weights, barycentric, barycentric_coeff, barycentric_total, degree_below, distinct_points,
    inverses_taken, invertible, lemma_counting_distinct, lemma_degree_scale, lemma_distance_nonzero,
    lemma_extrapolation, product_but, product_but_below,
};
use crate::math::modular::{
    eqm, inverse_mod, is_inverse, lemma_eqm_add, lemma_eqm_mul, lemma_eqm_residue, residues,
};
use crate::math::multilinear::{fold, lemma_pow2_halves};
use crate::math::sums::{counting, lemma_product_eqm, product, smaller, sum};
use crate::math::terms::{
    all_sized, bound_tables, cube_sum_below, fold_all, lemma_picked_product_sum,
    lemma_product_at_one, lemma_product_at_two, lemma_product_sum_degree, product_at, product_sum,
    round_value,
};
use crate::poly_iop::structs::{
    extrapolates, interpolates, is_round, IOPProverMessage, IOPProverState,
};
use std::sync::Arc;
use vstd::arithmetic::div_mod::{lemma_mod_twice, lemma_small_mod};
use vstd::arithmetic::power2::pow2;
use vstd::prelude::*;

verus! {

/// The tables of a list of slices.
pub open spec fn slice_tables<F: PrimeField>(s: Seq<&[F]>) -> Seq<Seq<int>> {
    Seq::new(s.len(), |k: int| vals(s[k]@))
}

/// Fixes the first variable of a polynomial to `challenge`; a constant stays.
pub fn bind_first_variable_in_place<F: PrimeField>(
    mle: &mut DenseMultilinearExtension<F>,
    challenge: F,
)
    requires
        old(mle).wf(),
    ensures
        final(mle).wf(),
        old(mle).num_vars == 0 ==> *final(mle) == *old(mle),
        old(mle).num_vars > 0 ==> {
            &&& final(mle).num_vars == old(mle).num_vars - 1
            &&& final(mle).table() == residues(
                F::modulus(),
                fold(old(mle).table(), challenge.val()),
            )
        },
{
    if mle.num_vars == 0 {
        return ;
    }
    let ghost p = F::modulus();
    let ghost r = challenge.val();
    let ghost t = mle.table();
    let ghost n = mle.num_vars as nat;
    proof {
        F::lemma_modulus();
        F::lemma_val();
        lemma_pow2_halves(n);
    }
    let table_len = mle.evaluations.len();
    let next_len = power_of_two(mle.num_vars - 1);
    let mut b: usize = 0;
    while b < next_len
        invariant
            0 <= b <= next_len,
            p == F::modulus(),
            p > u64::MAX,
            r == challenge.val(),
            mle.num_vars == n,
            n > 0,
            next_len == pow2((n - 1) as nat),
            mle.evaluations@.len() == table_len,
            table_len == 2 * next_len,
            t.len() == 2 * next_len,
            forall|i: int| 0 <= i < b ==> (#[trigger] mle.evaluations@[i]).val() == fold(t, r)[i] % p,
            forall|i: int| b <= i < 2 * next_len ==> (#[trigger] mle.evaluations@[i]).val() == t[i],
        decreases next_len - b,
    {
        let left = mle.evaluations[2 * b];
        let right = mle.evaluations[2 * b + 1];
        let value = left.add(challenge.mul(right.sub(left)));
        proof {
            let (l, h) = (t[2 * b], t[2 * b + 1]);
            broadcast use lemma_mod_twice;

            lemma_eqm_mul(p, r, r, (h - l) % p, h - l);
            lemma_eqm_add(p, l, l, (r * ((h - l) % p)) % p, r * (h - l));
        }
        mle.evaluations[b] = value;
        b = b + 1;
    }
    mle.evaluations.truncate(next_len);
    mle.num_vars = mle.num_vars - 1;
    assert(mle.table() =~= residues(p, fold(t, r)));
}

/// Sums a polynomial's values over the rows: with the first variable at 0 and
/// at 1.
pub fn scan_single_multiplicand<F: PrimeField>(table: &[F], remaining_rows: usize) -> (r: [F; 2])
    requires
        2 * remaining_rows <= table@.len(),
    ensures
        forall|j: int|
            0 <= j < 2 ==> (#[trigger] r@[j]).val() == product_sum(
                fold_all(seq![vals(table@)], j),
                counting(1),
                remaining_rows as int,
            ) % F::modulus(),
{
    let ghost p = F::modulus();
    let ghost ts = seq![vals(table@)];
    let ghost places = counting(1);
    proof {
        F::lemma_modulus();
        F::lemma_val();
    }
    let table_len = table.len();
    let mut acc_0 = F::zero();
    let mut acc_1 = F::zero();
    let mut b: usize = 0;
    while b < remaining_rows
        invariant
            0 <= b <= remaining_rows,
            2 * remaining_rows <= table_len,
            table_len == table@.len(),
            p == F::modulus(),
            p > u64::MAX,
            ts == seq![vals(table@)],
            places == counting(1),
            eqm(p, acc_0.val(), product_sum(fold_all(ts, 0), places, b as int)),
            eqm(p, acc_1.val(), product_sum(fold_all(ts, 1), places, b as int)),
        decreases remaining_rows - b,
    {
        let idx = 2 * b;
        let ghost (a0, a1) = (acc_0.val(), acc_1.val());
        acc_0 = acc_0.add(table[idx]);
        acc_1 = acc_1.add(table[idx + 1]);
        proof {
            broadcast use lemma_mod_twice;

            let x = b as int;
            lemma_product_at_one(fold_all(ts, 0), places, x);
            lemma_product_at_one(fold_all(ts, 1), places, x);
            let (l, h) = (table@[idx as int].val(), table@[idx + 1].val());
            lemma_eqm_add(p, a0, product_sum(fold_all(ts, 0), places, x), l, l);
            lemma_eqm_add(p, a1, product_sum(fold_all(ts, 1), places, x), h, h);
            assert(fold_all(ts, 0)[0][x] == l);
            assert(fold_all(ts, 1)[0][x] == h);
        }
        b = b + 1;
    }
    proof {
        lemma_small_mod(acc_0.val() as nat, p as nat);
        lemma_small_mod(acc_1.val() as nat, p as nat);
    }
    [acc_0, acc_1]
}

/// Sums the product of two polynomials' values over the rows: with the first
/// variable at 0, at 1 and at 2.
pub fn scan_pair_multiplicands<F: PrimeField>(
    left_table: &[F],
    right_table: &[F],
    remaining_rows: usize,
) -> (r: [F; 3])
    requires
        2 * remaining_rows <= left_table@.len(),
        2 * remaining_rows <= right_table@.len(),
    ensures
        forall|j: int|
            0 <= j < 3 ==> (#[trigger] r@[j]).val() == product_sum(
                fold_all(seq![vals(left_table@), vals(right_table@)], j),
                counting(2),
                remaining_rows as int,
            ) % F::modulus(),
{
    let ghost p = F::modulus();
    let ghost ts = seq![vals(left_table@), vals(right_table@)];
    let ghost places = counting(2);
    proof {
        F::lemma_modulus();
        F::lemma_val();
    }
    let table_len = left_table.len();
    let mut acc_0 = F::zero();
    let mut acc_1 = F::zero();
    let mut acc_2 = F::zero();
    let mut b: usize = 0;
    while b < remaining_rows
        invariant
            0 <= b <= remaining_rows,
            2 * remaining_rows <= table_len,
            table_len == left_table@.len(),
            2 * remaining_rows <= right_table@.len(),
            p == F::modulus(),
            p > u64::MAX,
            ts == seq![vals(left_table@), vals(right_table@)],
            places == counting(2),
            eqm(p, acc_0.val(), product_sum(fold_all(ts, 0), places, b as int)),
            eqm(p, acc_1.val(), product_sum(fold_all(ts, 1), places, b as int)),
            eqm(p, acc_2.val(), product_sum(fold_all(ts, 2), places, b as int)),
        decreases remaining_rows - b,
    {
        let idx = 2 * b;
        let left_0 = left_table[idx];
        let left_1 = left_table[idx + 1];
        let left_step = left_1.sub(left_0);
        let right_0 = right_table[idx];
        let right_1 = right_table[idx + 1];
        let right_step = right_1.sub(right_0);
        let ghost (a0, a1, a2) = (acc_0.val(), acc_1.val(), acc_2.val());
        acc_0 = acc_0.add(left_0.mul(right_0));
        acc_1 = acc_1.add(left_1.mul(right_1));
        acc_2 = acc_2.add(left_1.add(left_step).mul(right_1.add(right_step)));
        proof {
            broadcast use lemma_mod_twice;

            let x = b as int;
            lemma_product_at_two(fold_all(ts, 0), places, x);
            lemma_product_at_two(fold_all(ts, 1), places, x);
            lemma_product_at_two(fold_all(ts, 2), places, x);
            let (l0, l1) = (left_0.val(), left_1.val());
            let (r0, r1) = (right_0.val(), right_1.val());
            assert(fold_all(ts, 0)[0][x] == l0 && fold_all(ts, 0)[1][x] == r0);
            assert(fold_all(ts, 1)[0][x] == l1 && fold_all(ts, 1)[1][x] == r1);
            let (l2, r2) = (l1 + (l1 - l0), r1 + (r1 - r0));
            assert(fold_all(ts, 2)[0][x] == l2 && fold_all(ts, 2)[1][x] == r2);
            lemma_eqm_add(p, a0, product_sum(fold_all(ts, 0), places, x), (l0 * r0) % p, l0 * r0);
            lemma_eqm_add(p, a1, product_sum(fold_all(ts, 1), places, x), (l1 * r1) % p, l1 * r1);
            lemma_eqm_add(p, l1, l1, (l1 - l0) % p, l1 - l0);
            lemma_eqm_add(p, r1, r1, (r1 - r0) % p, r1 - r0);
            let (le, re) = ((l1 + (l1 - l0) % p) % p, (r1 + (r1 - r0) % p) % p);
            lemma_eqm_mul(p, le, l2, re, r2);
            lemma_eqm_add(p, a2, product_sum(fold_all(ts, 2), places, x), (le * re) % p, l2 * r2);
        }
        b = b + 1;
    }
    proof {
        lemma_small_mod(acc_0.val() as nat, p as nat);
        lemma_small_mod(acc_1.val() as nat, p as nat);
        lemma_small_mod(acc_2.val() as nat, p as nat);
    }
    [acc_0, acc_1, acc_2]
}

/// The product of a list of elements.
pub fn product_of<F: PrimeField>(elements: &[F]) -> (r: F)
    ensures
        r.val() == product(|k: int| elements@[k].val(), 0, elements@.len() as int) % F::modulus(),
{
    let ghost p = F::modulus();
    let ghost f = |k: int| elements@[k].val();
    proof {
        F::lemma_modulus();
        F::lemma_val();
    }
    let mut acc = F::one();
    let mut i: usize = 0;
    while i < elements.len()
        invariant
            0 <= i <= elements@.len(),
            p == F::modulus(),
            p > u64::MAX,
            f == (|k: int| elements@[k].val()),
            eqm(p, acc.val(), product(f, 0, i as int)),
        decreases elements.len() - i,
    {
        let ghost a = acc.val();
        acc = acc.mul(elements[i]);
        proof {
            broadcast use lemma_mod_twice;

            let e = elements@[i as int].val();
            lemma_eqm_mul(p, a, product(f, 0, i as int), e, e);
            assert(f(i as int) == e);
        }
        i = i + 1;
    }
    proof {
        lemma_small_mod(acc.val() as nat, p as nat);
    }
    acc
}

/// Sums the product of any number of polynomials' values over the rows: with
/// the first variable at 0, 1, ..., up to the number of polynomials.
pub fn scan_product_generic<F: PrimeField>(
    product_tables: &[&[F]],
    remaining_rows: usize,
) -> (r: Vec<F>)
    requires
        product_tables@.len() < usize::MAX,
        forall|k: int|
            0 <= k < product_tables@.len() ==> 2 * remaining_rows <= (
            #[trigger] product_tables@[k])@.len(),
    ensures
        r@.len() == product_tables@.len() + 1,
        forall|j: int|
            0 <= j < r@.len() ==> (#[trigger] r@[j]).val() == product_sum(
                fold_all(slice_tables(product_tables@), j),
                counting(product_tables@.len() as int),
                remaining_rows as int,
            ) % F::modulus(),
{
    let ghost p = F::modulus();
    let ghost ts = slice_tables(product_tables@);
    let m = product_tables.len();
    let ghost places = counting(m as int);
    proof {
        F::lemma_modulus();
        F::lemma_val();
    }
    let mut sums = repeated(F::zero(), m + 1);
    let mut b: usize = 0;
    while b < remaining_rows
        invariant
            0 <= b <= remaining_rows,
            m == product_tables@.len(),
            m < usize::MAX,
            forall|k: int|
                0 <= k < m ==> 2 * remaining_rows <= (#[trigger] product_tables@[k])@.len(),
            p == F::modulus(),
            p > u64::MAX,
            ts == slice_tables(product_tables@),
            places == counting(m as int),
            sums@.len() == m + 1,
            forall|j: int|
                0 <= j <= m ==> eqm(
                    p,
                    (#[trigger] sums@[j]).val(),
                    product_sum(fold_all(ts, j), places, b as int),
                ),
        decreases remaining_rows - b,
    {
        let mut evals: Vec<F> = Vec::with_capacity(m);
        let mut steps: Vec<F> = Vec::with_capacity(m);
        let mut k: usize = 0;
        while k < m
            invariant
                0 <= k <= m,
                m == product_tables@.len(),
                b < remaining_rows,
                forall|i: int|
                    0 <= i < m ==> 2 * remaining_rows <= (#[trigger] product_tables@[i])@.len(),
                p == F::modulus(),
                p > u64::MAX,
                ts == slice_tables(product_tables@),
                evals@.len() == k,
                steps@.len() == k,
                forall|i: int|
                    0 <= i < k ==> eqm(p, (#[trigger] evals@[i]).val(), fold(ts[i], 0)[b as int]),
                forall|i: int|
                    0 <= i < k ==> eqm(
                        p,
                        (#[trigger] steps@[i]).val(),
                        ts[i][2 * b + 1] - ts[i][2 * b],
                    ),
            decreases m - k,
        {
            let table = product_tables[k];
            let table_len = table.len();
            assert(2 * remaining_rows <= product_tables@[k as int]@.len());
            assert(2 * b + 1 < table_len);
            let left = table[2 * b];
            let right = table[2 * b + 1];
            evals.push(left);
            steps.push(right.sub(left));
            proof {
                broadcast use lemma_mod_twice;

                assert(ts[k as int][2 * b] == left.val());
                assert(ts[k as int][2 * b + 1] == right.val());
            }
            k = k + 1;
        }
        let mut slot: usize = 0;
        let ghost start = sums@;
        while slot <= m
            invariant
                0 <= slot <= m + 1,
                m == product_tables@.len(),
                m < usize::MAX,
                b < remaining_rows,
                forall|i: int|
                    0 <= i < m ==> 2 * remaining_rows <= (#[trigger] product_tables@[i])@.len(),
                p == F::modulus(),
                p > u64::MAX,
                ts == slice_tables(product_tables@),
                places == counting(m as int),
                evals@.len() == m,
                steps@.len() == m,
                sums@.len() == m + 1,
                start.len() == m + 1,
                forall|i: int|
                    0 <= i < m && slot <= m ==> eqm(
                        p,
                        (#[trigger] evals@[i]).val(),
                        fold(ts[i], slot as int)[b as int],
                    ),
                forall|i: int|
                    0 <= i < m ==> eqm(
                        p,
                        (#[trigger] steps@[i]).val(),
                        ts[i][2 * b + 1] - ts[i][2 * b],
                    ),
                forall|j: int|
                    0 <= j <= m ==> eqm(
                        p,
                        (#[trigger] start[j]).val(),
                        product_sum(fold_all(ts, j), places, b as int),
                    ),
                forall|j: int| slot <= j <= m ==> #[trigger] sums@[j] == start[j],
                forall|j: int|
                    0 <= j < slot ==> eqm(
                        p,
                        (#[trigger] sums@[j]).val(),
                        product_sum(fold_all(ts, j), places, b + 1),
                    ),
            decreases m + 1 - slot,
        {
            let row = product_of(evals.as_slice());
            let value = sums[slot].add(row);
            proof {
                broadcast use lemma_mod_twice;

                let us = fold_all(ts, slot as int);
                let f = |k: int| evals@[k].val();
                let g = |k: int| us[places[k]][b as int];
                assert forall|k: int| 0 <= k < m implies eqm(p, #[trigger] f(k), g(k)) by {
                    assert(eqm(p, evals@[k].val(), fold(ts[k], slot as int)[b as int]));
                }
                lemma_product_eqm(p, f, g, 0, m as int);
                let s = product_sum(us, places, b as int);
                assert(eqm(p, start[slot as int].val(), s));
                lemma_eqm_add(
                    p,
                    sums@[slot as int].val(),
                    s,
                    row.val(),
                    product_at(us, places, b as int),
                );
            }
            sums[slot] = value;
            if slot < m {
                let ghost before = evals@;
                let mut k: usize = 0;
                while k < m
                    invariant
                        0 <= k <= m,
                        slot < m,
                        m == product_tables@.len(),
                        b < remaining_rows,
                        forall|i: int|
                            0 <= i < m ==> 2 * remaining_rows <= (
                            #[trigger] product_tables@[i])@.len(),
                        p == F::modulus(),
                        p > u64::MAX,
                        ts == slice_tables(product_tables@),
                        evals@.len() == m,
                        steps@.len() == m,
                        before.len() == m,
                        forall|i: int| k <= i < m ==> #[trigger] evals@[i] == before[i],
                        forall|i: int|
                            0 <= i < m ==> eqm(
                                p,
                                (#[trigger] before[i]).val(),
                                fold(ts[i], slot as int)[b as int],
                            ),
                        forall|i: int|
                            0 <= i < m ==> eqm(
                                p,
                                (#[trigger] steps@[i]).val(),
                                ts[i][2 * b + 1] - ts[i][2 * b],
                            ),
                        forall|i: int|
                            0 <= i < k ==> eqm(
                                p,
                                (#[trigger] evals@[i]).val(),
                                fold(ts[i], slot + 1)[b as int],
                            ),
                    decreases m - k,
                {
                    let next = evals[k].add(steps[k]);
                    proof {
                        broadcast use lemma_mod_twice;

                        let i = k as int;
                        let (l, h) = (ts[i][2 * b], ts[i][2 * b + 1]);
                        assert(2 * remaining_rows <= product_tables@[i]@.len());
                        assert(evals@[i] == before[i]);
                        assert(eqm(p, before[i].val(), fold(ts[i], slot as int)[b as int]));
                        assert(eqm(p, steps@[i].val(), h - l));
                        lemma_eqm_add(
                            p,
                            before[i].val(),
                            fold(ts[i], slot as int)[b as int],
                            steps@[i].val(),
                            h - l,
                        );
                        assert(l + slot * (h - l) + (h - l) == l + (slot + 1) * (h - l))
                            by (nonlinear_arith);
                    }
                    evals[k] = next;
                    k = k + 1;
                }
            }
            slot = slot + 1;
        }
        b = b + 1;
    }
    proof {
        assert forall|j: int| 0 <= j < sums@.len() implies (#[trigger] sums@[j]).val()
            == product_sum(fold_all(ts, j), places, remaining_rows as int) % p by {
            assert(eqm(
                p,
                sums@[j].val(),
                product_sum(fold_all(ts, j), places, remaining_rows as int),
            ));
            lemma_small_mod(sums@[j].val() as nat, p as nat);
        }
    }
    sums
}

/// The barycentric weights of the points: each the inverse of the product of
/// the point's distances to the others, and zero where that product is zero.
pub fn barycentric_weights<F: PrimeField>(points: &[F]) -> (r: Vec<F>)
    ensures
        are_weights(F::modulus(), vals(points@), vals(r@)),
{
    let ghost p = F::modulus();
    let ghost xs = vals(points@);
    proof {
        F::lemma_modulus();
        F::lemma_val();
    }
    let n = points.len();
    let mut weights: Vec<F> = Vec::with_capacity(n);
    let mut j: usize = 0;
    while j < n
        invariant
            0 <= j <= n,
            n == points@.len(),
            p == F::modulus(),
            p > u64::MAX,
            xs == vals(points@),
            forall|x: F| 0 <= #[trigger] x.val() < p,
            weights@.len() == j,
            forall|k: int|
                0 <= k < j ==> (#[trigger] weights@[k]).val() == product_but(
                    xs,
                    k,
                    points@[k].val(),
                ) % p,
            distinct_points(p, xs) ==> forall|k: int|
                0 <= k < j ==> (#[trigger] weights@[k]).val() != 0,
        decreases n - j,
    {
        let ghost x = points@[j as int].val();
        let mut acc = F::one();
        let mut i: usize = 0;
        while i < n
            invariant
                0 <= i <= n,
                j < n,
                n == points@.len(),
                p == F::modulus(),
                p > u64::MAX,
                xs == vals(points@),
                x == points@[j as int].val(),
                eqm(p, acc.val(), product_but_below(xs, j as int, x, i as int)),
                distinct_points(p, xs) ==> acc.val() != 0,
            decreases n - i,
        {
            let ghost a = acc.val();
            let ghost below = product_but_below(xs, j as int, x, i as int);
            if i != j {
                acc = acc.mul(points[j].sub(points[i]));
                proof {
                    broadcast use lemma_mod_twice;

                    let d = x - xs[i as int];
                    lemma_eqm_mul(p, a, below, d % p, d);
                    if distinct_points(p, xs) {
                        lemma_distance_nonzero(p, xs, j as int, i as int);
                    }
                }
            } else {
                assert(below * 1 == below);
            }
            i = i + 1;
        }
        proof {
            lemma_small_mod(acc.val() as nat, p as nat);
        }
        weights.push(acc);
        j = j + 1;
    }
    let ghost products = weights@;
    F::batch_inversion(&mut weights);
    proof {
        assert forall|k: int| 0 <= k < n implies is_inverse(
            p,
            #[trigger] vals(weights@)[k],
            product_but(xs, k, xs[k]) % p,
        ) by {
            assert(weights@[k].val() == vals(weights@)[k]);
        }
        assert forall|k: int| distinct_points(p, xs) && 0 <= k < n implies #[trigger] product_but(
            xs,
            k,
            xs[k],
        ) % p != 0 by {
            assert(products[k].val() == product_but(xs, k, points@[k].val()) % p);
        }
    }
    weights
}

/// The barycentric formula at `at`, for the values `evals` at `points`. A
/// point at `at` itself, and a sum of coefficients that is zero, count as if
/// their inverse were zero.
pub fn extrapolate<F: PrimeField>(points: &[F], weights: &[F], evals: &[F], at: &F) -> (r: F)
    ensures
        r.val() == barycentric(
            F::modulus(),
            vals(points@),
            vals(weights@),
            vals(evals@),
            at.val(),
        ),
        inverses_taken(F::modulus(), vals(points@), vals(weights@), at.val()),
{
    let ghost p = F::modulus();
    let ghost (xs, ws, ys) = (vals(points@), vals(weights@), vals(evals@));
    let ghost z = at.val();
    proof {
        F::lemma_modulus();
        F::lemma_val();
    }
    let n = points.len();
    let mut coeffs: Vec<F> = Vec::with_capacity(n);
    let mut i: usize = 0;
    while i < n
        invariant
            0 <= i <= n,
            n == points@.len(),
            p == F::modulus(),
            xs == vals(points@),
            z == at.val(),
            coeffs@.len() == i,
            forall|k: int| 0 <= k < i ==> (#[trigger] coeffs@[k]).val() == (z - xs[k]) % p,
        decreases n - i,
    {
        coeffs.push((*at).sub(points[i]));
        i = i + 1;
    }
    F::batch_inversion(&mut coeffs);
    assert(forall|k: int|
        0 <= k < n ==> (#[trigger] coeffs@[k]).val() == inverse_mod(p, (z - xs[k]) % p));
    proof {
        assert forall|k: int| 0 <= k < n && (z - #[trigger] xs[k]) % p != 0 implies invertible(
            p,
            z - xs[k],
        ) by {
            let (a, b) = (z - xs[k], coeffs@[k].val());
            lemma_eqm_residue(p, a);
            lemma_eqm_mul(p, a % p, a, b, b);
            assert((a * b) % p == 1);
        }
    }
    let ghost cs = |k: int| barycentric_coeff(p, xs, ws, z, k);
    let ghost cys = |k: int| barycentric_coeff(p, xs, ws, z, k) * ys[k];
    let mut total = F::zero();
    let mut weighted = F::zero();
    let mut i: usize = 0;
    while i < n
        invariant
            0 <= i <= n,
            n == points@.len(),
            p == F::modulus(),
            p > u64::MAX,
            xs == vals(points@),
            ws == vals(weights@),
            ys == vals(evals@),
            coeffs@.len() == n,
            forall|k: int|
                0 <= k < n ==> (#[trigger] coeffs@[k]).val() == inverse_mod(p, (z - xs[k]) % p),
            cs == (|k: int| barycentric_coeff(p, xs, ws, z, k)),
            cys == (|k: int| barycentric_coeff(p, xs, ws, z, k) * ys[k]),
            eqm(p, total.val(), sum(cs, 0, i as int)),
            eqm(p, weighted.val(), sum(cys, 0, smaller(i as int, evals@.len() as int))),
        decreases n - i,
    {
        let ghost (t, w) = (total.val(), weighted.val());
        let coeff = if i < weights.len() {
            coeffs[i].mul(weights[i])
        } else {
            coeffs[i]
        };
        total = total.add(coeff);
        if i < evals.len() {
            weighted = weighted.add(coeff.mul(evals[i]));
        }
        proof {
            broadcast use lemma_mod_twice;

            let c = barycentric_coeff(p, xs, ws, z, i as int);
            let d = coeff.val();
            assert(eqm(p, d, c));
            lemma_eqm_add(p, t, sum(cs, 0, i as int), d, c);
            if i < evals@.len() {
                let y = ys[i as int];
                lemma_eqm_mul(p, d, c, y, y);
                lemma_eqm_add(p, w, sum(cys, 0, i as int), (d * y) % p, c * y);
            }
        }
        i = i + 1;
    }
    let sum_inv = match total.inverse() {
        Some(x) => x,
        None => F::zero(),
    };
    proof {
        lemma_small_mod(total.val() as nat, p as nat);
        let m = smaller(n as int, evals@.len() as int);
        lemma_eqm_mul(p, weighted.val(), sum(cys, 0, m), sum_inv.val(), sum_inv.val());
        assert(total.val() == barycentric_total(p, xs, ws, z) % p);
    }
    weighted.mul(sum_inv)
}

/// The tables of a list of polynomials.
pub open spec fn dense_tables<F: PrimeField>(
    mles: Seq<DenseMultilinearExtension<F>>,
) -> Seq<Seq<int>> {
    Seq::new(mles.len(), |k: int| mles[k].table())
}

/// Sums a product of polynomials over the rows, with the first variable at
/// `0, 1, ...`, up to the number of multiplicands.
fn scan_product<F: PrimeField>(
    mles: &Vec<DenseMultilinearExtension<F>>,
    factors: &Vec<usize>,
    remaining_rows: usize,
) -> (r: Vec<F>)
    requires
        0 < factors@.len() < usize::MAX,
        all_sized(dense_tables(mles@), 2 * remaining_rows),
        forall|j: int| 0 <= j < factors@.len() ==> (#[trigger] factors@[j]) < mles@.len(),
    ensures
        r@.len() == factors@.len() + 1,
        forall|j: int|
            0 <= j < r@.len() ==> (#[trigger] r@[j]).val() == product_sum(
                fold_all(dense_tables(mles@), j),
                indices(factors@),
                remaining_rows as int,
            ) % F::modulus(),
{
    let ghost ts = dense_tables(mles@);
    let ghost places = indices(factors@);
    let ghost rows = remaining_rows as int;
    proof {
        assert forall|k: int| 0 <= k < mles@.len() implies (
        #[trigger] mles@[k]).evaluations@.len() == 2 * remaining_rows by {
            assert(ts[k].len() == 2 * remaining_rows);
        }
    }
    if factors.len() == 1 {
        let table = mles[factors[0]].evaluations.as_slice();
        let sums = scan_single_multiplicand(table, remaining_rows);
        let mut r: Vec<F> = Vec::with_capacity(2);
        r.push(sums[0]);
        r.push(sums[1]);
        proof {
            assert forall|j: int| 0 <= j < r@.len() implies (#[trigger] r@[j]).val()
                == product_sum(fold_all(ts, j), places, rows) % F::modulus() by {
                lemma_picked_product_sum(ts, seq![vals(table@)], places, j, rows);
                assert(r@[j] == sums@[j]);
            }
        }
        r
    } else if factors.len() == 2 {
        let left_table = mles[factors[0]].evaluations.as_slice();
        let right_table = mles[factors[1]].evaluations.as_slice();
        let sums = scan_pair_multiplicands(left_table, right_table, remaining_rows);
        let mut r: Vec<F> = Vec::with_capacity(3);
        r.push(sums[0]);
        r.push(sums[1]);
        r.push(sums[2]);
        proof {
            let us = seq![vals(left_table@), vals(right_table@)];
            assert forall|j: int| 0 <= j < r@.len() implies (#[trigger] r@[j]).val()
                == product_sum(fold_all(ts, j), places, rows) % F::modulus() by {
                lemma_picked_product_sum(ts, us, places, j, rows);
                assert(r@[j] == sums@[j]);
            }
        }
        r
    } else {
        let mut product_tables: Vec<&[F]> = Vec::with_capacity(factors.len());
        let mut j: usize = 0;
        while j < factors.len()
            invariant
                0 <= j <= factors@.len(),
                forall|i: int| 0 <= i < factors@.len() ==> (#[trigger] factors@[i]) < mles@.len(),
                forall|k: int|
                    0 <= k < mles@.len() ==> (#[trigger] mles@[k]).evaluations@.len() == 2
                        * remaining_rows,
                product_tables@.len() == j,
                forall|i: int|
                    0 <= i < j ==> (#[trigger] product_tables@[i])@
                        == mles@[factors@[i] as int].evaluations@,
            decreases factors.len() - j,
        {
            product_tables.push(mles[factors[j]].evaluations.as_slice());
            j = j + 1;
        }
        proof {
            assert forall|k: int| 0 <= k < product_tables@.len() implies 2 * remaining_rows <= (
            #[trigger] product_tables@[k])@.len() by {
                assert(mles@[factors@[k] as int].evaluations@.len() == 2 * remaining_rows);
            }
        }
        let r = scan_product_generic(product_tables.as_slice(), remaining_rows);
        proof {
            let us = slice_tables(product_tables@);
            assert forall|k: int| 0 <= k < places.len() implies 0 <= #[trigger] places[k]
                < ts.len() && us[k] == ts[places[k]] by {
                assert(factors@[k] < mles@.len());
            }
            assert forall|j: int| 0 <= j < r@.len() implies (#[trigger] r@[j]).val()
                == product_sum(fold_all(ts, j), places, rows) % F::modulus() by {
                lemma_picked_product_sum(ts, us, places, j, rows);
            }
        }
        r
    }
}

/// One term's share of a round's message: `coefficient` times the product of
/// the factors, summed over the rows, with the first variable at
/// `0, 1, ..., max_degree`. The values beyond the number of multiplicands are
/// extrapolated from the others.
fn product_evaluations<F: PrimeField>(
    mles: &Vec<DenseMultilinearExtension<F>>,
    coefficient: F,
    factors: &Vec<usize>,
    remaining_rows: usize,
    max_degree: usize,
    extrapolation_aux: &Vec<(Vec<F>, Vec<F>)>,
) -> (r: Vec<F>)
    requires
        0 < factors@.len() <= max_degree < usize::MAX,
        all_sized(dense_tables(mles@), 2 * remaining_rows),
        forall|j: int| 0 <= j < factors@.len() ==> (#[trigger] factors@[j]) < mles@.len(),
        extrapolates(extrapolation_aux@, max_degree as int),
    ensures
        r@.len() == max_degree + 1,
        forall|j: int|
            0 <= j <= max_degree ==> (#[trigger] r@[j]).val() == (coefficient.val() * product_sum(
                fold_all(dense_tables(mles@), j),
                indices(factors@),
                remaining_rows as int,
            )) % F::modulus(),
{
    let ghost p = F::modulus();
    let ghost ts = dense_tables(mles@);
    let ghost places = indices(factors@);
    let ghost rows = remaining_rows as int;
    let ghost c = coefficient.val();
    let ghost h = |x: int| product_sum(fold_all(ts, x), places, rows);
    let ghost g = |x: int| c * h(x);
    let d = factors.len();
    proof {
        F::lemma_modulus();
        F::lemma_val();
        assert forall|j: int| 0 <= j < places.len() implies 0 <= #[trigger] places[j]
            < ts.len() by {
            assert(factors@[j] < mles@.len());
        }
        lemma_product_sum_degree(ts, places, rows, h);
        lemma_degree_scale(c, h, g, (d + 1) as nat);
    }
    let scanned = scan_product(mles, factors, remaining_rows);
    let mut sums: Vec<F> = Vec::with_capacity(d + 1);
    let mut values: Vec<F> = Vec::with_capacity(max_degree + 1);
    let mut j: usize = 0;
    while j <= d
        invariant
            0 <= j <= d + 1,
            d < usize::MAX,
            d == factors@.len(),
            p == F::modulus(),
            p > u64::MAX,
            c == coefficient.val(),
            g == (|x: int| c * h(x)),
            h == (|x: int| product_sum(fold_all(ts, x), places, rows)),
            scanned@.len() == d + 1,
            forall|i: int| 0 <= i <= d ==> (#[trigger] scanned@[i]).val() == h(i) % p,
            sums@.len() == j,
            values@ == sums@,
            forall|i: int| 0 <= i < j ==> (#[trigger] sums@[i]).val() == g(i) % p,
        decreases d + 1 - j,
    {
        let value = scanned[j].mul(coefficient);
        proof {
            lemma_eqm_residue(p, h(j as int));
            lemma_eqm_mul(p, h(j as int) % p, h(j as int), c, c);
            assert(h(j as int) * c == c * h(j as int)) by (nonlinear_arith);
        }
        sums.push(value);
        values.push(value);
        j = j + 1;
    }
    let mut at: usize = d + 1;
    while at <= max_degree
        invariant
            0 < d < at <= max_degree + 1,
            max_degree < usize::MAX,
            p == F::modulus(),
            p > u64::MAX,
            extrapolates(extrapolation_aux@, max_degree as int),
            degree_below(g, (d + 1) as nat),
            sums@.len() == d + 1,
            forall|i: int| 0 <= i <= d ==> (#[trigger] sums@[i]).val() == g(i) % p,
            values@.len() == at,
            forall|i: int| 0 <= i < at ==> (#[trigger] values@[i]).val() == g(i) % p,
        decreases max_degree + 1 - at,
    {
        let aux = &extrapolation_aux[d - 1];
        assert(interpolates(extrapolation_aux@[d - 1], d as int));
        assert(vals(aux.0@).len() == aux.0@.len() && vals(aux.1@).len() == aux.1@.len());
        let value = extrapolate(
            aux.0.as_slice(),
            aux.1.as_slice(),
            sums.as_slice(),
            &F::from_u64(at as u64),
        );
        proof {
            let xs = counting(d + 1);
            lemma_counting_distinct(p, d + 1);
            assert forall|i: int| 0 <= i < xs.len() implies (at - #[trigger] xs[i]) % p != 0 by {
                lemma_small_mod((at - i) as nat, p as nat);
            }
            let ys = vals(sums@);
            assert forall|i: int| 0 <= i < xs.len() implies eqm(p, #[trigger] ys[i], g(xs[i])) by {
                assert(sums@[i].val() == g(i) % p);
                lemma_eqm_residue(p, g(i));
            }
            lemma_extrapolation(p, xs, vals(aux.1@), ys, at as int, g);
        }
        values.push(value);
        at = at + 1;
    }
    values
}

/// Copies of the listed polynomials.
fn copy_mles<F: PrimeField>(
    list: &Vec<Arc<DenseMultilinearExtension<F>>>,
) -> (r: Vec<DenseMultilinearExtension<F>>)
    ensures
        r@.len() == list@.len(),
        forall|k: int|
            0 <= k < list@.len() ==> (#[trigger] r@[k]).num_vars == list@[k].num_vars
                && r@[k].evaluations@ == list@[k].evaluations@,
{
    let mut r: Vec<DenseMultilinearExtension<F>> = Vec::with_capacity(list.len());
    let mut k: usize = 0;
    while k < list.len()
        invariant
            0 <= k <= list@.len(),
            r@.len() == k,
            forall|i: int|
                0 <= i < k ==> (#[trigger] r@[i]).num_vars == list@[i].num_vars
                    && r@[i].evaluations@ == list@[i].evaluations@,
        decreases list.len() - k,
    {
        r.push(list[k].copy());
        k = k + 1;
    }
    r
}

/// Fixes the first variable of every polynomial to `challenge`.
fn bind_all<F: PrimeField>(mles: &mut Vec<DenseMultilinearExtension<F>>, challenge: F)
    requires
        forall|k: int|
            0 <= k < old(mles)@.len() ==> (#[trigger] old(mles)@[k]).wf() && old(
                mles,
            )@[k].num_vars > 0,
    ensures
        final(mles)@.len() == old(mles)@.len(),
        forall|k: int|
            0 <= k < old(mles)@.len() ==> (#[trigger] final(mles)@[k]).wf()
                && final(mles)@[k].num_vars == old(mles)@[k].num_vars - 1
                && final(mles)@[k].table() == residues(
                F::modulus(),
                fold(old(mles)@[k].table(), challenge.val()),
            ),
{
    let ghost before = mles@;
    let mut k: usize = 0;
    while k < mles.len()
        invariant
            0 <= k <= mles@.len(),
            mles@.len() == before.len(),
            forall|i: int|
                0 <= i < before.len() ==> (#[trigger] before[i]).wf() && before[i].num_vars > 0,
            forall|i: int| k <= i < before.len() ==> #[trigger] mles@[i] == before[i],
            forall|i: int|
                0 <= i < k ==> (#[trigger] mles@[i]).wf() && mles@[i].num_vars
                    == before[i].num_vars - 1 && mles@[i].table() == residues(
                    F::modulus(),
                    fold(before[i].table(), challenge.val()),
                ),
        decreases mles.len() - k,
    {
        assert(before[k as int].wf());
        let mut mle = mles[k].copy();
        bind_first_variable_in_place(&mut mle, challenge);
        mles.set(k, mle);
        k = k + 1;
    }
}

/// The message of one round: the value of the round's polynomial at
/// `0, 1, ..., max_degree`.
fn round_message<F: PrimeField>(
    mles: &Vec<DenseMultilinearExtension<F>>,
    products: &Vec<(F, Vec<usize>)>,
    remaining_rows: usize,
    max_degree: usize,
    extrapolation_aux: &Vec<(Vec<F>, Vec<F>)>,
) -> (r: Vec<F>)
    requires
        max_degree < usize::MAX,
        all_sized(dense_tables(mles@), 2 * remaining_rows),
        forall|k: int|
            0 <= k < products@.len() ==> 0 < (#[trigger] products@[k]).1@.len() <= max_degree,
        forall|k: int, j: int|
            0 <= k < products@.len() && 0 <= j < products@[k].1@.len() ==> (
            #[trigger] products@[k].1@[j]) < mles@.len(),
        extrapolates(extrapolation_aux@, max_degree as int),
    ensures
        r@.len() == max_degree + 1,
        forall|j: int|
            0 <= j <= max_degree ==> (#[trigger] r@[j]).val() == round_value(
                dense_tables(mles@),
                terms_of(products@),
                remaining_rows as int,
                j,
            ) % F::modulus(),
{
    let ghost p = F::modulus();
    let ghost ts = dense_tables(mles@);
    let ghost terms = terms_of(products@);
    let ghost rows = remaining_rows as int;
    proof {
        F::lemma_modulus();
        F::lemma_val();
    }
    let mut sums = repeated(F::zero(), max_degree + 1);
    let mut k: usize = 0;
    while k < products.len()
        invariant
            0 <= k <= products@.len(),
            max_degree < usize::MAX,
            p == F::modulus(),
            p > u64::MAX,
            ts == dense_tables(mles@),
            terms == terms_of(products@),
            rows == remaining_rows,
            all_sized(ts, 2 * remaining_rows),
            forall|i: int|
                0 <= i < products@.len() ==> 0 < (#[trigger] products@[i]).1@.len() <= max_degree,
            forall|i: int, j: int|
                0 <= i < products@.len() && 0 <= j < products@[i].1@.len() ==> (
                #[trigger] products@[i].1@[j]) < mles@.len(),
            extrapolates(extrapolation_aux@, max_degree as int),
            sums@.len() == max_degree + 1,
            forall|j: int|
                0 <= j <= max_degree ==> eqm(
                    p,
                    (#[trigger] sums@[j]).val(),
                    cube_sum_below(fold_all(ts, j), terms, rows, k as int),
                ),
        decreases products.len() - k,
    {
        let product = &products[k];
        assert(0 < products@[k as int].1@.len() <= max_degree);
        assert(forall|j: int|
            0 <= j < product.1@.len() ==> (#[trigger] products@[k as int].1@[j]) < mles@.len());
        let share = product_evaluations(
            mles,
            product.0,
            &product.1,
            remaining_rows,
            max_degree,
            extrapolation_aux,
        );
        let ghost before = sums@;
        let mut j: usize = 0;
        while j <= max_degree
            invariant
                0 <= j <= max_degree + 1,
                max_degree < usize::MAX,
                p == F::modulus(),
                p > u64::MAX,
                0 <= k < terms.len(),
                share@.len() == max_degree + 1,
                forall|i: int|
                    0 <= i <= max_degree ==> (#[trigger] share@[i]).val() == (terms[k as int].coeff
                        * product_sum(fold_all(ts, i), terms[k as int].factors, rows)) % p,
                sums@.len() == max_degree + 1,
                before.len() == max_degree + 1,
                forall|i: int|
                    0 <= i <= max_degree ==> eqm(
                        p,
                        (#[trigger] before[i]).val(),
                        cube_sum_below(fold_all(ts, i), terms, rows, k as int),
                    ),
                forall|i: int| j <= i <= max_degree ==> #[trigger] sums@[i] == before[i],
                forall|i: int|
                    0 <= i < j ==> eqm(
                        p,
                        (#[trigger] sums@[i]).val(),
                        cube_sum_below(fold_all(ts, i), terms, rows, k + 1),
                    ),
            decreases max_degree + 1 - j,
        {
            let value = sums[j].add(share[j]);
            proof {
                broadcast use lemma_mod_twice;

                let i = j as int;
                let us = fold_all(ts, i);
                let e = terms[k as int].coeff * product_sum(us, terms[k as int].factors, rows);
                assert(eqm(p, before[i].val(), cube_sum_below(us, terms, rows, k as int)));
                lemma_eqm_add(
                    p,
                    before[i].val(),
                    cube_sum_below(us, terms, rows, k as int),
                    e % p,
                    e,
                );
            }
            sums[j] = value;
            j = j + 1;
        }
        k = k + 1;
    }
    proof {
        assert forall|j: int| 0 <= j <= max_degree implies (#[trigger] sums@[j]).val()
            == round_value(ts, terms, rows, j) % p by {
            assert(eqm(
                p,
                sums@[j].val(),
                cube_sum_below(fold_all(ts, j), terms, rows, terms.len() as int),
            ));
            lemma_small_mod(sums@[j].val() as nat, p as nat);
        }
    }
    sums
}

impl<F: PrimeField> IOPProverState<F> {
    /// The state that argues for the sum of a polynomial over the Boolean
    /// hypercube, before the first round.
    pub fn prover_init(polynomial: &VirtualPolynomial<F>) -> (r: Result<Self, PolyIOPErrors>)
        requires
            polynomial.wf(),
        ensures
            r is Err <==> polynomial.aux_info.num_variables == 0,
            r matches Err(e) ==> e.is_invalid_parameters("Attempt to prove a constant."@),
            r matches Ok(state) ==> {
                &&& state.wf()
                &&& state.round == 0
                &&& state.challenges@ == Seq::<F>::empty()
                &&& state.poly.same(*polynomial)
            },
    {
        if polynomial.aux_info.num_variables == 0 {
            return Err(
                PolyIOPErrors::InvalidParameters("Attempt to prove a constant.".to_string()),
            );
        }
        let max_degree = polynomial.aux_info.max_degree;
        let mut extrapolation_aux: Vec<(Vec<F>, Vec<F>)> = Vec::new();
        let mut degree: usize = 1;
        while degree < max_degree
            invariant
                1 <= degree,
                degree <= max_degree || degree == 1,
                max_degree < usize::MAX,
                extrapolation_aux@.len() == degree - 1,
                forall|d: int|
                    1 <= d < degree ==> interpolates(#[trigger] extrapolation_aux@[d - 1], d),
            decreases max_degree - degree,
        {
            let mut points: Vec<F> = Vec::with_capacity(degree + 1);
            let mut i: usize = 0;
            while i <= degree
                invariant
                    0 <= i <= degree + 1,
                    degree < usize::MAX,
                    points@.len() == i,
                    forall|k: int| 0 <= k < i ==> (#[trigger] points@[k]).val() == k,
                decreases degree + 1 - i,
            {
                points.push(F::from_u64(i as u64));
                i = i + 1;
            }
            assert(vals(points@) =~= counting(degree + 1));
            let weights = barycentric_weights(points.as_slice());
            extrapolation_aux.push((points, weights));
            degree = degree + 1;
        }
        let poly = polynomial.copy();
        proof {
            poly.lemma_same(*polynomial, polynomial.aux_info.num_variables as nat);
        }
        Ok(IOPProverState { challenges: Vec::new(), round: 0, poly, extrapolation_aux })
    }

    /// Takes the verifier's challenge, fixes the next variable to it, and
    /// answers with the message of the next round. There is no challenge
    /// before the first message.
    pub fn prove_round_and_update_state(
        &mut self,
        challenge: &Option<F>,
    ) -> (r: Result<IOPProverMessage<F>, PolyIOPErrors>)
        requires
            old(self).wf(),
            old(self).poly.aux_info.num_variables <= usize::BITS,
        ensures
            r is Ok <==> old(self).round < old(self).poly.aux_info.num_variables && (
            challenge is Some <==> old(self).round > 0),
            r matches Err(e) ==> {
                &&& *final(self) == *old(self)
                &&& if old(self).round >= old(self).poly.aux_info.num_variables {
                    e.is_invalid_prover("Prover is not active"@)
                } else if challenge is Some {
                    e.is_invalid_prover("first round should be prover first."@)
                } else {
                    e.is_invalid_prover("verifier message is empty"@)
                }
            },
            r matches Ok(message) ==> is_round(*old(self), *final(self), *challenge, message),
    {
        if self.round >= self.poly.aux_info.num_variables {
            return Err(PolyIOPErrors::InvalidProver("Prover is not active".to_string()));
        }
        match challenge {
            Some(_) => {
                if self.round == 0 {
                    return Err(
                        PolyIOPErrors::InvalidProver(
                            "first round should be prover first.".to_string(),
                        ),
                    );
                }
            },
            None => {
                if self.round > 0 {
                    return Err(
                        PolyIOPErrors::InvalidProver("verifier message is empty".to_string()),
                    );
                }
            },
        }
        let ghost p = F::modulus();
        let ghost n = self.poly.aux_info.num_variables;
        let ghost vars = (n - self.fixed()) as nat;
        let ghost list = self.poly.flattened_ml_extensions@;
        let ghost ts = self.poly.tables();
        let mut mles = copy_mles(&self.poly.flattened_ml_extensions);
        assert(forall|k: int| 0 <= k < list.len() ==> (#[trigger] list[k]).wf());
        assert(dense_tables(mles@) =~= ts);
        match challenge {
            Some(c) => {
                self.challenges.push(*c);
                bind_all(&mut mles, *c);
                assert(dense_tables(mles@) =~= bound_tables(p, ts, c.val()));
            },
            None => {},
        }
        self.round = self.round + 1;
        let ghost left = (n - self.fixed()) as nat;
        assert(forall|k: int|
            0 <= k < mles@.len() ==> (#[trigger] mles@[k]).wf() && mles@[k].num_vars == left);
        let ghost us = dense_tables(mles@);
        let remaining = self.poly.aux_info.num_variables - self.round;
        proof {
            lemma_power_below_word(remaining as nat);
            lemma_pow2_halves(left);
        }
        let remaining_rows = power_of_two(remaining);
        assert(all_sized(us, 2 * remaining_rows)) by {
            assert forall|k: int| 0 <= k < us.len() implies (#[trigger] us[k]).len() == 2
                * remaining_rows by {
                assert(mles@[k].wf());
            }
        }
        let evaluations = round_message(
            &mles,
            &self.poly.products,
            remaining_rows,
            self.poly.aux_info.max_degree,
            &self.extrapolation_aux,
        );
        let mut rebound: Vec<Arc<DenseMultilinearExtension<F>>> = Vec::with_capacity(mles.len());
        let mut k: usize = 0;
        while k < mles.len()
            invariant
                0 <= k <= mles@.len(),
                rebound@.len() == k,
                forall|i: int|
                    0 <= i < k ==> (#[trigger] rebound@[i]).num_vars == mles@[i].num_vars
                        && rebound@[i].evaluations@ == mles@[i].evaluations@,
            decreases mles.len() - k,
        {
            rebound.push(Arc::new(mles[k].copy()));
            k = k + 1;
        }
        self.poly.flattened_ml_extensions = rebound;
        proof {
            assert forall|k: int| 0 <= k < rebound@.len() implies (#[trigger] rebound@[k]).wf()
                && rebound@[k].num_vars == left by {
                assert(mles@[k].wf());
            }
            assert(self.poly.tables() =~= us);
        }
        Ok(IOPProverMessage { evaluations })
    }
}

} // verus!
