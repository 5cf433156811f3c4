//! Sums of products of multilinear polynomials, and their sums over the
//! Boolean hypercube.

use crate::math::interpolation::{
    degree_below, lemma_degree_add, lemma_degree_const, lemma_degree_mul_line, lemma_degree_zero,
};
use crate::math::modular::{eqm, eqm_seq, lemma_eqm_mul, lemma_eqm_residue, residues};
use crate::math::multilinear::{fix, fold, lemma_fold_eqm, mle};
use crate::math::sums::{
    counting, lemma_product_eqm, lemma_product_ext, lemma_sum_add, lemma_sum_eqm, lemma_sum_ext,
    lemma_sum_pairs, lemma_sum_scale, lemma_sum_swap, product, sum,
};
use vstd::prelude::*;

verus! {

/// A coefficient times a product of polynomials, given by their places in a
/// list of tables.
pub struct Term {
    pub coeff: int,
    pub factors: Seq<int>,
}

/// The product of the factors at the vertex `x`.
pub open spec fn product_at(ts: Seq<Seq<int>>, factors: Seq<int>, x: int) -> int {
    product(|k: int| ts[factors[k]][x], 0, factors.len() as int)
}

/// The product of the factors, summed over the vertices below `size`.
pub open spec fn product_sum(ts: Seq<Seq<int>>, factors: Seq<int>, size: int) -> int {
    sum(|x: int| product_at(ts, factors, x), 0, size)
}

/// The value of the first `n` terms, summed over the vertices below `size`.
pub open spec fn cube_sum_below(ts: Seq<Seq<int>>, terms: Seq<Term>, size: int, n: int) -> int {
    sum(|k: int| terms[k].coeff * product_sum(ts, terms[k].factors, size), 0, n)
}

/// The sum of the terms, summed over the vertices below `size`.
pub open spec fn cube_sum(ts: Seq<Seq<int>>, terms: Seq<Term>, size: int) -> int {
    cube_sum_below(ts, terms, size, terms.len() as int)
}

/// The tables with the first variable of each polynomial fixed to `r`.
pub open spec fn fold_all(ts: Seq<Seq<int>>, r: int) -> Seq<Seq<int>> {
    Seq::new(ts.len(), |k: int| fold(ts[k], r))
}

/// The tables with the first variables of each polynomial fixed to `rs`.
pub open spec fn fix_all(ts: Seq<Seq<int>>, rs: Seq<int>) -> Seq<Seq<int>> {
    Seq::new(ts.len(), |k: int| fix(ts[k], rs))
}

/// The tables with the first variable fixed to `r`, reduced modulo `p`.
pub open spec fn bound_tables(p: int, ts: Seq<Seq<int>>, r: int) -> Seq<Seq<int>> {
    Seq::new(ts.len(), |k: int| residues(p, fold(ts[k], r)))
}

/// The polynomial that a round of the sum-check protocol is about, at `x`: the
/// first variable is `x`, and the others run over the vertices below `half`.
pub open spec fn round_value(ts: Seq<Seq<int>>, terms: Seq<Term>, half: int, x: int) -> int {
    cube_sum(fold_all(ts, x), terms, half)
}

/// The value of the sum of the terms at `point`.
pub open spec fn terms_value(ts: Seq<Seq<int>>, terms: Seq<Term>, point: Seq<int>) -> int {
    cube_sum(fix_all(ts, point), terms, 1)
}

/// Every factor of every term is one of `m` tables.
pub open spec fn factors_below(terms: Seq<Term>, m: int) -> bool {
    forall|k: int, j: int|
        0 <= k < terms.len() && 0 <= j < terms[k].factors.len() ==> 0
            <= #[trigger] terms[k].factors[j] < m
}

/// All tables hold `size` entries.
pub open spec fn all_sized(ts: Seq<Seq<int>>, size: int) -> bool {
    forall|k: int| 0 <= k < ts.len() ==> (#[trigger] ts[k]).len() == size
}

/// Two lists of tables with congruent entries.
pub open spec fn eqm_tables(p: int, ts: Seq<Seq<int>>, us: Seq<Seq<int>>) -> bool {
    &&& ts.len() == us.len()
    &&& forall|k: int| 0 <= k < ts.len() ==> eqm_seq(p, #[trigger] ts[k], us[k])
}

pub proof fn lemma_product_at_one(ts: Seq<Seq<int>>, factors: Seq<int>, x: int)
    requires
        factors.len() == 1,
    ensures
        product_at(ts, factors, x) == ts[factors[0]][x],
{
    let f = |k: int| ts[factors[k]][x];
    assert(product(f, 0, 0) == 1);
    assert(product(f, 0, 1) == 1 * f(0));
}

pub proof fn lemma_product_at_two(ts: Seq<Seq<int>>, factors: Seq<int>, x: int)
    requires
        factors.len() == 2,
    ensures
        product_at(ts, factors, x) == ts[factors[0]][x] * ts[factors[1]][x],
{
    let f = |k: int| ts[factors[k]][x];
    assert(product(f, 0, 0) == 1);
    assert(product(f, 0, 1) == 1 * f(0));
    assert(product(f, 0, 2) == f(0) * f(1));
}

/// The product of some of the tables is the product of all of the tables that
/// were picked.
pub proof fn lemma_picked_product_sum(
    ts: Seq<Seq<int>>,
    us: Seq<Seq<int>>,
    factors: Seq<int>,
    x: int,
    size: int,
)
    requires
        us.len() == factors.len(),
        forall|k: int|
            0 <= k < factors.len() ==> 0 <= #[trigger] factors[k] < ts.len() && us[k]
                == ts[factors[k]],
    ensures
        product_sum(fold_all(us, x), counting(us.len() as int), size) == product_sum(
            fold_all(ts, x),
            factors,
            size,
        ),
{
    let places = counting(us.len() as int);
    let vs = fold_all(us, x);
    let ws = fold_all(ts, x);
    let f = |y: int| product_at(vs, places, y);
    let g = |y: int| product_at(ws, factors, y);
    assert forall|y: int| 0 <= y < size implies #[trigger] f(y) == g(y) by {
        let a = |k: int| vs[places[k]][y];
        let b = |k: int| ws[factors[k]][y];
        assert forall|k: int| 0 <= k < factors.len() implies #[trigger] a(k) == b(k) by {
            assert(0 <= factors[k] < ts.len());
        }
        lemma_product_ext(a, b, 0, factors.len() as int);
    }
    lemma_sum_ext(f, g, 0, size);
}

pub proof fn lemma_fix_all_push(ts: Seq<Seq<int>>, rs: Seq<int>, r: int)
    ensures
        fix_all(ts, rs.push(r)) == fold_all(fix_all(ts, rs), r),
{
    let a = fix_all(ts, rs.push(r));
    let b = fold_all(fix_all(ts, rs), r);
    assert forall|k: int| 0 <= k < ts.len() implies #[trigger] a[k] == b[k] by {
        assert(rs.push(r).drop_last() =~= rs);
        assert(rs.push(r).last() == r);
    }
    assert(a =~= b);
}

pub proof fn lemma_fix_all_empty(ts: Seq<Seq<int>>)
    ensures
        fix_all(ts, Seq::<int>::empty()) == ts,
{
    assert(fix_all(ts, Seq::<int>::empty()) =~= ts);
}

pub proof fn lemma_fold_all_eqm(p: int, ts: Seq<Seq<int>>, us: Seq<Seq<int>>, r: int, q: int)
    requires
        p > 0,
        eqm_tables(p, ts, us),
        eqm(p, r, q),
    ensures
        eqm_tables(p, fold_all(ts, r), fold_all(us, q)),
{
    let a = fold_all(ts, r);
    let b = fold_all(us, q);
    assert forall|k: int| 0 <= k < a.len() implies eqm_seq(p, #[trigger] a[k], b[k]) by {
        assert(eqm_seq(p, ts[k], us[k]));
        lemma_fold_eqm(p, ts[k], us[k], r, q);
    }
}

pub proof fn lemma_product_sum_eqm(
    p: int,
    ts: Seq<Seq<int>>,
    us: Seq<Seq<int>>,
    factors: Seq<int>,
    size: int,
)
    requires
        p > 0,
        eqm_tables(p, ts, us),
        all_sized(ts, size),
        forall|j: int| 0 <= j < factors.len() ==> 0 <= #[trigger] factors[j] < ts.len(),
    ensures
        eqm(p, product_sum(ts, factors, size), product_sum(us, factors, size)),
{
    let f = |x: int| product_at(ts, factors, x);
    let g = |x: int| product_at(us, factors, x);
    assert forall|x: int| 0 <= x < size implies eqm(p, #[trigger] f(x), g(x)) by {
        let a = |k: int| ts[factors[k]][x];
        let b = |k: int| us[factors[k]][x];
        assert forall|k: int| 0 <= k < factors.len() implies eqm(p, #[trigger] a(k), b(k)) by {
            assert(eqm_seq(p, ts[factors[k]], us[factors[k]]));
            assert(eqm(p, ts[factors[k]][x], us[factors[k]][x]));
        }
        lemma_product_eqm(p, a, b, 0, factors.len() as int);
    }
    lemma_sum_eqm(p, f, g, 0, size);
}

/// Congruent tables have congruent sums.
pub proof fn lemma_cube_sum_eqm(
    p: int,
    ts: Seq<Seq<int>>,
    us: Seq<Seq<int>>,
    terms: Seq<Term>,
    size: int,
)
    requires
        p > 0,
        eqm_tables(p, ts, us),
        all_sized(ts, size),
        factors_below(terms, ts.len() as int),
    ensures
        eqm(p, cube_sum(ts, terms, size), cube_sum(us, terms, size)),
{
    let f = |k: int| terms[k].coeff * product_sum(ts, terms[k].factors, size);
    let g = |k: int| terms[k].coeff * product_sum(us, terms[k].factors, size);
    assert forall|k: int| 0 <= k < terms.len() implies eqm(p, #[trigger] f(k), g(k)) by {
        let c = terms[k].coeff;
        lemma_product_sum_eqm(p, ts, us, terms[k].factors, size);
        lemma_eqm_mul(
            p,
            c,
            c,
            product_sum(ts, terms[k].factors, size),
            product_sum(us, terms[k].factors, size),
        );
    }
    lemma_sum_eqm(p, f, g, 0, terms.len() as int);
}

/// A sum over the hypercube is the sum over the vertices with a first
/// coordinate of 0 and the sum over those with a first coordinate of 1.
pub proof fn lemma_round_sums(ts: Seq<Seq<int>>, terms: Seq<Term>, half: int)
    requires
        half >= 0,
        all_sized(ts, 2 * half),
        factors_below(terms, ts.len() as int),
    ensures
        round_value(ts, terms, half, 0) + round_value(ts, terms, half, 1) == cube_sum(
            ts,
            terms,
            2 * half,
        ),
{
    let t0 = fold_all(ts, 0);
    let t1 = fold_all(ts, 1);
    let f = |k: int| terms[k].coeff * product_sum(t0, terms[k].factors, half);
    let g = |k: int| terms[k].coeff * product_sum(t1, terms[k].factors, half);
    let h = |k: int| terms[k].coeff * product_sum(ts, terms[k].factors, 2 * half);
    let fg = |k: int| f(k) + g(k);
    assert forall|k: int| 0 <= k < terms.len() implies #[trigger] h(k) == fg(k) by {
        let fs = terms[k].factors;
        let e = |x: int| product_at(ts, fs, x);
        let a = |b: int| product_at(t0, fs, b);
        let c = |b: int| product_at(t1, fs, b);
        let ac = |b: int| a(b) + c(b);
        let pairs = |b: int| e(2 * b) + e(2 * b + 1);
        lemma_sum_pairs(e, half);
        assert forall|b: int| 0 <= b < half implies #[trigger] pairs(b) == ac(b) by {
            let n = fs.len() as int;
            let e0 = |j: int| ts[fs[j]][2 * b];
            let e1 = |j: int| ts[fs[j]][2 * b + 1];
            let a0 = |j: int| t0[fs[j]][b];
            let c1 = |j: int| t1[fs[j]][b];
            assert forall|j: int| 0 <= j < n implies #[trigger] e0(j) == a0(j) by {
                assert(0 <= terms[k].factors[j] < ts.len());
                assert(ts[fs[j]].len() == 2 * half);
            }
            assert forall|j: int| 0 <= j < n implies #[trigger] e1(j) == c1(j) by {
                assert(0 <= terms[k].factors[j] < ts.len());
                assert(ts[fs[j]].len() == 2 * half);
            }
            lemma_product_ext(e0, a0, 0, n);
            lemma_product_ext(e1, c1, 0, n);
        }
        lemma_sum_ext(pairs, ac, 0, half);
        lemma_sum_add(a, c, 0, half);
        let (k0, s0, s1) = (terms[k].coeff, sum(a, 0, half), sum(c, 0, half));
        assert(k0 * (s0 + s1) == k0 * s0 + k0 * s1) by (nonlinear_arith);
    }
    lemma_sum_ext(h, fg, 0, terms.len() as int);
    lemma_sum_add(f, g, 0, terms.len() as int);
}

proof fn lemma_row_degree(
    ts: Seq<Seq<int>>,
    factors: Seq<int>,
    b: int,
    m: int,
    h: spec_fn(int) -> int,
)
    requires
        0 <= m <= factors.len(),
        forall|j: int|
            0 <= j < factors.len() ==> 0 <= #[trigger] factors[j] < ts.len() && 0 <= b
                < ts[factors[j]].len() / 2,
        forall|x: int| #[trigger]
            h(x) == product(|k: int| fold_all(ts, x)[factors[k]][b], 0, m),
    ensures
        degree_below(h, (m + 1) as nat),
    decreases m,
{
    if m == 0 {
        lemma_degree_const(1, h);
    } else {
        let g = |x: int| product(|k: int| fold_all(ts, x)[factors[k]][b], 0, m - 1);
        lemma_row_degree(ts, factors, b, m - 1, g);
        let t = ts[factors[m - 1]];
        let u = t[2 * b];
        let v = t[2 * b + 1] - t[2 * b];
        assert(0 <= factors[m - 1] < ts.len());
        assert forall|x: int| #[trigger] h(x) == g(x) * (u + x * v) by {
            assert(fold_all(ts, x)[factors[m - 1]][b] == u + x * v);
        }
        lemma_degree_mul_line(g, u, v, h, m as nat);
    }
}

proof fn lemma_rows_degree(
    ts: Seq<Seq<int>>,
    factors: Seq<int>,
    half: int,
    m: int,
    h: spec_fn(int) -> int,
)
    requires
        0 <= m <= half,
        all_sized(ts, 2 * half),
        forall|j: int| 0 <= j < factors.len() ==> 0 <= #[trigger] factors[j] < ts.len(),
        forall|x: int| #[trigger] h(x) == product_sum(fold_all(ts, x), factors, m),
    ensures
        degree_below(h, factors.len() + 1),
    decreases m,
{
    if m == 0 {
        lemma_degree_zero(h, factors.len() + 1);
    } else {
        let g = |x: int| product_sum(fold_all(ts, x), factors, m - 1);
        lemma_rows_degree(ts, factors, half, m - 1, g);
        let row = |x: int| product_at(fold_all(ts, x), factors, m - 1);
        assert forall|j: int| 0 <= j < factors.len() implies 0 <= #[trigger] factors[j] < ts.len()
            && 0 <= m - 1 < ts[factors[j]].len() / 2 by {
            assert(ts[factors[j]].len() == 2 * half);
        }
        lemma_row_degree(ts, factors, m - 1, factors.len() as int, row);
        assert forall|x: int| #[trigger] h(x) == g(x) + row(x) by {}
        lemma_degree_add(g, row, h, factors.len() + 1);
    }
}

/// The sum of a product of `d` polynomials over all variables but the first is
/// a polynomial of degree at most `d` in the first.
pub proof fn lemma_product_sum_degree(
    ts: Seq<Seq<int>>,
    factors: Seq<int>,
    half: int,
    h: spec_fn(int) -> int,
)
    requires
        0 <= half,
        all_sized(ts, 2 * half),
        forall|j: int| 0 <= j < factors.len() ==> 0 <= #[trigger] factors[j] < ts.len(),
        forall|x: int| #[trigger] h(x) == product_sum(fold_all(ts, x), factors, half),
    ensures
        degree_below(h, factors.len() + 1),
{
    lemma_rows_degree(ts, factors, half, half, h);
}

pub proof fn lemma_eqm_tables_same(p: int, ts: Seq<Seq<int>>)
    ensures
        eqm_tables(p, ts, ts),
{
    assert(forall|k: int| 0 <= k < ts.len() ==> eqm_seq(p, #[trigger] ts[k], ts[k]));
}

pub proof fn lemma_round_value_eqm(
    p: int,
    ts: Seq<Seq<int>>,
    us: Seq<Seq<int>>,
    terms: Seq<Term>,
    half: int,
    x: int,
)
    requires
        p > 0,
        half >= 0,
        eqm_tables(p, ts, us),
        all_sized(ts, 2 * half),
        factors_below(terms, ts.len() as int),
    ensures
        eqm(p, round_value(ts, terms, half, x), round_value(us, terms, half, x)),
{
    lemma_fold_all_eqm(p, ts, us, x, x);
    assert forall|k: int| 0 <= k < ts.len() implies (#[trigger] fold_all(ts, x)[k]).len()
        == half by {
        assert(ts[k].len() == 2 * half);
    }
    lemma_cube_sum_eqm(p, fold_all(ts, x), fold_all(us, x), terms, half);
}

/// Fixing one more variable in tables that are congruent to `ts` with some
/// variables fixed.
pub proof fn lemma_bound_tables(
    p: int,
    cur: Seq<Seq<int>>,
    ts: Seq<Seq<int>>,
    rs: Seq<int>,
    r: int,
)
    requires
        p > 0,
        eqm_tables(p, cur, fix_all(ts, rs)),
    ensures
        eqm_tables(p, bound_tables(p, cur, r), fix_all(ts, rs.push(r))),
{
    let us = fix_all(ts, rs.push(r));
    let bs = bound_tables(p, cur, r);
    assert(rs.push(r).drop_last() =~= rs);
    assert forall|k: int| 0 <= k < bs.len() implies eqm_seq(p, #[trigger] bs[k], us[k]) by {
        assert(eqm_seq(p, cur[k], fix_all(ts, rs)[k]));
        lemma_fold_eqm(p, cur[k], fix(ts[k], rs), r, r);
        let (a, b) = (fold(cur[k], r), fold(fix(ts[k], rs), r));
        assert(us[k] == b);
        assert forall|i: int| 0 <= i < bs[k].len() implies eqm(p, #[trigger] bs[k][i], b[i]) by {
            assert(eqm(p, a[i], b[i]));
            lemma_eqm_residue(p, a[i]);
        }
    }
}

/// The sum over the vertices below `size` of the product of two tables.
pub open spec fn pair_sum(t: Seq<int>, u: Seq<int>, size: int) -> int {
    sum(|x: int| t[x] * u[x], 0, size)
}

/// One more term adds its own sum, also if it brings new tables.
pub proof fn lemma_term_appended(
    ts: Seq<Seq<int>>,
    us: Seq<Seq<int>>,
    terms: Seq<Term>,
    term: Term,
    size: int,
)
    requires
        ts.len() <= us.len(),
        forall|k: int| 0 <= k < ts.len() ==> #[trigger] us[k] == ts[k],
        factors_below(terms, ts.len() as int),
    ensures
        cube_sum(us, terms.push(term), size) == cube_sum(ts, terms, size) + term.coeff
            * product_sum(us, term.factors, size),
{
    let longer = terms.push(term);
    let f = |k: int| longer[k].coeff * product_sum(us, longer[k].factors, size);
    let g = |k: int| terms[k].coeff * product_sum(ts, terms[k].factors, size);
    assert forall|k: int| 0 <= k < terms.len() implies #[trigger] f(k) == g(k) by {
        let factors = terms[k].factors;
        let a = |x: int| product_at(us, factors, x);
        let b = |x: int| product_at(ts, factors, x);
        assert forall|x: int| 0 <= x < size implies #[trigger] a(x) == b(x) by {
            let c = |j: int| us[factors[j]][x];
            let d = |j: int| ts[factors[j]][x];
            assert forall|j: int| 0 <= j < factors.len() implies #[trigger] c(j) == d(j) by {
                assert(0 <= terms[k].factors[j] < ts.len());
            }
            lemma_product_ext(c, d, 0, factors.len() as int);
        }
        lemma_sum_ext(a, b, 0, size);
    }
    lemma_sum_ext(f, g, 0, terms.len() as int);
}

pub proof fn lemma_product_sum_two(ts: Seq<Seq<int>>, factors: Seq<int>, size: int)
    requires
        factors.len() == 2,
    ensures
        product_sum(ts, factors, size) == pair_sum(ts[factors[0]], ts[factors[1]], size),
{
    let (t, u) = (ts[factors[0]], ts[factors[1]]);
    let f = |x: int| product_at(ts, factors, x);
    let g = |x: int| t[x] * u[x];
    assert forall|x: int| 0 <= x < size implies #[trigger] f(x) == g(x) by {
        lemma_product_at_two(ts, factors, x);
    }
    lemma_sum_ext(f, g, 0, size);
}

/// A product of two polynomials, appended to a sum of products, adds its sum
/// over the hypercube and, at every point, its value.
pub proof fn lemma_pair_appended(
    ts: Seq<Seq<int>>,
    us: Seq<Seq<int>>,
    terms: Seq<Term>,
    term: Term,
    size: int,
    point: Seq<int>,
)
    requires
        ts.len() <= us.len(),
        forall|k: int| 0 <= k < ts.len() ==> #[trigger] us[k] == ts[k],
        factors_below(terms, ts.len() as int),
        term.factors.len() == 2,
        0 <= term.factors[0] < us.len(),
        0 <= term.factors[1] < us.len(),
    ensures
        cube_sum(us, terms.push(term), size) == cube_sum(ts, terms, size) + term.coeff * pair_sum(
            us[term.factors[0]],
            us[term.factors[1]],
            size,
        ),
        terms_value(us, terms.push(term), point) == terms_value(ts, terms, point) + term.coeff * (
        mle(us[term.factors[0]], point) * mle(us[term.factors[1]], point)),
{
    lemma_term_appended(ts, us, terms, term, size);
    lemma_product_sum_two(us, term.factors, size);
    let (a, b) = (fix_all(ts, point), fix_all(us, point));
    assert forall|k: int| 0 <= k < a.len() implies #[trigger] b[k] == a[k] by {
        assert(us[k] == ts[k]);
    }
    lemma_term_appended(a, b, terms, term, 1);
    lemma_product_sum_two(b, term.factors, 1);
    let (t, u) = (b[term.factors[0]], b[term.factors[1]]);
    let f = |x: int| t[x] * u[x];
    assert(sum(f, 0, 1) == sum(f, 0, 0) + f(0));
}

/// A table that is congruent to a weighted sum of tables `w(d, _)`: so are its
/// products with any `q`, summed over the vertices.
pub proof fn lemma_weighted_table(
    p: int,
    row: Seq<(int, int)>,
    w: spec_fn(int, int) -> int,
    e: Seq<int>,
    q: spec_fn(int) -> int,
    size: int,
)
    requires
        p > 0,
        forall|x: int|
            0 <= x < size ==> eqm(
                p,
                #[trigger] e[x],
                sum(|j: int| row[j].1 * w(row[j].0, x), 0, row.len() as int),
            ),
    ensures
        eqm(
            p,
            sum(|x: int| e[x] * q(x), 0, size),
            sum(
                |j: int| row[j].1 * sum(|x: int| w(row[j].0, x) * q(x), 0, size),
                0,
                row.len() as int,
            ),
        ),
{
    let n = row.len() as int;
    let h = |x: int, j: int| (row[j].1 * w(row[j].0, x)) * q(x);
    let left = |x: int| e[x] * q(x);
    let rows = |x: int| sum(|j: int| h(x, j), 0, n);
    assert forall|x: int| 0 <= x < size implies eqm(p, #[trigger] left(x), rows(x)) by {
        let inner = |j: int| row[j].1 * w(row[j].0, x);
        assert(eqm(p, e[x], sum(inner, 0, n)));
        lemma_eqm_mul(p, e[x], sum(inner, 0, n), q(x), q(x));
        let scaled = |j: int| q(x) * inner(j);
        lemma_sum_scale(q(x), inner, 0, n);
        let row_x = |j: int| h(x, j);
        assert forall|j: int| 0 <= j < n implies #[trigger] row_x(j) == scaled(j) by {
            let (a, b) = (inner(j), q(x));
            assert(a * b == b * a) by (nonlinear_arith);
        }
        lemma_sum_ext(row_x, scaled, 0, n);
        let (a, b) = (sum(inner, 0, n), q(x));
        assert(a * b == b * a) by (nonlinear_arith);
    }
    lemma_sum_eqm(p, left, rows, 0, size);
    lemma_sum_swap(h, 0, size, 0, n);
    let cols = |j: int| sum(|x: int| h(x, j), 0, size);
    let right = |j: int| row[j].1 * sum(|x: int| w(row[j].0, x) * q(x), 0, size);
    assert forall|j: int| 0 <= j < n implies #[trigger] cols(j) == right(j) by {
        let c = row[j].1;
        let inner = |x: int| w(row[j].0, x) * q(x);
        let scaled = |x: int| c * inner(x);
        lemma_sum_scale(c, inner, 0, size);
        let col = |x: int| h(x, j);
        assert forall|x: int| 0 <= x < size implies #[trigger] col(x) == scaled(x) by {
            let (a, b) = (w(row[j].0, x), q(x));
            assert((c * a) * b == c * (a * b)) by (nonlinear_arith);
        }
        lemma_sum_ext(col, scaled, 0, size);
    }
    lemma_sum_ext(cols, right, 0, n);
}

} // verus!
