//! The queries of a batch opening, grouped by polynomial and by point.

use crate::arithmetic::dense::{
    copy_slice, index_bits, lemma_power_below_word, lemma_vars_below_word, same_elements,
    DenseMultilinearExtension,
};
use crate::arithmetic::virtual_polynomial::{
    same_allocation, wrong_multiplicand_text, VirtualPolynomial,
};
use crate::errors::PCSError;
use crate::field::{vals, PrimeField};
use crate::math::grouping::{
    distinct_keys, groups, lemma_groups_step, lemma_numbered_push, numbered, occurs, queries_total,
    row_total, rows_below, rows_total,
};
use crate::math::modular::{
    eqm, eqm_seq, lemma_eqm_add, lemma_eqm_mul, lemma_eqm_residue, lemma_eqm_seq_same,
};
use crate::math::multilinear::{eq_at, eq_points, lemma_mle_eqm, lemma_mle_weighted_sum, mle};
use crate::math::sums::{lemma_sum_eqm, lemma_sum_ext, lemma_sum_scale, lemma_sum_zero, sum};
use crate::math::terms::{
    cube_sum, lemma_pair_appended, lemma_weighted_table, pair_sum, terms_value,
};
use crate::pcs::multilinear_kzg::batching::{
    build_weighted_eq_mle, coefficient_of, fused_scaled_sum_dense_mles, has_no_table, is_bad,
    point_of, scaled_sum_at, table_fits, weight_at, weights_at,
};
use crate::pcs::multilinear_kzg::util::eq_eval;
use std::sync::Arc;
use vstd::arithmetic::div_mod::{lemma_mod_twice, lemma_small_mod};
use vstd::arithmetic::power2::pow2;
use vstd::prelude::*;

verus! {

/// Polynomials and points, each listed once, and how the queries weigh each
/// pair.
pub struct OpeningPlan<F: PrimeField> {
    /// The number of variables of the first polynomial.
    pub num_var: usize,
    /// The polynomials, each allocation once, as they first occur.
    pub polynomials: Vec<Arc<DenseMultilinearExtension<F>>>,
    /// The points, each once, as they first occur.
    pub points: Vec<Vec<F>>,
    /// The place in `polynomials` of each query's polynomial.
    pub poly_indices: Vec<usize>,
    /// The place in `points` of each query's point.
    pub point_indices: Vec<usize>,
    /// For each polynomial, places of points and their weights: the sum of the
    /// weights of the queries of that polynomial at that point.
    pub coefficients: Vec<Vec<(usize, F)>>,
}

pub open spec fn places(s: Seq<usize>) -> Seq<int> {
    Seq::new(s.len(), |i: int| s[i] as int)
}

/// A row of weights as integers.
pub open spec fn row_of<F: PrimeField>(row: Seq<(usize, F)>) -> Seq<(int, int)> {
    Seq::new(row.len(), |j: int| (row[j].0 as int, row[j].1.val()))
}

pub open spec fn rows_of<F: PrimeField>(rows: Seq<Vec<(usize, F)>>) -> Seq<Seq<(int, int)>> {
    Seq::new(rows.len(), |u: int| row_of(rows[u]@))
}

/// How many of the first `m` queries are at the point at place `d`.
pub open spec fn queries_at(ds: Seq<int>, d: int, m: int) -> int {
    sum(
        |i: int|
            if ds[i] == d {
                1int
            } else {
                0
            },
        0,
        m,
    )
}

/// 1 for 1, and 0 for any other number.
pub open spec fn is_one(n: int) -> int {
    if n == 1 {
        1
    } else {
        0
    }
}

/// The smallest of three numbers.
pub open spec fn least(a: int, b: int, c: int) -> int {
    if a <= b && a <= c {
        a
    } else if b <= c {
        b
    } else {
        c
    }
}

impl<F: PrimeField> OpeningPlan<F> {
    pub open spec fn rows(self) -> Seq<Seq<(int, int)>> {
        rows_of(self.coefficients@)
    }

    /// The point at place `d`.
    pub open spec fn point(self, d: int) -> Seq<int> {
        vals(self.points@[d]@)
    }

    pub open spec fn wf(self) -> bool {
        &&& self.num_var < usize::BITS
        &&& self.coefficients@.len() == self.polynomials@.len()
        &&& forall|u: int|
            0 <= u < self.polynomials@.len() ==> (#[trigger] self.polynomials@[u]).wf()
        &&& forall|u: int|
            0 <= u < self.polynomials@.len() ==> distinct_keys(#[trigger] self.rows()[u])
        &&& forall|u: int, j: int|
            0 <= u < self.polynomials@.len() && 0 <= j < self.coefficients@[u]@.len() ==> (
            #[trigger] self.coefficients@[u]@[j]).0 < self.points@.len()
    }

    /// Query `i` is about the polynomial and the point that its places name.
    pub open spec fn places_queries(
        self,
        polynomials: Seq<Arc<DenseMultilinearExtension<F>>>,
        points: Seq<Vec<F>>,
    ) -> bool {
        &&& self.num_var == polynomials[0].num_vars
        &&& self.poly_indices@.len() == polynomials.len()
        &&& numbered(places(self.poly_indices@), self.polynomials@.len() as int)
        &&& forall|i: int|
            0 <= i < polynomials.len() ==> *self.polynomials@[(
            #[trigger] self.poly_indices@[i]) as int] == *polynomials[i]
        &&& self.point_indices@.len() == points.len()
        &&& numbered(places(self.point_indices@), self.points@.len() as int)
        &&& forall|i: int|
            0 <= i < points.len() ==> self.point((#[trigger] self.point_indices@[i]) as int)
                == vals(points[i]@)
        &&& forall|d: int, e: int|
            0 <= d < e < self.points@.len() ==> #[trigger] self.point(d) != #[trigger] self.point(e)
    }

    /// The plan of the queries `(polynomials[i], points[i])` with the weights
    /// `weights[i]`.
    pub open spec fn plans(
        self,
        polynomials: Seq<Arc<DenseMultilinearExtension<F>>>,
        points: Seq<Vec<F>>,
        weights: Seq<F>,
    ) -> bool {
        &&& self.wf()
        &&& self.places_queries(polynomials, points)
        &&& groups(
            F::modulus(),
            self.rows(),
            vals(weights),
            places(self.poly_indices@),
            places(self.point_indices@),
            least(polynomials.len() as int, points.len() as int, weights.len() as int),
        )
    }

    /// The polynomial at place `u`, as a table.
    pub open spec fn table(self, u: int) -> Seq<int> {
        self.polynomials@[u].table()
    }

    /// What the point at place `d` adds at the vertex `x`.
    pub open spec fn weight(self) -> spec_fn(int, int) -> int {
        |d: int, x: int| weight_at(self.num_var as nat, self.point(d), x)
    }

    /// What the point at place `d` adds.
    pub open spec fn weight_table(self, d: int) -> Seq<int> {
        weight_table(self.num_var as nat, self.point(d))
    }

    /// The sum over the hypercube of a polynomial times what a point adds.
    pub open spec fn pair_sums(self) -> spec_fn(int, int) -> int {
        |u: int, d: int|
            pair_sum(self.table(u), self.weight_table(d), pow2(self.num_var as nat) as int)
    }

    /// The value at `at` of a polynomial times what a point adds.
    pub open spec fn pair_values(self, at: Seq<int>) -> spec_fn(int, int) -> int {
        |u: int, d: int| mle(self.table(u), at) * mle(self.weight_table(d), at)
    }

    /// Entry `j` of row `u` counts, and its point has no equality table.
    pub open spec fn lacks_table(self, u: int, j: int) -> bool {
        &&& 0 <= u < self.rows().len()
        &&& 0 <= j < self.rows()[u].len()
        &&& self.rows()[u][j].1 != 0
        &&& has_no_table(self.num_var as nat, self.point(self.rows()[u][j].0))
    }

    /// Some table that is needed cannot be built. If there is one point only,
    /// its table is built in any case.
    pub open spec fn lacks_some_table(self) -> bool {
        if self.points@.len() == 1 {
            has_no_table(self.num_var as nat, self.point(0))
        } else {
            exists|u: int, j: int| #[trigger] self.lacks_table(u, j)
        }
    }

    /// The tables that are needed fit in the table of `num_var` variables.
    pub open spec fn tables_fit(self) -> bool {
        if self.points@.len() == 1 {
            has_no_table(self.num_var as nat, self.point(0)) || table_fits(
                self.num_var as nat,
                self.point(0),
            )
        } else {
            forall|u: int, j: int|
                0 <= u < self.rows().len() && 0 <= j < self.rows()[u].len() && (
                #[trigger] self.rows()[u][j]).1 != 0 ==> has_no_table(
                    self.num_var as nat,
                    self.point(self.rows()[u][j].0),
                ) || table_fits(self.num_var as nat, self.point(self.rows()[u][j].0))
        }
    }

    /// Polynomial `u` becomes a multiplicand. If there is one point only, it
    /// needs a weight for that.
    pub open spec fn is_multiplicand(self, u: int) -> bool {
        &&& 0 <= u < self.polynomials@.len()
        &&& self.points@.len() == 1 ==> self.rows()[u].len() > 0 && self.rows()[u][0].1 != 0
    }

    /// Some polynomial becomes a multiplicand.
    pub open spec fn has_multiplicand(self) -> bool {
        exists|u: int| #[trigger] self.is_multiplicand(u)
    }

    /// Polynomial `u` becomes a multiplicand and has the wrong number of
    /// variables.
    pub open spec fn is_misfit(self, u: int) -> bool {
        self.is_multiplicand(u) && self.polynomials@[u].num_vars != self.num_var
    }

    /// `u` is the first misfit.
    pub open spec fn is_first_misfit(self, u: int) -> bool {
        self.is_misfit(u) && forall|v: int| 0 <= v < u ==> !#[trigger] self.is_misfit(v)
    }

    /// `vp` is the sum of the products of polynomials and points that the
    /// weights call for: over the hypercube and, as a polynomial, at every
    /// point.
    pub open spec fn is_query_sum(self, vp: VirtualPolynomial<F>) -> bool {
        &&& eqm(
            F::modulus(),
            cube_sum(vp.tables(), vp.terms(), pow2(self.num_var as nat) as int),
            rows_total(self.rows(), self.pair_sums()),
        )
        &&& forall|at: Seq<int>|
            at.len() == self.num_var ==> eqm(
                F::modulus(),
                #[trigger] terms_value(vp.tables(), vp.terms(), at),
                rows_total(self.rows(), self.pair_values(at)),
            )
    }

    /// `e` is the table of what the point at place 0 adds.
    pub open spec fn is_shared_table(self, e: DenseMultilinearExtension<F>) -> bool {
        &&& e.wf()
        &&& e.num_vars == self.num_var
        &&& forall|x: int|
            0 <= x < pow2(self.num_var as nat) ==> eqm(
                F::modulus(),
                #[trigger] e.table()[x],
                self.weight()(0, x),
            )
    }

    /// `e` is the table of what row `u` adds.
    pub open spec fn is_row_table(self, u: int, e: DenseMultilinearExtension<F>) -> bool {
        &&& e.wf()
        &&& e.num_vars == self.num_var
        &&& forall|x: int|
            0 <= x < pow2(self.num_var as nat) ==> eqm(
                F::modulus(),
                #[trigger] e.table()[x],
                sum(
                    |j: int| self.rows()[u][j].1 * self.weight()(self.rows()[u][j].0, x),
                    0,
                    self.rows()[u].len() as int,
                ),
            )
    }

    /// The equality tables of the plan: if there is one point only, its table,
    /// else a table for each polynomial.
    pub open spec fn are_tables(self, tables: Seq<Arc<DenseMultilinearExtension<F>>>) -> bool {
        if self.points@.len() == 1 {
            tables.len() == 1 && self.is_shared_table(*tables[0])
        } else {
            &&& tables.len() == self.polynomials@.len()
            &&& forall|u: int|
                0 <= u < tables.len() ==> self.is_row_table(u, *#[trigger] tables[u])
        }
    }

    /// The outcome of multiplying the polynomials with the tables.
    pub open spec fn is_product_sum(self, r: Result<VirtualPolynomial<F>, PCSError>) -> bool {
        match r {
            Ok(vp) => {
                &&& forall|u: int| !#[trigger] self.is_misfit(u)
                &&& vp.wf()
                &&& vp.aux_info.num_variables == self.num_var
                &&& vp.aux_info.max_degree == if self.has_multiplicand() {
                    2int
                } else {
                    0
                }
                &&& self.is_query_sum(vp)
            },
            Err(e) => exists|u: int| #[trigger]
                self.is_first_misfit(u) && e.is_arith_error(
                    wrong_multiplicand_text(
                        self.polynomials@[u].num_vars as nat,
                        self.num_var as nat,
                    ),
                ),
        }
    }

    /// `vp` is the sum of the products that the first `m` rows call for.
    spec fn is_partial_sum(self, vp: VirtualPolynomial<F>, m: int) -> bool {
        &&& eqm(
            F::modulus(),
            cube_sum(vp.tables(), vp.terms(), pow2(self.num_var as nat) as int),
            rows_below(self.rows(), self.pair_sums(), m),
        )
        &&& forall|at: Seq<int>|
            at.len() == self.num_var ==> eqm(
                F::modulus(),
                #[trigger] terms_value(vp.tables(), vp.terms(), at),
                rows_below(self.rows(), self.pair_values(at), m),
            )
    }

    /// One of the first `m` entries of row `u` counts and is for `point`.
    spec fn has_entry(self, u: int, m: int, point: Seq<int>) -> bool {
        exists|k: int|
            0 <= k < m && (#[trigger] self.rows()[u][k]).1 != 0 && self.point(self.rows()[u][k].0)
                == point
    }

    /// The weighted sum of the tables of row `u`.
    fn row_table(&self, u: usize) -> (r: Result<Arc<DenseMultilinearExtension<F>>, PCSError>)
        requires
            self.wf(),
            self.tables_fit(),
            self.points@.len() != 1,
            u < self.polynomials@.len(),
        ensures
            r is Err <==> exists|j: int| #[trigger] self.lacks_table(u as int, j),
            r matches Err(e) ==> e.is_invalid_parameters("Invalid parameters: r length is 0"@),
            r matches Ok(e) ==> self.is_row_table(u as int, *e),
    {
        let ghost p = F::modulus();
        let ghost n = self.num_var as nat;
        let ghost row = self.rows()[u as int];
        proof {
            F::lemma_modulus();
        }
        let entries = &self.coefficients[u];
        let mut weighted: Vec<(F, &[F])> = Vec::new();
        let mut j: usize = 0;
        while j < entries.len()
            invariant
                0 <= j <= entries@.len(),
                self.wf(),
                u < self.polynomials@.len(),
                n == self.num_var,
                entries@ == self.coefficients@[u as int]@,
                row == self.rows()[u as int],
                forall|i: int|
                    0 <= i < weighted@.len() ==> #[trigger] coefficient_of(weighted@, i) != 0,
                forall|i: int|
                    0 <= i < weighted@.len() ==> self.has_entry(
                        u as int,
                        j as int,
                        #[trigger] point_of(weighted@, i),
                    ),
                forall|k: int|
                    0 <= k < j && (#[trigger] row[k]).1 != 0 ==> exists|i: int|
                        0 <= i < weighted@.len() && #[trigger] point_of(weighted@, i)
                            == self.point(row[k].0),
                forall|x: int| #[trigger]
                    weights_at(n, weighted@, x, weighted@.len() as int) == sum(
                        |k: int| row[k].1 * self.weight()(row[k].0, x),
                        0,
                        j as int,
                    ),
            decreases entries.len() - j,
        {
            let (d, coeff) = entries[j];
            let ghost before = weighted@;
            let ghost m = before.len() as int;
            assert(row[j as int].0 == d && row[j as int].1 == coeff.val());
            assert(self.coefficients@[u as int]@[j as int].0 < self.points@.len());
            if !coeff.is_zero() {
                weighted.push((coeff, self.points[d].as_slice()));
                proof {
                    assert(point_of(weighted@, m) == self.point(row[j as int].0));
                    assert forall|i: int| 0 <= i < before.len() implies #[trigger] point_of(
                        weighted@,
                        i,
                    ) == point_of(before, i) && coefficient_of(weighted@, i) == coefficient_of(
                        before,
                        i,
                    ) by {}
                    assert forall|k: int| 0 <= k < j + 1 && (#[trigger] row[k]).1 != 0 implies (
                    exists|i: int|
                        0 <= i < weighted@.len() && #[trigger] point_of(weighted@, i)
                            == self.point(row[k].0)) by {
                        if k < j {
                            let i = choose|i: int|
                                0 <= i < before.len() && #[trigger] point_of(before, i)
                                    == self.point(row[k].0);
                            assert(point_of(weighted@, i) == self.point(row[k].0));
                        } else {
                            assert(point_of(weighted@, m) == self.point(row[k].0));
                        }
                    }
                }
            }
            proof {
                assert forall|i: int| 0 <= i < weighted@.len() implies #[trigger] coefficient_of(
                    weighted@,
                    i,
                ) != 0 by {
                    if i < m {
                        assert(coefficient_of(before, i) != 0);
                    }
                }
                assert forall|i: int| 0 <= i < weighted@.len() implies self.has_entry(
                    u as int,
                    j + 1,
                    #[trigger] point_of(weighted@, i),
                ) by {
                    if i < m {
                        assert(self.has_entry(u as int, j as int, point_of(before, i)));
                        let k = choose|k: int|
                            0 <= k < j && (#[trigger] self.rows()[u as int][k]).1 != 0
                                && self.point(self.rows()[u as int][k].0) == point_of(before, i);
                        assert(self.rows()[u as int][k].1 != 0);
                    } else {
                        assert(self.rows()[u as int][j as int].1 != 0);
                    }
                }
                assert forall|x: int| #[trigger]
                    weights_at(n, weighted@, x, weighted@.len() as int) == sum(
                        |k: int| row[k].1 * self.weight()(row[k].0, x),
                        0,
                        j + 1,
                    ) by {
                    let f = |i: int|
                        coefficient_of(weighted@, i) * weight_at(n, point_of(weighted@, i), x);
                    let g = |i: int|
                        coefficient_of(before, i) * weight_at(n, point_of(before, i), x);
                    lemma_sum_ext(f, g, 0, m);
                    assert(weights_at(n, before, x, m) == sum(
                        |k: int| row[k].1 * self.weight()(row[k].0, x),
                        0,
                        j as int,
                    ));
                    assert(0 * self.weight()(row[j as int].0, x) == 0);
                }
            }
            j = j + 1;
        }
        proof {
            assert(index_bits(self.num_var) == n) by {
                let v = self.num_var;
                assert(v < 64 ==> (v as u32) == v) by (bit_vector);
            }
            assert forall|i: int|
                0 <= i < weighted@.len() && #[trigger] coefficient_of(weighted@, i) != 0 && (forall|
                    k: int,
                |
                    0 <= k <= i ==> !#[trigger] is_bad(n, weighted@, k)) implies table_fits(
                n,
                point_of(weighted@, i),
            ) by {
                assert(!is_bad(n, weighted@, i));
                assert(self.has_entry(u as int, row.len() as int, point_of(weighted@, i)));
                let k = choose|k: int|
                    0 <= k < row.len() && (#[trigger] self.rows()[u as int][k]).1 != 0
                        && self.point(self.rows()[u as int][k].0) == point_of(weighted@, i);
                assert(self.rows()[u as int][k].1 != 0);
            }
        }
        let r = build_weighted_eq_mle(self.num_var, weighted.as_slice());
        let ghost result = r;
        proof {
            if result is Err {
                let i = choose|i: int| #[trigger] is_bad(n, weighted@, i);
                assert(coefficient_of(weighted@, i) != 0);
                assert(self.has_entry(u as int, row.len() as int, point_of(weighted@, i)));
                let k = choose|k: int|
                    0 <= k < row.len() && (#[trigger] self.rows()[u as int][k]).1 != 0
                        && self.point(self.rows()[u as int][k].0) == point_of(weighted@, i);
                assert(self.lacks_table(u as int, k));
            } else {
                assert forall|k: int| !#[trigger] self.lacks_table(u as int, k) by {
                    if self.lacks_table(u as int, k) {
                        assert(row[k].1 != 0);
                        let i = choose|i: int|
                            0 <= i < weighted@.len() && #[trigger] point_of(weighted@, i)
                                == self.point(row[k].0);
                        assert(coefficient_of(weighted@, i) != 0);
                        assert(is_bad(n, weighted@, i));
                    }
                }
                let table = result->Ok_0.table();
                assert forall|x: int| 0 <= x < pow2(n) implies eqm(
                    p,
                    #[trigger] table[x],
                    sum(|k: int| row[k].1 * self.weight()(row[k].0, x), 0, row.len() as int),
                ) by {
                    let w = weights_at(n, weighted@, x, weighted@.len() as int);
                    assert(table[x] == w % p);
                    lemma_eqm_residue(p, w);
                }
            }
        }
        r
    }

    /// A table that is congruent to what row `u` adds: its products with the
    /// polynomial `u` are those that the row calls for.
    proof fn lemma_row_pairs(self, u: int, e: Seq<int>, at: Seq<int>)
        requires
            0 <= u < self.rows().len(),
            e.len() == pow2(self.num_var as nat),
            at.len() == self.num_var,
            forall|x: int|
                0 <= x < pow2(self.num_var as nat) ==> eqm(
                    F::modulus(),
                    #[trigger] e[x],
                    sum(
                        |j: int| self.rows()[u][j].1 * self.weight()(self.rows()[u][j].0, x),
                        0,
                        self.rows()[u].len() as int,
                    ),
                ),
        ensures
            eqm(
                F::modulus(),
                pair_sum(self.table(u), e, pow2(self.num_var as nat) as int),
                row_total(self.rows()[u], self.pair_sums(), u),
            ),
            eqm(
                F::modulus(),
                mle(self.table(u), at) * mle(e, at),
                row_total(self.rows()[u], self.pair_values(at), u),
            ),
    {
        F::lemma_modulus();
        let p = F::modulus();
        let n = self.num_var as nat;
        let size = pow2(n) as int;
        let row = self.rows()[u];
        let len = row.len() as int;
        let w = self.weight();
        let t = self.table(u);
        // Over the hypercube.
        let q = |x: int| t[x];
        lemma_weighted_table(p, row, w, e, q, size);
        let a = |x: int| e[x] * q(x);
        let b = |x: int| t[x] * e[x];
        assert forall|x: int| 0 <= x < size implies #[trigger] a(x) == b(x) by {
            let (y, z) = (e[x], t[x]);
            assert(y * z == z * y) by (nonlinear_arith);
        }
        lemma_sum_ext(a, b, 0, size);
        let f = |j: int| row[j].1 * sum(|x: int| w(row[j].0, x) * q(x), 0, size);
        let g = |j: int| row[j].1 * self.pair_sums()(u, row[j].0);
        assert forall|j: int| 0 <= j < len implies #[trigger] f(j) == g(j) by {
            let d = row[j].0;
            let wt = self.weight_table(d);
            let c = |x: int| w(d, x) * q(x);
            let h = |x: int| t[x] * wt[x];
            assert forall|x: int| 0 <= x < size implies #[trigger] c(x) == h(x) by {
                let (y, z) = (w(d, x), t[x]);
                assert(y * z == z * y) by (nonlinear_arith);
            }
            lemma_sum_ext(c, h, 0, size);
        }
        lemma_sum_ext(f, g, 0, len);
        // At a point.
        let q = |x: int| eq_at(at, x);
        let m = mle(t, at);
        lemma_weighted_table(p, row, w, e, q, size);
        lemma_mle_weighted_sum(e, at);
        let a = |x: int| e[x] * q(x);
        let b = |x: int| e[x] * eq_at(at, x);
        lemma_sum_ext(a, b, 0, size);
        let f = |j: int| row[j].1 * sum(|x: int| w(row[j].0, x) * q(x), 0, size);
        lemma_eqm_mul(p, m, m, mle(e, at), sum(f, 0, len));
        lemma_sum_scale(m, f, 0, len);
        let scaled = |j: int| m * f(j);
        let g = |j: int| row[j].1 * self.pair_values(at)(u, row[j].0);
        assert forall|j: int| 0 <= j < len implies #[trigger] scaled(j) == g(j) by {
            let d = row[j].0;
            let wt = self.weight_table(d);
            lemma_mle_weighted_sum(wt, at);
            let c = |x: int| w(d, x) * q(x);
            let h = |x: int| wt[x] * eq_at(at, x);
            lemma_sum_ext(c, h, 0, size);
            let (y, z) = (row[j].1, mle(wt, at));
            assert(m * (y * z) == y * (m * z)) by (nonlinear_arith);
        }
        lemma_sum_ext(scaled, g, 0, len);
    }

    /// The virtual polynomial whose sum over the hypercube is the weighted sum
    /// of the queries' values.
    pub fn sum_check_polynomial(&self) -> (r: Result<VirtualPolynomial<F>, PCSError>)
        requires
            self.wf(),
            self.tables_fit(),
        ensures
            r is Ok <==> !self.lacks_some_table() && forall|u: int| !#[trigger] self.is_misfit(u),
            r matches Err(e) ==> if self.lacks_some_table() {
                e.is_invalid_parameters("Invalid parameters: r length is 0"@)
            } else {
                exists|u: int| #[trigger]
                    self.is_first_misfit(u) && e.is_arith_error(
                        wrong_multiplicand_text(
                            self.polynomials@[u].num_vars as nat,
                            self.num_var as nat,
                        ),
                    )
            },
            r matches Ok(vp) ==> {
                &&& vp.wf()
                &&& vp.aux_info.num_variables == self.num_var
                &&& vp.aux_info.max_degree == if self.has_multiplicand() {
                    2int
                } else {
                    0
                }
                &&& self.is_query_sum(vp)
            },
    {
        let tables = match self.equality_tables() {
            Ok(tables) => tables,
            Err(e) => {
                return Err(e);
            },
        };
        self.product_sum(tables.as_slice())
    }

    /// Builds the equality tables.
    pub fn equality_tables(&self) -> (r: Result<Vec<Arc<DenseMultilinearExtension<F>>>, PCSError>)
        requires
            self.wf(),
            self.tables_fit(),
        ensures
            r is Err <==> self.lacks_some_table(),
            r matches Err(e) ==> e.is_invalid_parameters("Invalid parameters: r length is 0"@),
            r matches Ok(tables) ==> self.are_tables(tables@),
    {
        let mut tables: Vec<Arc<DenseMultilinearExtension<F>>> = Vec::new();
        if self.points.len() == 1 {
            match self.shared_table() {
                Ok(table) => {
                    tables.push(table);
                },
                Err(e) => {
                    return Err(e);
                },
            }
            return Ok(tables);
        }
        let mut u: usize = 0;
        while u < self.polynomials.len()
            invariant
                0 <= u <= self.polynomials@.len(),
                self.wf(),
                self.tables_fit(),
                self.points@.len() != 1,
                tables@.len() == u,
                forall|v: int, j: int| 0 <= v < u ==> !#[trigger] self.lacks_table(v, j),
                forall|v: int| 0 <= v < u ==> self.is_row_table(v, *#[trigger] tables@[v]),
            decreases self.polynomials.len() - u,
        {
            match self.row_table(u) {
                Ok(table) => {
                    tables.push(table);
                },
                Err(e) => {
                    let ghost j = choose|j: int| #[trigger] self.lacks_table(u as int, j);
                    assert(self.lacks_table(u as int, j));
                    return Err(e);
                },
            }
            u = u + 1;
        }
        Ok(tables)
    }

    /// The table of the only point.
    fn shared_table(&self) -> (r: Result<Arc<DenseMultilinearExtension<F>>, PCSError>)
        requires
            self.wf(),
            self.tables_fit(),
            self.points@.len() == 1,
        ensures
            r is Err <==> has_no_table(self.num_var as nat, self.point(0)),
            r matches Err(e) ==> e.is_invalid_parameters("Invalid parameters: r length is 0"@),
            r matches Ok(e) ==> self.is_shared_table(*e),
    {
        let ghost p = F::modulus();
        let ghost n = self.num_var as nat;
        proof {
            F::lemma_modulus();
            assert(index_bits(self.num_var) == n) by {
                let v = self.num_var;
                assert(v < 64 ==> (v as u32) == v) by (bit_vector);
            }
        }
        let mut weighted: Vec<(F, &[F])> = Vec::with_capacity(1);
        weighted.push((F::one(), self.points[0].as_slice()));
        proof {
            assert(point_of(weighted@, 0) == self.point(0));
            assert(coefficient_of(weighted@, 0) == 1);
            assert forall|i: int| #[trigger] is_bad(n, weighted@, i) implies has_no_table(
                n,
                self.point(0),
            ) by {
                assert(i == 0);
            }
            assert(has_no_table(n, self.point(0)) ==> is_bad(n, weighted@, 0));
            assert(forall|i: int| 0 <= i < 1 ==> !#[trigger] is_bad(n, weighted@, i) ==> table_fits(
                n,
                point_of(weighted@, i),
            ));
        }
        let r = build_weighted_eq_mle(self.num_var, weighted.as_slice());
        let ghost result = r;
        proof {
            if result is Ok {
                let e = result->Ok_0.table();
                assert(!is_bad(n, weighted@, 0));
                assert forall|x: int| 0 <= x < e.len() implies eqm(
                    p,
                    #[trigger] e[x],
                    self.weight()(0, x),
                ) by {
                    let w = weight_at(n, self.point(0), x);
                    let f = |i: int|
                        coefficient_of(weighted@, i) * weight_at(n, point_of(weighted@, i), x);
                    assert(sum(f, 0, 1) == sum(f, 0, 0) + f(0));
                    assert(1 * w == w);
                    assert(e[x] == weights_at(n, weighted@, x, 1) % p);
                    lemma_eqm_residue(p, w);
                }
            }
        }
        r
    }

    /// Multiplies the polynomials with the tables, and adds the products up.
    pub fn product_sum(
        &self,
        tables: &[Arc<DenseMultilinearExtension<F>>],
    ) -> (r: Result<VirtualPolynomial<F>, PCSError>)
        requires
            self.wf(),
            self.are_tables(tables@),
        ensures
            self.is_product_sum(r),
    {
        if self.points.len() == 1 {
            self.product_sum_at_one_point(&tables[0])
        } else {
            self.product_sum_at_points(tables)
        }
    }

    /// Polynomial `u` with the table `e`, added to the sum of the first `u`
    /// rows.
    proof fn lemma_partial_step(
        self,
        before: VirtualPolynomial<F>,
        after: VirtualPolynomial<F>,
        u: int,
        c: int,
        e: Seq<int>,
    )
        requires
            0 <= u < self.rows().len(),
            self.is_partial_sum(before, u),
            forall|size: int| #[trigger]
                cube_sum(after.tables(), after.terms(), size) == cube_sum(
                    before.tables(),
                    before.terms(),
                    size,
                ) + c * pair_sum(self.table(u), e, size),
            forall|at: Seq<int>| #[trigger]
                terms_value(after.tables(), after.terms(), at) == terms_value(
                    before.tables(),
                    before.terms(),
                    at,
                ) + c * (mle(self.table(u), at) * mle(e, at)),
            eqm(
                F::modulus(),
                c * pair_sum(self.table(u), e, pow2(self.num_var as nat) as int),
                row_total(self.rows()[u], self.pair_sums(), u),
            ),
            forall|at: Seq<int>|
                at.len() == self.num_var ==> eqm(
                    F::modulus(),
                    c * (mle(self.table(u), at) * #[trigger] mle(e, at)),
                    row_total(self.rows()[u], self.pair_values(at), u),
                ),
        ensures
            self.is_partial_sum(after, u + 1),
    {
        F::lemma_modulus();
        let p = F::modulus();
        let size = pow2(self.num_var as nat) as int;
        let rows = self.rows();
        lemma_eqm_add(
            p,
            cube_sum(before.tables(), before.terms(), size),
            rows_below(rows, self.pair_sums(), u),
            c * pair_sum(self.table(u), e, size),
            row_total(rows[u], self.pair_sums(), u),
        );
        assert forall|at: Seq<int>| at.len() == self.num_var implies eqm(
            p,
            #[trigger] terms_value(after.tables(), after.terms(), at),
            rows_below(rows, self.pair_values(at), u + 1),
        ) by {
            assert(eqm(
                p,
                terms_value(before.tables(), before.terms(), at),
                rows_below(rows, self.pair_values(at), u),
            ));
            assert(eqm(
                p,
                c * (mle(self.table(u), at) * mle(e, at)),
                row_total(rows[u], self.pair_values(at), u),
            ));
            lemma_eqm_add(
                p,
                terms_value(before.tables(), before.terms(), at),
                rows_below(rows, self.pair_values(at), u),
                c * (mle(self.table(u), at) * mle(e, at)),
                row_total(rows[u], self.pair_values(at), u),
            );
        }
    }

    /// The virtual polynomial without products is the sum of no rows.
    proof fn lemma_empty_sum(self, vp: VirtualPolynomial<F>)
        requires
            vp.products@.len() == 0,
        ensures
            self.is_partial_sum(vp, 0),
    {
        assert(vp.terms().len() == 0);
    }

    /// The sum for queries at one point: all products share its table.
    fn product_sum_at_one_point(
        &self,
        shared: &Arc<DenseMultilinearExtension<F>>,
    ) -> (r: Result<VirtualPolynomial<F>, PCSError>)
        requires
            self.wf(),
            self.points@.len() == 1,
            self.is_shared_table(**shared),
        ensures
            self.is_product_sum(r),
    {
        let ghost p = F::modulus();
        let ghost n = self.num_var as nat;
        let ghost size = pow2(n) as int;
        let ghost rows = self.rows();
        proof {
            F::lemma_modulus();
        }
        let ghost e = shared.table();
        let ghost wt = self.weight_table(0);
        assert forall|x: int| 0 <= x < e.len() implies eqm(p, #[trigger] e[x], wt[x]) by {
            assert(eqm(p, shared.table()[x], self.weight()(0, x)));
        }
        let mut vp = VirtualPolynomial::new(self.num_var);
        proof {
            self.lemma_empty_sum(vp);
        }
        let mut u: usize = 0;
        while u < self.polynomials.len()
            invariant
                0 <= u <= self.polynomials@.len(),
                self.wf(),
                self.points@.len() == 1,
                p == F::modulus(),
                p > u64::MAX,
                n == self.num_var,
                size == pow2(n),
                rows == self.rows(),
                wt == self.weight_table(0),
                e == shared.table(),
                shared.wf(),
                shared.num_vars == n,
                eqm_seq(p, e, wt),
                vp.wf(),
                vp.aux_info.num_variables == n,
                vp.aux_info.max_degree == if exists|v: int|
                    0 <= v < u && #[trigger] self.is_multiplicand(v) {
                    2int
                } else {
                    0
                },
                forall|v: int| 0 <= v < u ==> !#[trigger] self.is_misfit(v),
                self.is_partial_sum(vp, u as int),
            decreases self.polynomials.len() - u,
        {
            let entries = &self.coefficients[u];
            let ghost row = rows[u as int];
            proof {
                assert(distinct_keys(self.rows()[u as int]));
                assert(row == row_of(entries@));
                if row.len() > 1 {
                    assert(self.coefficients@[u as int]@[0].0 < 1);
                    assert(self.coefficients@[u as int]@[1].0 < 1);
                    assert(row[0].0 != row[1].0);
                }
                if row.len() > 0 {
                    assert(self.coefficients@[u as int]@[0].0 < 1);
                    assert(row[0].0 == 0);
                }
            }
            let coeff = if entries.len() > 0 {
                entries[0].1
            } else {
                F::zero()
            };
            let ghost c = coeff.val();
            let ghost before = vp;
            if !coeff.is_zero() {
                assert(self.is_multiplicand(u as int));
                assert(self.polynomials@[u as int].wf());
                match add_pair(&mut vp, &self.polynomials[u], shared, coeff) {
                    Ok(_) => {},
                    Err(err) => {
                        assert(self.is_misfit(u as int));
                        assert(self.is_first_misfit(u as int));
                        return Err(err);
                    },
                }
            }
            proof {
                let i = u as int;
                let t = self.table(i);
                assert forall|g: spec_fn(int, int) -> int| #[trigger] row_total(row, g, i) == c * g(
                    i,
                    0,
                ) by {
                    let f = |j: int| row[j].1 * g(i, row[j].0);
                    if row.len() == 0 {
                        assert(0 * g(i, 0) == 0);
                    } else {
                        assert(sum(f, 0, 1) == sum(f, 0, 0) + f(0));
                    }
                }
                if c != 0 {
                    let f = |x: int| t[x] * e[x];
                    let g = |x: int| t[x] * wt[x];
                    assert forall|x: int| 0 <= x < size implies eqm(p, #[trigger] f(x), g(x)) by {
                        assert(eqm(p, e[x], wt[x]));
                        lemma_eqm_mul(p, t[x], t[x], e[x], wt[x]);
                    }
                    lemma_sum_eqm(p, f, g, 0, size);
                    lemma_eqm_mul(p, c, c, pair_sum(t, e, size), pair_sum(t, wt, size));
                    assert(row_total(row, self.pair_sums(), i) == c * self.pair_sums()(i, 0));
                    assert forall|at: Seq<int>| at.len() == self.num_var implies eqm(
                        p,
                        c * (mle(t, at) * #[trigger] mle(e, at)),
                        row_total(row, self.pair_values(at), i),
                    ) by {
                        lemma_eqm_seq_same(p, at);
                        lemma_mle_eqm(p, e, wt, at, at);
                        lemma_eqm_mul(p, mle(t, at), mle(t, at), mle(e, at), mle(wt, at));
                        lemma_eqm_mul(p, c, c, mle(t, at) * mle(e, at), mle(t, at) * mle(wt, at));
                        assert(row_total(row, self.pair_values(at), i) == c * self.pair_values(at)(
                            i,
                            0,
                        ));
                    }
                    self.lemma_partial_step(before, vp, i, c, e);
                } else {
                    assert(!self.is_multiplicand(i));
                    assert forall|g: spec_fn(int, int) -> int| #[trigger] row_total(row, g, i)
                        == 0 by {
                        assert(row_total(row, g, i) == c * g(i, 0));
                        assert(0 * g(i, 0) == 0);
                    }
                    assert(row_total(row, self.pair_sums(), i) == 0);
                    assert forall|at: Seq<int>| at.len() == self.num_var implies eqm(
                        p,
                        #[trigger] terms_value(vp.tables(), vp.terms(), at),
                        rows_below(rows, self.pair_values(at), i + 1),
                    ) by {
                        assert(row_total(row, self.pair_values(at), i) == 0);
                    }
                }
            }
            u = u + 1;
        }
        proof {
            assert(forall|v: int| self.is_misfit(v) ==> 0 <= v < u);
            assert(forall|v: int| self.is_multiplicand(v) ==> 0 <= v < u);
        }
        Ok(vp)
    }

    /// The sum for queries at several points: each polynomial has a table of
    /// its own.
    fn product_sum_at_points(
        &self,
        tables: &[Arc<DenseMultilinearExtension<F>>],
    ) -> (r: Result<VirtualPolynomial<F>, PCSError>)
        requires
            self.wf(),
            self.points@.len() != 1,
            self.are_tables(tables@),
        ensures
            self.is_product_sum(r),
    {
        let ghost p = F::modulus();
        let ghost n = self.num_var as nat;
        let ghost rows = self.rows();
        proof {
            F::lemma_modulus();
        }
        let mut vp = VirtualPolynomial::new(self.num_var);
        proof {
            self.lemma_empty_sum(vp);
        }
        let one = F::one();
        let mut u: usize = 0;
        while u < self.polynomials.len()
            invariant
                0 <= u <= self.polynomials@.len(),
                self.wf(),
                self.points@.len() != 1,
                p == F::modulus(),
                p > u64::MAX,
                n == self.num_var,
                rows == self.rows(),
                one.val() == 1,
                tables@.len() == self.polynomials@.len(),
                forall|v: int|
                    0 <= v < tables@.len() ==> self.is_row_table(v, *#[trigger] tables@[v]),
                vp.wf(),
                vp.aux_info.num_variables == n,
                vp.aux_info.max_degree == if u > 0 {
                    2int
                } else {
                    0
                },
                forall|v: int| 0 <= v < u ==> !#[trigger] self.is_misfit(v),
                self.is_partial_sum(vp, u as int),
            decreases self.polynomials.len() - u,
        {
            let ghost before = vp;
            let ghost e = tables@[u as int].table();
            assert(self.is_row_table(u as int, *tables@[u as int]));
            assert(self.polynomials@[u as int].wf());
            match add_pair(&mut vp, &self.polynomials[u], &tables[u], one) {
                Ok(_) => {},
                Err(err) => {
                    assert(self.is_misfit(u as int));
                    assert(self.is_first_misfit(u as int));
                    return Err(err);
                },
            }
            proof {
                let i = u as int;
                let size = pow2(n) as int;
                let row = rows[i];
                let zeros = Seq::new(n, |k: int| 0int);
                self.lemma_row_pairs(i, e, zeros);
                assert(1 * pair_sum(self.table(i), e, size) == pair_sum(self.table(i), e, size));
                assert forall|at: Seq<int>| at.len() == self.num_var implies eqm(
                    p,
                    1 * (mle(self.table(i), at) * #[trigger] mle(e, at)),
                    row_total(row, self.pair_values(at), i),
                ) by {
                    self.lemma_row_pairs(i, e, at);
                    let y = mle(self.table(i), at) * mle(e, at);
                    assert(1 * y == y);
                }
                self.lemma_partial_step(before, vp, i, 1, e);
            }
            u = u + 1;
        }
        proof {
            assert(forall|v: int| self.is_misfit(v) ==> 0 <= v < u);
            if u > 0 {
                assert(self.is_multiplicand(0));
            }
        }
        Ok(vp)
    }

    /// The value at the vertex `x` of polynomial `u` times the equality of
    /// `a2` with the point at place `d`.
    pub open spec fn combined_at(self, a2: Seq<int>, x: int) -> spec_fn(int, int) -> int {
        |u: int, d: int| eq_points(a2, self.point(d)) * self.table(u)[x]
    }

    /// What the first `m` entries of row `u` come to at `a2`: their weights, each
    /// times the equality of `a2` with its point.
    pub open spec fn row_weight(self, a2: Seq<int>, u: int, m: int) -> int {
        sum(
            |j: int| eq_points(a2, self.point(self.rows()[u][j].0)) * self.rows()[u][j].1,
            0,
            m,
        )
    }

    proof fn lemma_row_combined(self, a2: Seq<int>, x: int, u: int)
        ensures
            row_total(self.rows()[u], self.combined_at(a2, x), u) == self.row_weight(
                a2,
                u,
                self.rows()[u].len() as int,
            ) * self.table(u)[x],
    {
        let row = self.rows()[u];
        let t = self.table(u)[x];
        let f = |j: int| eq_points(a2, self.point(row[j].0)) * row[j].1;
        let g = |j: int| row[j].1 * self.combined_at(a2, x)(u, row[j].0);
        let scaled = |j: int| t * f(j);
        assert forall|j: int| 0 <= j < row.len() implies #[trigger] g(j) == scaled(j) by {
            let (e, w) = (eq_points(a2, self.point(row[j].0)), row[j].1);
            assert(w * (e * t) == t * (e * w)) by (nonlinear_arith);
        }
        lemma_sum_ext(g, scaled, 0, row.len() as int);
        lemma_sum_scale(t, f, 0, row.len() as int);
        let s = sum(f, 0, row.len() as int);
        assert(t * s == s * t) by (nonlinear_arith);
    }

    /// A row without a weight comes to nothing.
    proof fn lemma_row_without_weight(self, a2: Seq<int>, u: int)
        requires
            forall|k: int| 0 <= k < self.rows()[u].len() ==> (#[trigger] self.rows()[u][k]).1 == 0,
        ensures
            self.row_weight(a2, u, self.rows()[u].len() as int) == 0,
    {
        let row = self.rows()[u];
        let f = |j: int| eq_points(a2, self.point(row[j].0)) * row[j].1;
        assert forall|j: int| 0 <= j < row.len() implies #[trigger] f(j) == 0 by {
            assert(row[j].1 == 0);
            assert(eq_points(a2, self.point(row[j].0)) * 0 == 0);
        }
        lemma_sum_zero(f, 0, row.len() as int);
    }

    /// The weights of the polynomials in the polynomial to open at `a2`.
    pub fn combined_weights(&self, a2: &[F]) -> (r: Result<Vec<F>, PCSError>)
        requires
            self.wf(),
        ensures
            r is Ok <==> forall|d: int|
                0 <= d < self.points@.len() ==> (#[trigger] self.points@[d])@.len() == a2@.len(),
            r matches Err(e) ==> e.is_invalid_parameters("x and y have different length"@),
            r matches Ok(weights) ==> {
                &&& weights@.len() == self.polynomials@.len()
                &&& forall|u: int|
                    0 <= u < weights@.len() ==> (#[trigger] weights@[u]).val() == self.row_weight(
                        vals(a2@),
                        u,
                        self.rows()[u].len() as int,
                    ) % F::modulus()
            },
    {
        let ghost p = F::modulus();
        let ghost rows = self.rows();
        let ghost at = vals(a2@);
        proof {
            F::lemma_modulus();
            F::lemma_val();
        }
        let mut eq_per_point: Vec<F> = Vec::with_capacity(self.points.len());
        let mut d: usize = 0;
        while d < self.points.len()
            invariant
                0 <= d <= self.points@.len(),
                p == F::modulus(),
                at == vals(a2@),
                eq_per_point@.len() == d,
                forall|k: int| 0 <= k < d ==> (#[trigger] self.points@[k])@.len() == a2@.len(),
                forall|k: int|
                    0 <= k < d ==> (#[trigger] eq_per_point@[k]).val() == eq_points(
                        at,
                        self.point(k),
                    ) % p,
            decreases self.points.len() - d,
        {
            match eq_eval(a2, self.points[d].as_slice()) {
                Ok(value) => {
                    eq_per_point.push(value);
                },
                Err(e) => {
                    assert(self.points@[d as int]@.len() != a2@.len());
                    return Err(e);
                },
            }
            d = d + 1;
        }
        let mut weights: Vec<F> = Vec::with_capacity(self.polynomials.len());
        let mut u: usize = 0;
        while u < self.polynomials.len()
            invariant
                0 <= u <= self.polynomials@.len(),
                self.wf(),
                p == F::modulus(),
                p > u64::MAX,
                forall|x: F| 0 <= #[trigger] x.val() < p,
                rows == self.rows(),
                eq_per_point@.len() == self.points@.len(),
                forall|k: int|
                    0 <= k < self.points@.len() ==> (#[trigger] eq_per_point@[k]).val()
                        == eq_points(at, self.point(k)) % p,
                weights@.len() == u,
                forall|v: int|
                    0 <= v < u ==> (#[trigger] weights@[v]).val() == self.row_weight(
                        at,
                        v,
                        rows[v].len() as int,
                    ) % p,
            decreases self.polynomials.len() - u,
        {
            let entries = &self.coefficients[u];
            let ghost row = rows[u as int];
            assert(row == row_of(entries@));
            let mut coeff = F::zero();
            let mut j: usize = 0;
            while j < entries.len()
                invariant
                    0 <= j <= entries@.len(),
                    self.wf(),
                    u < self.polynomials@.len(),
                    p == F::modulus(),
                    p > u64::MAX,
                    rows == self.rows(),
                    row == rows[u as int],
                    row == row_of(entries@),
                    entries@ == self.coefficients@[u as int]@,
                    eq_per_point@.len() == self.points@.len(),
                    forall|k: int|
                        0 <= k < self.points@.len() ==> (#[trigger] eq_per_point@[k]).val()
                            == eq_points(at, self.point(k)) % p,
                    eqm(p, coeff.val(), self.row_weight(at, u as int, j as int)),
                decreases entries.len() - j,
            {
                let (d, weight) = entries[j];
                let ghost before = coeff.val();
                assert(self.coefficients@[u as int]@[j as int].0 < self.points@.len());
                assert(row[j as int].0 == d && row[j as int].1 == weight.val());
                coeff = coeff.add(eq_per_point[d].mul(weight));
                proof {
                    broadcast use lemma_mod_twice;

                    let e = eq_points(at, self.point(d as int));
                    let w = weight.val();
                    lemma_eqm_mul(p, e % p, e, w, w);
                    lemma_eqm_add(
                        p,
                        before,
                        self.row_weight(at, u as int, j as int),
                        ((e % p) * w) % p,
                        e * w,
                    );
                }
                j = j + 1;
            }
            proof {
                lemma_small_mod(coeff.val() as nat, p as nat);
            }
            weights.push(coeff);
            u = u + 1;
        }
        Ok(weights)
    }

    /// The polynomial to open at `a2`: the sum of the polynomials, each times
    /// its weights and the equality of `a2` with their points.
    pub fn combined_polynomial(
        &self,
        a2: &[F],
    ) -> (r: Result<Arc<DenseMultilinearExtension<F>>, PCSError>)
        requires
            self.wf(),
            forall|u: int| !#[trigger] self.is_misfit(u),
        ensures
            r is Ok <==> forall|d: int|
                0 <= d < self.points@.len() ==> (#[trigger] self.points@[d])@.len() == a2@.len(),
            r matches Err(e) ==> e.is_invalid_parameters("x and y have different length"@),
            r matches Ok(g) ==> {
                &&& g.wf()
                &&& g.num_vars == self.num_var
                &&& forall|x: int|
                    0 <= x < pow2(self.num_var as nat) ==> (#[trigger] g.table()[x]) == rows_total(
                        self.rows(),
                        self.combined_at(vals(a2@), x),
                    ) % F::modulus()
            },
    {
        let ghost p = F::modulus();
        let ghost n = self.num_var as nat;
        let ghost rows = self.rows();
        let ghost at = vals(a2@);
        proof {
            F::lemma_modulus();
            lemma_power_below_word(n);
        }
        let weights = match self.combined_weights(a2) {
            Ok(weights) => weights,
            Err(e) => {
                return Err(e);
            },
        };
        let mut terms: Vec<(F, &DenseMultilinearExtension<F>)> = Vec::new();
        let mut u: usize = 0;
        while u < self.polynomials.len()
            invariant
                0 <= u <= self.polynomials@.len(),
                self.wf(),
                forall|v: int| !#[trigger] self.is_misfit(v),
                p == F::modulus(),
                p > u64::MAX,
                n == self.num_var,
                rows == self.rows(),
                weights@.len() == self.polynomials@.len(),
                forall|v: int|
                    0 <= v < weights@.len() ==> (#[trigger] weights@[v]).val() == self.row_weight(
                        at,
                        v,
                        rows[v].len() as int,
                    ) % p,
                forall|i: int|
                    0 <= i < terms@.len() ==> (#[trigger] terms@[i]).1.wf() && terms@[i].1.num_vars
                        == n,
                forall|x: int|
                    0 <= x < pow2(n) ==> eqm(
                        p,
                        #[trigger] scaled_sum_at(terms@, x, terms@.len() as int),
                        rows_below(rows, self.combined_at(at, x), u as int),
                    ),
            decreases self.polynomials.len() - u,
        {
            let coeff = weights[u];
            let ghost row = rows[u as int];
            let ghost c = coeff.val();
            let ghost before = terms@;
            let ghost m = before.len() as int;
            if !coeff.is_zero() {
                proof {
                    if forall|k: int| 0 <= k < row.len() ==> (#[trigger] row[k]).1 == 0 {
                        self.lemma_row_without_weight(at, u as int);
                        lemma_small_mod(0, p as nat);
                    }
                    self.lemma_counted_row(u as int);
                    assert(!self.is_misfit(u as int));
                    assert(self.polynomials@[u as int].wf());
                }
                terms.push((coeff, &*self.polynomials[u]));
            }
            proof {
                let i = u as int;
                let w = self.row_weight(at, i, row.len() as int);
                lemma_eqm_residue(p, w);
                assert forall|x: int| 0 <= x < pow2(n) implies eqm(
                    p,
                    #[trigger] scaled_sum_at(terms@, x, terms@.len() as int),
                    rows_below(rows, self.combined_at(at, x), i + 1),
                ) by {
                    let t = self.table(i)[x];
                    let f = |k: int| before[k].0.val() * before[k].1.table()[x];
                    let g = |k: int| terms@[k].0.val() * terms@[k].1.table()[x];
                    assert(eqm(
                        p,
                        scaled_sum_at(before, x, m),
                        rows_below(rows, self.combined_at(at, x), i),
                    ));
                    self.lemma_row_combined(at, x, i);
                    lemma_eqm_mul(p, c, w, t, t);
                    lemma_eqm_add(
                        p,
                        scaled_sum_at(before, x, m),
                        rows_below(rows, self.combined_at(at, x), i),
                        c * t,
                        w * t,
                    );
                    assert(rows_below(rows, self.combined_at(at, x), i + 1) == rows_below(
                        rows,
                        self.combined_at(at, x),
                        i,
                    ) + w * t);
                    if c != 0 {
                        lemma_sum_ext(f, g, 0, m);
                        assert(scaled_sum_at(terms@, x, m + 1) == scaled_sum_at(before, x, m) + c
                            * t);
                    } else {
                        assert(0 * t == 0);
                    }
                }
            }
            u = u + 1;
        }
        let g = fused_scaled_sum_dense_mles(self.num_var, terms.as_slice());
        proof {
            assert forall|x: int| 0 <= x < pow2(n) implies (#[trigger] g.table()[x]) == rows_total(
                rows,
                self.combined_at(at, x),
            ) % p by {
                assert(eqm(
                    p,
                    scaled_sum_at(terms@, x, terms@.len() as int),
                    rows_below(rows, self.combined_at(at, x), u as int),
                ));
            }
        }
        Ok(g)
    }

    /// A row with a weight makes its polynomial a multiplicand.
    pub proof fn lemma_counted_row(self, u: int)
        requires
            self.wf(),
            0 <= u < self.polynomials@.len(),
            exists|k: int| 0 <= k < self.rows()[u].len() && (#[trigger] self.rows()[u][k]).1 != 0,
        ensures
            self.is_multiplicand(u),
    {
        let row = self.rows()[u];
        let k = choose|k: int| 0 <= k < row.len() && (#[trigger] row[k]).1 != 0;
        if self.points@.len() == 1 && k > 0 {
            assert(distinct_keys(self.rows()[u]));
            assert(self.coefficients@[u]@[0].0 < 1);
            assert(self.coefficients@[u]@[k].0 < 1);
            assert(row[0].0 != row[k].0);
        }
    }

    /// The number of queries at the point at place `d`.
    pub open spec fn bucket_size(self, d: int) -> int {
        queries_at(places(self.point_indices@), d, self.point_indices@.len() as int)
    }

    /// The number of queries at the point with the most queries, and the number
    /// of points with one query.
    pub fn bucket_sizes(&self) -> (r: (usize, usize))
        requires
            numbered(places(self.point_indices@), self.points@.len() as int),
        ensures
            forall|d: int|
                0 <= d < self.points@.len() ==> #[trigger] self.bucket_size(d) <= r.0,
            self.points@.len() == 0 ==> r.0 == 0,
            self.points@.len() > 0 ==> exists|d: int|
                0 <= d < self.points@.len() && #[trigger] self.bucket_size(d) == r.0,
            r.1 == sum(|d: int| is_one(self.bucket_size(d)), 0, self.points@.len() as int),
    {
        let ghost ds = places(self.point_indices@);
        let count = self.point_indices.len();
        let mut largest: usize = 0;
        let mut singles: usize = 0;
        let mut d: usize = 0;
        while d < self.points.len()
            invariant
                0 <= d <= self.points@.len(),
                ds == places(self.point_indices@),
                count == self.point_indices@.len(),
                forall|e: int| 0 <= e < d ==> #[trigger] self.bucket_size(e) <= largest,
                d == 0 ==> largest == 0,
                d > 0 ==> exists|e: int| 0 <= e < d && #[trigger] self.bucket_size(e) == largest,
                singles <= d,
                singles == sum(|e: int| is_one(self.bucket_size(e)), 0, d as int),
            decreases self.points.len() - d,
        {
            let mut size: usize = 0;
            let mut i: usize = 0;
            while i < count
                invariant
                    0 <= i <= count,
                    size <= i,
                    ds == places(self.point_indices@),
                    count == self.point_indices@.len(),
                    size == queries_at(ds, d as int, i as int),
                decreases count - i,
            {
                assert(ds[i as int] == self.point_indices@[i as int]);
                if self.point_indices[i] == d {
                    size = size + 1;
                }
                i = i + 1;
            }
            assert(size == self.bucket_size(d as int));
            if d == 0 || size > largest {
                largest = size;
            }
            if size == 1 {
                singles = singles + 1;
            }
            d = d + 1;
        }
        (largest, singles)
    }

    /// Groups the queries. A list that is longer than the shortest of the
    /// three adds its polynomials and points, but no weights.
    pub fn new(
        polynomials: &[Arc<DenseMultilinearExtension<F>>],
        points: &[Vec<F>],
        weights: &[F],
    ) -> (r: Self)
        requires
            polynomials@.len() > 0,
            forall|i: int| 0 <= i < polynomials@.len() ==> (#[trigger] polynomials@[i]).wf(),
        ensures
            r.plans(polynomials@, points@, weights@),
    {
        let (unique_points, point_indices) = number_points(points);
        let (unique_polynomials, poly_indices) = number_polynomials(polynomials);
        let num_var = polynomials[0].num_vars;
        let size = polynomials[0].evaluations.len();
        proof {
            assert(polynomials@[0].wf());
            lemma_vars_below_word(num_var as nat);
        }
        assert forall|i: int| 0 <= i < poly_indices@.len() implies (#[trigger] poly_indices@[i])
            < unique_polynomials@.len() by {
            assert(places(poly_indices@)[i] < unique_polynomials@.len());
        }
        assert forall|i: int| 0 <= i < point_indices@.len() implies (#[trigger] point_indices@[i])
            < unique_points@.len() by {
            assert(places(point_indices@)[i] < unique_points@.len());
        }
        let coefficients = group_weights(
            unique_polynomials.len(),
            poly_indices.as_slice(),
            point_indices.as_slice(),
            weights,
            Ghost(unique_points@.len() as int),
        );
        let r = OpeningPlan {
            num_var,
            polynomials: unique_polynomials,
            points: unique_points,
            poly_indices,
            point_indices,
            coefficients,
        };
        proof {
            let us = places(poly_indices@);
            assert forall|u: int| 0 <= u < r.polynomials@.len() implies (
            #[trigger] r.polynomials@[u]).wf() by {
                assert(occurs(us, u));
                let i = choose|i: int| 0 <= i < us.len() && #[trigger] us[i] == u;
                assert(*r.polynomials@[poly_indices@[i] as int] == *polynomials@[i]);
                assert(polynomials@[i].wf());
            }
        }
        r
    }
}

/// The table of what a point adds, for a coefficient of one.
pub open spec fn weight_table(n: nat, point: Seq<int>) -> Seq<int> {
    Seq::new(pow2(n), |x: int| weight_at(n, point, x))
}

/// Appends `coeff` times the product of two polynomials.
fn add_pair<F: PrimeField>(
    vp: &mut VirtualPolynomial<F>,
    poly: &Arc<DenseMultilinearExtension<F>>,
    eq: &Arc<DenseMultilinearExtension<F>>,
    coeff: F,
) -> (r: Result<(), PCSError>)
    requires
        old(vp).wf(),
        poly.wf(),
        eq.wf(),
        eq.num_vars == old(vp).aux_info.num_variables,
    ensures
        final(vp).wf(),
        final(vp).aux_info.num_variables == old(vp).aux_info.num_variables,
        r is Err <==> poly.num_vars != old(vp).aux_info.num_variables,
        r matches Err(e) ==> e.is_arith_error(
            wrong_multiplicand_text(
                poly.num_vars as nat,
                old(vp).aux_info.num_variables as nat,
            ),
        ),
        r is Ok ==> {
            &&& old(vp).aux_info.max_degree <= 2 ==> final(vp).aux_info.max_degree == 2
            &&& final(vp).products@.len() == old(vp).products@.len() + 1
            &&& forall|size: int| #[trigger]
                cube_sum(final(vp).tables(), final(vp).terms(), size) == cube_sum(
                    old(vp).tables(),
                    old(vp).terms(),
                    size,
                ) + coeff.val() * pair_sum(poly.table(), eq.table(), size)
            &&& forall|point: Seq<int>| #[trigger]
                terms_value(final(vp).tables(), final(vp).terms(), point) == terms_value(
                    old(vp).tables(),
                    old(vp).terms(),
                    point,
                ) + coeff.val() * (mle(poly.table(), point) * mle(eq.table(), point))
        },
{
    let ghost before = *vp;
    let n = vp.aux_info.num_variables;
    let mut list: Vec<Arc<DenseMultilinearExtension<F>>> = Vec::with_capacity(2);
    list.push(poly.clone());
    list.push(eq.clone());
    match vp.add_mle_list(list.as_slice(), coeff) {
        Ok(_) => {},
        Err(e) => {
            proof {
                if poly.num_vars == n {
                    assert(list@[0].num_vars == n && list@[1].num_vars == n);
                }
                let j = choose|j: int|
                    0 <= j < 2 && (#[trigger] list@[j]).num_vars != n && e.is_invalid_parameters(
                        wrong_multiplicand_text(list@[j].num_vars as nat, n as nat),
                    );
                assert(j == 0);
            }
            return Err(PCSError::ArithErrors(e));
        },
    }
    proof {
        assert(list@[0].num_vars == n);
        before.lemma_shape(n as nat);
        vp.lemma_shape(n as nat);
        let (ts, us) = (before.tables(), vp.tables());
        let terms = before.terms();
        let m = before.products@.len() as int;
        let term = vp.terms()[m];
        assert(vp.products@[m] == vp.products@.last());
        assert forall|k: int| 0 <= k < m implies vp.terms()[k] == terms[k] by {
            assert(vp.products@.drop_last()[k] == before.products@[k]);
        }
        assert(vp.terms() =~= terms.push(term));
        assert forall|k: int| 0 <= k < ts.len() implies #[trigger] us[k] == ts[k] by {
            assert(vp.flattened_ml_extensions@.subrange(
                0,
                before.flattened_ml_extensions@.len() as int,
            )[k] == before.flattened_ml_extensions@[k]);
        }
        let last = vp.products@.last().1@;
        assert(last[0] < vp.flattened_ml_extensions@.len()) by {
            assert(vp.products@[m].1@[0] < vp.flattened_ml_extensions@.len());
        }
        assert(last[1] < vp.flattened_ml_extensions@.len()) by {
            assert(vp.products@[m].1@[1] < vp.flattened_ml_extensions@.len());
        }
        assert(*vp.flattened_ml_extensions@[last[0] as int] == *list@[0]);
        assert(*vp.flattened_ml_extensions@[last[1] as int] == *list@[1]);
        assert(us[term.factors[0]] == poly.table());
        assert(us[term.factors[1]] == eq.table());
        assert forall|size: int| #[trigger] cube_sum(us, vp.terms(), size) == cube_sum(
            ts,
            terms,
            size,
        ) + coeff.val() * pair_sum(poly.table(), eq.table(), size) by {
            lemma_pair_appended(ts, us, terms, term, size, Seq::<int>::empty());
        }
        assert forall|point: Seq<int>| #[trigger] terms_value(us, vp.terms(), point) == terms_value(
            ts,
            terms,
            point,
        ) + coeff.val() * (mle(poly.table(), point) * mle(eq.table(), point)) by {
            lemma_pair_appended(ts, us, terms, term, 1, point);
        }
    }
    Ok(())
}

/// Lists the distinct points as they first occur, and the place of each point.
fn number_points<F: PrimeField>(points: &[Vec<F>]) -> (r: (Vec<Vec<F>>, Vec<usize>))
    ensures
        r.1@.len() == points@.len(),
        numbered(places(r.1@), r.0@.len() as int),
        forall|i: int|
            0 <= i < points@.len() ==> vals(r.0@[(#[trigger] r.1@[i]) as int]@) == vals(points@[i]@),
        forall|d: int, e: int|
            0 <= d < e < r.0@.len() ==> vals((#[trigger] r.0@[d])@) != vals(
                (#[trigger] r.0@[e])@,
            ),
{
    let mut unique: Vec<Vec<F>> = Vec::new();
    let mut indices: Vec<usize> = Vec::with_capacity(points.len());
    let mut i: usize = 0;
    assert(places(indices@) =~= Seq::<int>::empty());
    while i < points.len()
        invariant
            0 <= i <= points@.len(),
            indices@.len() == i,
            numbered(places(indices@), unique@.len() as int),
            forall|k: int|
                0 <= k < i ==> (#[trigger] indices@[k]) < unique@.len() && vals(
                    unique@[indices@[k] as int]@,
                ) == vals(points@[k]@),
            forall|d: int, e: int|
                0 <= d < e < unique@.len() ==> vals((#[trigger] unique@[d])@) != vals(
                    (#[trigger] unique@[e])@,
                ),
        decreases points.len() - i,
    {
        let mut d: usize = 0;
        while d < unique.len() && !same_elements(unique[d].as_slice(), points[i].as_slice())
            invariant
                0 <= d <= unique@.len(),
                i < points@.len(),
                forall|k: int| 0 <= k < d ==> vals((#[trigger] unique@[k])@) != vals(points@[i as int]@),
            decreases unique.len() - d,
        {
            d = d + 1;
        }
        let ghost before = unique@;
        if d == unique.len() {
            unique.push(copy_slice(points[i].as_slice()));
        }
        let ghost old_places = places(indices@);
        indices.push(d);
        proof {
            assert(places(indices@) =~= old_places.push(d as int));
            lemma_numbered_push(old_places, before.len() as int, d as int);
            assert(forall|k: int| 0 <= k < before.len() ==> #[trigger] unique@[k] == before[k]);
        }
        i = i + 1;
    }
    (unique, indices)
}

/// Lists the polynomials, each allocation once, as they first occur, and the
/// place of each.
fn number_polynomials<F: PrimeField>(
    polynomials: &[Arc<DenseMultilinearExtension<F>>],
) -> (r: (Vec<Arc<DenseMultilinearExtension<F>>>, Vec<usize>))
    ensures
        r.1@.len() == polynomials@.len(),
        numbered(places(r.1@), r.0@.len() as int),
        forall|i: int|
            0 <= i < polynomials@.len() ==> *r.0@[(#[trigger] r.1@[i]) as int] == *polynomials@[i],
{
    let mut unique: Vec<Arc<DenseMultilinearExtension<F>>> = Vec::new();
    let mut indices: Vec<usize> = Vec::with_capacity(polynomials.len());
    let mut i: usize = 0;
    assert(places(indices@) =~= Seq::<int>::empty());
    while i < polynomials.len()
        invariant
            0 <= i <= polynomials@.len(),
            indices@.len() == i,
            numbered(places(indices@), unique@.len() as int),
            forall|k: int|
                0 <= k < i ==> (#[trigger] indices@[k]) < unique@.len()
                    && *unique@[indices@[k] as int] == *polynomials@[k],
        decreases polynomials.len() - i,
    {
        let mut u: usize = 0;
        let mut found = false;
        while u < unique.len() && !found
            invariant
                0 <= u <= unique@.len(),
                i < polynomials@.len(),
                found ==> u < unique@.len() && *unique@[u as int] == *polynomials@[i as int],
            decreases unique.len() - u, (if found {
                0int
            } else {
                1int
            }),
        {
            if same_allocation(&unique[u], &polynomials[i]) {
                found = true;
            } else {
                u = u + 1;
            }
        }
        let ghost before = unique@;
        if u == unique.len() {
            unique.push(polynomials[i].clone());
        }
        let ghost old_places = places(indices@);
        indices.push(u);
        proof {
            assert(places(indices@) =~= old_places.push(u as int));
            lemma_numbered_push(old_places, before.len() as int, u as int);
            assert(forall|k: int| 0 <= k < before.len() ==> #[trigger] unique@[k] == before[k]);
        }
        i = i + 1;
    }
    (unique, indices)
}

/// Adds up the weights of the queries of each polynomial at each point.
fn group_weights<F: PrimeField>(
    count: usize,
    poly_indices: &[usize],
    point_indices: &[usize],
    weights: &[F],
    Ghost(point_count): Ghost<int>,
) -> (r: Vec<Vec<(usize, F)>>)
    requires
        forall|i: int| 0 <= i < poly_indices@.len() ==> (#[trigger] poly_indices@[i]) < count,
        forall|i: int|
            0 <= i < point_indices@.len() ==> (#[trigger] point_indices@[i]) < point_count,
    ensures
        r@.len() == count,
        forall|u: int| 0 <= u < count ==> distinct_keys(#[trigger] rows_of(r@)[u]),
        forall|u: int, j: int|
            0 <= u < count && 0 <= j < r@[u]@.len() ==> (#[trigger] r@[u]@[j]).0 < point_count,
        groups(
            F::modulus(),
            rows_of(r@),
            vals(weights@),
            places(poly_indices@),
            places(point_indices@),
            least(
                poly_indices@.len() as int,
                point_indices@.len() as int,
                weights@.len() as int,
            ),
        ),
{
    let ghost p = F::modulus();
    let ghost (ws, us, ds) = (vals(weights@), places(poly_indices@), places(point_indices@));
    proof {
        F::lemma_modulus();
        F::lemma_val();
    }
    let mut rows: Vec<Vec<(usize, F)>> = Vec::with_capacity(count);
    let mut u: usize = 0;
    while u < count
        invariant
            0 <= u <= count,
            rows@.len() == u,
            forall|k: int| 0 <= k < u ==> (#[trigger] rows@[k])@.len() == 0,
        decreases count - u,
    {
        rows.push(Vec::new());
        u = u + 1;
    }
    proof {
        assert forall|g: spec_fn(int, int) -> int| #[trigger]
            eqm(p, rows_total(rows_of(rows@), g), queries_total(ws, us, ds, g, 0)) by {
            lemma_sum_zero(
                |k: int| row_total(rows_of(rows@)[k], g, k),
                0,
                count as int,
            );
        }
    }
    let mut i: usize = 0;
    while i < poly_indices.len() && i < point_indices.len() && i < weights.len()
        invariant
            0 <= i <= poly_indices@.len(),
            i <= point_indices@.len(),
            i <= weights@.len(),
            p == F::modulus(),
            p > u64::MAX,
            ws == vals(weights@),
            us == places(poly_indices@),
            ds == places(point_indices@),
            forall|k: int| 0 <= k < poly_indices@.len() ==> (#[trigger] poly_indices@[k]) < count,
            forall|k: int|
                0 <= k < point_indices@.len() ==> (#[trigger] point_indices@[k]) < point_count,
            rows@.len() == count,
            forall|k: int| 0 <= k < count ==> distinct_keys(#[trigger] rows_of(rows@)[k]),
            forall|k: int, j: int|
                0 <= k < count && 0 <= j < rows@[k]@.len() ==> (#[trigger] rows@[k]@[j]).0
                    < point_count,
            groups(p, rows_of(rows@), ws, us, ds, i as int),
        decreases poly_indices.len() - i,
    {
        let u = poly_indices[i];
        let d = point_indices[i];
        let weight = weights[i];
        let ghost before = rows@;
        let mut row = copy_row(&rows[u]);
        let ghost old_row = row@;
        let mut k: usize = 0;
        while k < row.len() && row[k].0 != d
            invariant
                0 <= k <= row@.len(),
                forall|j: int| 0 <= j < k ==> (#[trigger] row@[j]).0 != d,
            decreases row.len() - k,
        {
            k = k + 1;
        }
        if k < row.len() {
            let sum = row[k].1.add(weight);
            row.set(k, (d, sum));
            proof {
                lemma_eqm_residue(p, old_row[k as int].1.val() + weight.val());
                assert(row_of(row@) =~= row_of(old_row).update(k as int, (d as int, sum.val())));
            }
        } else {
            row.push((d, weight));
            assert(row_of(row@) =~= row_of(old_row).push((d as int, weight.val())));
        }
        let ghost new_row = row@;
        rows.set(u, row);
        proof {
            assert(distinct_keys(rows_of(before)[u as int]));
            assert(rows_of(before)[u as int] == row_of(old_row));
            assert(rows_of(rows@) =~= rows_of(before).update(u as int, row_of(new_row)));
            lemma_groups_step(p, rows_of(before), row_of(new_row), ws, us, ds, i as int, k as int);
            assert forall|m: int| 0 <= m < count implies distinct_keys(
                #[trigger] rows_of(rows@)[m],
            ) by {
                if m == u {
                    let a = row_of(new_row);
                    let b = row_of(old_row);
                    assert forall|x: int, y: int| 0 <= x < y < a.len() implies (#[trigger] a[x]).0
                        != (#[trigger] a[y]).0 by {
                        if y < b.len() {
                            assert(b[x].0 != b[y].0);
                            assert(a[x].0 == b[x].0 && a[y].0 == b[y].0);
                        } else {
                            assert(old_row[x].0 != d);
                        }
                    }
                } else {
                    assert(rows_of(rows@)[m] == rows_of(before)[m]);
                }
            }
            assert forall|m: int, j: int| 0 <= m < count && 0 <= j < rows@[m]@.len() implies (
            #[trigger] rows@[m]@[j]).0 < point_count by {
                if m == u {
                    if j < old_row.len() {
                        assert(before[u as int]@[j].0 < point_count);
                    }
                } else {
                    assert(rows@[m] == before[m]);
                    assert(before[m]@[j].0 < point_count);
                }
            }
        }
        i = i + 1;
    }
    rows
}

fn copy_row<F: PrimeField>(row: &Vec<(usize, F)>) -> (r: Vec<(usize, F)>)
    ensures
        r@ == row@,
{
    let mut r: Vec<(usize, F)> = Vec::with_capacity(row.len());
    let mut i: usize = 0;
    while i < row.len()
        invariant
            0 <= i <= row@.len(),
            r@ == row@.subrange(0, i as int),
        decreases row.len() - i,
    {
        r.push(row[i]);
        i = i + 1;
    }
    assert(row@.subrange(0, i as int) =~= row@);
    r
}

} // verus!
