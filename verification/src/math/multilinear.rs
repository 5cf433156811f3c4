//! Multilinear polynomials by their values on the Boolean hypercube.
//!
//! A table of `2^n` integers holds the values of a polynomial in `n` variables:
//! entry `x` is the value at the point whose coordinate `i` is bit `i` of `x`.

use crate::math::modular::{eqm, eqm_seq, lemma_eqm_add, lemma_eqm_mul, lemma_eqm_sub};
use crate::math::sums::{lemma_sum_ext, lemma_sum_pairs, lemma_sum_scale, sum};
use vstd::arithmetic::power2::{lemma_pow2_pos, lemma_pow2_unfold, pow2};
use vstd::prelude::*;

verus! {

/// The table of the polynomial with its first variable fixed to `r`.
pub open spec fn fold(t: Seq<int>, r: int) -> Seq<int> {
    Seq::new(t.len() / 2, |b: int| t[2 * b] + r * (t[2 * b + 1] - t[2 * b]))
}

/// The table of the polynomial with its first variables fixed to `rs`, in order.
pub open spec fn fix(t: Seq<int>, rs: Seq<int>) -> Seq<int>
    decreases rs.len(),
{
    if rs.len() == 0 {
        t
    } else {
        fold(fix(t, rs.drop_last()), rs.last())
    }
}

/// The value of the multilinear polynomial with table `t` at `point`.
pub open spec fn mle(t: Seq<int>, point: Seq<int>) -> int {
    fix(t, point)[0]
}

/// The value at `point` of the multilinear polynomial that is 1 at the vertex
/// `x` of the hypercube and 0 at every other vertex.
pub open spec fn eq_at(point: Seq<int>, x: int) -> int
    decreases point.len(),
{
    if point.len() == 0 {
        1
    } else {
        (if x % 2 == 0 {
            1 - point[0]
        } else {
            point[0]
        }) * eq_at(point.drop_first(), x / 2)
    }
}

/// The table of `x -> eq_at(point, x)`.
pub open spec fn eq_table(point: Seq<int>) -> Seq<int> {
    Seq::new(pow2(point.len()), |x: int| eq_at(point, x))
}

/// The product over `i` of `a_i * b_i + (1 - a_i) * (1 - b_i)`.
pub open spec fn eq_points(a: Seq<int>, b: Seq<int>) -> int
    decreases a.len(),
{
    if a.len() == 0 {
        1
    } else {
        (a[0] * b[0] + (1 - a[0]) * (1 - b[0])) * eq_points(a.drop_first(), b.drop_first())
    }
}

pub proof fn lemma_pow2_halves(n: nat)
    requires
        n > 0,
    ensures
        pow2(n) == 2 * pow2((n - 1) as nat),
        pow2((n - 1) as nat) > 0,
        pow2(n) / 2 == pow2((n - 1) as nat),
{
    lemma_pow2_unfold(n);
    lemma_pow2_pos((n - 1) as nat);
}

pub proof fn lemma_fold_len(t: Seq<int>, r: int, n: nat)
    requires
        t.len() == pow2(n),
        n > 0,
    ensures
        fold(t, r).len() == pow2((n - 1) as nat),
{
    lemma_pow2_halves(n);
}

pub proof fn lemma_fix_len(t: Seq<int>, rs: Seq<int>, n: nat)
    requires
        t.len() == pow2(n),
        rs.len() <= n,
    ensures
        fix(t, rs).len() == pow2((n - rs.len()) as nat),
    decreases rs.len(),
{
    if rs.len() > 0 {
        lemma_fix_len(t, rs.drop_last(), n);
        lemma_fold_len(fix(t, rs.drop_last()), rs.last(), (n - rs.len() + 1) as nat);
    }
}

/// Fixing the first variable before the others.
pub proof fn lemma_fix_first(t: Seq<int>, rs: Seq<int>)
    requires
        rs.len() > 0,
    ensures
        fix(t, rs) == fix(fold(t, rs[0]), rs.drop_first()),
    decreases rs.len(),
{
    if rs.len() == 1 {
        assert(rs.drop_last() =~= Seq::<int>::empty());
        assert(rs.drop_first() =~= Seq::<int>::empty());
        assert(fix(t, rs.drop_last()) == t);
    } else {
        lemma_fix_first(t, rs.drop_last());
        assert(rs.drop_last().drop_first() =~= rs.drop_first().drop_last());
        assert(rs.drop_first().last() == rs.last());
    }
}

/// Fixing the variables in two portions.
pub proof fn lemma_fix_concat(t: Seq<int>, rs: Seq<int>, qs: Seq<int>)
    ensures
        fix(t, rs + qs) == fix(fix(t, rs), qs),
    decreases qs.len(),
{
    if qs.len() == 0 {
        assert(rs + qs =~= rs);
    } else {
        assert((rs + qs).drop_last() =~= rs + qs.drop_last());
        lemma_fix_concat(t, rs, qs.drop_last());
    }
}

pub proof fn lemma_fold_eqm(p: int, t: Seq<int>, u: Seq<int>, r: int, q: int)
    requires
        p > 0,
        eqm_seq(p, t, u),
        eqm(p, r, q),
    ensures
        eqm_seq(p, fold(t, r), fold(u, q)),
{
    let f = fold(t, r);
    let g = fold(u, q);
    assert forall|b: int| 0 <= b < f.len() implies eqm(p, #[trigger] f[b], g[b]) by {
        let (t0, t1, u0, u1) = (t[2 * b], t[2 * b + 1], u[2 * b], u[2 * b + 1]);
        assert(eqm(p, t0, u0) && eqm(p, t1, u1));
        lemma_eqm_sub(p, t1, u1, t0, u0);
        lemma_eqm_mul(p, r, q, t1 - t0, u1 - u0);
        lemma_eqm_add(p, t0, u0, r * (t1 - t0), q * (u1 - u0));
    }
}

pub proof fn lemma_fix_eqm(p: int, t: Seq<int>, u: Seq<int>, rs: Seq<int>, qs: Seq<int>)
    requires
        p > 0,
        eqm_seq(p, t, u),
        eqm_seq(p, rs, qs),
    ensures
        eqm_seq(p, fix(t, rs), fix(u, qs)),
    decreases rs.len(),
{
    if rs.len() > 0 {
        assert(eqm_seq(p, rs.drop_last(), qs.drop_last()));
        lemma_fix_eqm(p, t, u, rs.drop_last(), qs.drop_last());
        assert(eqm(p, rs[rs.len() - 1], qs[rs.len() - 1]));
        lemma_fold_eqm(
            p,
            fix(t, rs.drop_last()),
            fix(u, qs.drop_last()),
            rs.last(),
            qs.last(),
        );
    }
}

/// Congruent tables and points have congruent values.
pub proof fn lemma_mle_eqm(p: int, t: Seq<int>, u: Seq<int>, a: Seq<int>, b: Seq<int>)
    requires
        p > 0,
        eqm_seq(p, t, u),
        eqm_seq(p, a, b),
        t.len() == pow2(a.len()),
    ensures
        eqm(p, mle(t, a), mle(u, b)),
{
    lemma_fix_eqm(p, t, u, a, b);
    lemma_fix_len(t, a, a.len());
    lemma_pow2_pos(0);
    assert(eqm(p, fix(t, a)[0], fix(u, b)[0]));
}

/// The value at a point is the sum of the table's entries, each weighted by
/// `eq_at`.
pub proof fn lemma_mle_weighted_sum(t: Seq<int>, point: Seq<int>)
    requires
        t.len() == pow2(point.len()),
    ensures
        mle(t, point) == sum(|x: int| t[x] * eq_at(point, x), 0, pow2(point.len()) as int),
    decreases point.len(),
{
    let n = point.len();
    let f = |x: int| t[x] * eq_at(point, x);
    if n == 0 {
        vstd::arithmetic::power2::lemma2_to64();
        assert(sum(f, 0, 1) == sum(f, 0, 0) + f(0));
        assert(f(0) == t[0] * 1);
    } else {
        lemma_pow2_halves(n);
        let half = pow2((n - 1) as nat) as int;
        let rest = point.drop_first();
        let u = fold(t, point[0]);
        lemma_fix_first(t, point);
        lemma_mle_weighted_sum(u, rest);
        lemma_sum_pairs(f, half);
        let pairs = |b: int| f(2 * b) + f(2 * b + 1);
        let g = |b: int| u[b] * eq_at(rest, b);
        assert forall|b: int| 0 <= b < half implies #[trigger] pairs(b) == g(b) by {
            assert((2 * b) % 2 == 0 && (2 * b) / 2 == b);
            assert((2 * b + 1) % 2 == 1 && (2 * b + 1) / 2 == b);
            let (t0, t1, r, e) = (t[2 * b], t[2 * b + 1], point[0], eq_at(rest, b));
            assert(t0 * ((1 - r) * e) + t1 * (r * e) == (t0 + r * (t1 - t0)) * e)
                by (nonlinear_arith);
        }
        lemma_sum_ext(pairs, g, 0, half);
    }
}

pub proof fn lemma_mle_scale(c: int, t: Seq<int>, point: Seq<int>)
    requires
        t.len() == pow2(point.len()),
    ensures
        mle(Seq::new(t.len(), |x: int| c * t[x]), point) == c * mle(t, point),
{
    let u = Seq::new(t.len(), |x: int| c * t[x]);
    let size = t.len() as int;
    lemma_mle_weighted_sum(t, point);
    lemma_mle_weighted_sum(u, point);
    let f = |x: int| t[x] * eq_at(point, x);
    let g = |x: int| u[x] * eq_at(point, x);
    let h = |x: int| c * f(x);
    lemma_sum_scale(c, f, 0, size);
    assert forall|x: int| 0 <= x < size implies #[trigger] g(x) == h(x) by {
        let (a, e) = (t[x], eq_at(point, x));
        assert((c * a) * e == c * (a * e)) by (nonlinear_arith);
    }
    lemma_sum_ext(g, h, 0, size);
}

/// The multilinear extension of `x -> eq_at(b, x)` takes the value
/// `eq_points(a, b)` at `a`.
pub proof fn lemma_mle_eq_table(a: Seq<int>, b: Seq<int>)
    requires
        a.len() == b.len(),
    ensures
        mle(eq_table(b), a) == eq_points(a, b),
    decreases a.len(),
{
    let n = a.len();
    if n == 0 {
        lemma_pow2_pos(0);
    } else {
        lemma_pow2_halves(n);
        let t = eq_table(b);
        let u = fold(t, a[0]);
        let v = eq_table(b.drop_first());
        let c = a[0] * b[0] + (1 - a[0]) * (1 - b[0]);
        let w = Seq::new(v.len(), |x: int| c * v[x]);
        assert forall|x: int| 0 <= x < u.len() implies #[trigger] u[x] == w[x] by {
            assert((2 * x) % 2 == 0 && (2 * x) / 2 == x);
            assert((2 * x + 1) % 2 == 1 && (2 * x + 1) / 2 == x);
            let (r, s, e) = (a[0], b[0], v[x]);
            assert(t[2 * x] == (1 - s) * e);
            assert(t[2 * x + 1] == s * e);
            assert((1 - s) * e + r * (s * e - (1 - s) * e) == (r * s + (1 - r) * (1 - s)) * e)
                by (nonlinear_arith);
        }
        assert(u =~= w);
        lemma_fix_first(t, a);
        lemma_mle_scale(c, v, a.drop_first());
        lemma_mle_eq_table(a.drop_first(), b.drop_first());
    }
}

pub proof fn lemma_eq_points_symmetric(a: Seq<int>, b: Seq<int>)
    requires
        a.len() == b.len(),
    ensures
        eq_points(a, b) == eq_points(b, a),
    decreases a.len(),
{
    if a.len() > 0 {
        lemma_eq_points_symmetric(a.drop_first(), b.drop_first());
        let (x, y) = (a[0], b[0]);
        assert(x * y + (1 - x) * (1 - y) == y * x + (1 - y) * (1 - x)) by (nonlinear_arith);
    }
}

pub proof fn lemma_eq_at_eqm(p: int, a: Seq<int>, b: Seq<int>, x: int)
    requires
        p > 0,
        eqm_seq(p, a, b),
    ensures
        eqm(p, eq_at(a, x), eq_at(b, x)),
    decreases a.len(),
{
    if a.len() > 0 {
        assert(eqm(p, a[0], b[0]));
        assert forall|i: int| 0 <= i < a.drop_first().len() implies eqm(
            p,
            #[trigger] a.drop_first()[i],
            b.drop_first()[i],
        ) by {
            assert(eqm(p, a[i + 1], b[i + 1]));
        }
        lemma_eq_at_eqm(p, a.drop_first(), b.drop_first(), x / 2);
        lemma_eqm_sub(p, 1, 1, a[0], b[0]);
        let c = if x % 2 == 0 {
            1 - a[0]
        } else {
            a[0]
        };
        let d = if x % 2 == 0 {
            1 - b[0]
        } else {
            b[0]
        };
        lemma_eqm_mul(p, c, d, eq_at(a.drop_first(), x / 2), eq_at(b.drop_first(), x / 2));
    }
}

} // verus!
