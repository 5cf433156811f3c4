//! Polynomials in one variable over the integers, and their interpolation
//! modulo a prime.

use crate::math::modular::{
    eqm, inverse_mod, is_inverse, lemma_eqm_add, lemma_eqm_cancel, lemma_eqm_mul, lemma_eqm_sub,
    lemma_inverse_mod,
};
use crate::math::sums::{
    counting, lemma_sum_eqm, lemma_sum_ext, lemma_sum_scale, lemma_sum_single, product, smaller,
    sum,
};
use vstd::arithmetic::div_mod::{lemma_mod_add_multiples_vanish, lemma_mod_twice, lemma_small_mod};
use vstd::prelude::*;

verus! {

/// The value at `x` of the polynomial with coefficients `c`, the constant first.
pub open spec fn poly_eval(c: Seq<int>, x: int) -> int
    decreases c.len(),
{
    if c.len() == 0 {
        0
    } else {
        c[0] + x * poly_eval(c.drop_first(), x)
    }
}

/// `c` are coefficients of the function `g`, at most `n` of them.
pub open spec fn represents(c: Seq<int>, g: spec_fn(int) -> int, n: nat) -> bool {
    &&& c.len() <= n
    &&& forall|x: int| #[trigger] poly_eval(c, x) == g(x)
}

/// `g` is a polynomial function of degree below `n`.
pub open spec fn degree_below(g: spec_fn(int) -> int, n: nat) -> bool {
    exists|c: Seq<int>| #[trigger] represents(c, g, n)
}

/// `a` has an inverse modulo `p`.
pub open spec fn invertible(p: int, a: int) -> bool {
    exists|b: int| #[trigger] (a * b) % p == 1
}

/// The product of `x - xs[j]` over `j < m`, all but `i`.
pub open spec fn product_but_below(xs: Seq<int>, i: int, x: int, m: int) -> int {
    product(
        |j: int|
            if j == i {
                1
            } else {
                x - xs[j]
            },
        0,
        m,
    )
}

/// The product of `x - xs[j]` over all `j` but `i`.
pub open spec fn product_but(xs: Seq<int>, i: int, x: int) -> int {
    product_but_below(xs, i, x, xs.len() as int)
}

/// The product of `x - xs[j]` over `j < m`.
pub open spec fn distances_below(xs: Seq<int>, x: int, m: int) -> int {
    product(|j: int| x - xs[j], 0, m)
}

/// The weight `ws[i]` over `at - xs[i]`, a quotient modulo `p`. A point without
/// a weight has the weight 1.
pub open spec fn barycentric_coeff(p: int, xs: Seq<int>, ws: Seq<int>, at: int, i: int) -> int {
    inverse_mod(p, (at - xs[i]) % p) * (if i < ws.len() {
        ws[i]
    } else {
        1
    })
}

/// The sum of the coefficients.
pub open spec fn barycentric_total(p: int, xs: Seq<int>, ws: Seq<int>, at: int) -> int {
    sum(|i: int| barycentric_coeff(p, xs, ws, at, i), 0, xs.len() as int)
}

/// The sum of the values `ys` at points, each times its coefficient.
pub open spec fn barycentric_sum(
    p: int,
    xs: Seq<int>,
    ws: Seq<int>,
    ys: Seq<int>,
    at: int,
) -> int {
    sum(
        |i: int| barycentric_coeff(p, xs, ws, at, i) * ys[i],
        0,
        smaller(xs.len() as int, ys.len() as int),
    )
}

/// The barycentric formula at `at`, for the values `ys` at the points `xs`
/// with the weights `ws`.
pub open spec fn barycentric(
    p: int,
    xs: Seq<int>,
    ws: Seq<int>,
    ys: Seq<int>,
    at: int,
) -> int {
    (barycentric_sum(p, xs, ws, ys, at) * inverse_mod(p, barycentric_total(p, xs, ws, at) % p))
        % p
}

/// The inverses that the barycentric formula takes are inverses indeed: those
/// of the distances to `at`, and that of the sum of the coefficients.
pub open spec fn inverses_taken(p: int, xs: Seq<int>, ws: Seq<int>, at: int) -> bool {
    &&& forall|i: int|
        0 <= i < xs.len() && (at - #[trigger] xs[i]) % p != 0 ==> invertible(p, at - xs[i])
    &&& is_inverse(
        p,
        inverse_mod(p, barycentric_total(p, xs, ws, at) % p),
        barycentric_total(p, xs, ws, at) % p,
    )
}

/// No two of the points are congruent.
pub open spec fn distinct_points(p: int, xs: Seq<int>) -> bool {
    forall|i: int, j: int|
        0 <= i < j < xs.len() ==> ((#[trigger] xs[i]) - (#[trigger] xs[j])) % p != 0
}

/// `ws` are the barycentric weights of the points `xs`: each the inverse of the
/// product of the point's distances to the others, which is no multiple of `p`
/// where the points are distinct.
pub open spec fn are_weights(p: int, xs: Seq<int>, ws: Seq<int>) -> bool {
    &&& ws.len() == xs.len()
    &&& forall|i: int|
        0 <= i < xs.len() ==> is_inverse(p, #[trigger] ws[i], product_but(xs, i, xs[i]) % p)
    &&& distinct_points(p, xs) ==> forall|i: int|
        0 <= i < xs.len() ==> #[trigger] product_but(xs, i, xs[i]) % p != 0
}

proof fn lemma_degree_intro(c: Seq<int>, g: spec_fn(int) -> int, n: nat)
    requires
        represents(c, g, n),
    ensures
        degree_below(g, n),
{
}

proof fn poly_plus(a: Seq<int>, b: Seq<int>) -> (c: Seq<int>)
    ensures
        c.len() == if a.len() >= b.len() {
            a.len()
        } else {
            b.len()
        },
        forall|x: int| #[trigger] poly_eval(c, x) == poly_eval(a, x) + poly_eval(b, x),
    decreases a.len(),
{
    if a.len() == 0 {
        b
    } else if b.len() == 0 {
        a
    } else {
        let rest = poly_plus(a.drop_first(), b.drop_first());
        let c = seq![a[0] + b[0]] + rest;
        assert(c.drop_first() =~= rest);
        assert forall|x: int| #[trigger] poly_eval(c, x) == poly_eval(a, x) + poly_eval(b, x) by {
            let u = poly_eval(a.drop_first(), x);
            let v = poly_eval(b.drop_first(), x);
            assert(poly_eval(rest, x) == u + v);
            assert(x * (u + v) == x * u + x * v) by (nonlinear_arith);
        }
        c
    }
}

proof fn poly_times(k: int, a: Seq<int>) -> (c: Seq<int>)
    ensures
        c.len() == a.len(),
        forall|x: int| #[trigger] poly_eval(c, x) == k * poly_eval(a, x),
    decreases a.len(),
{
    if a.len() == 0 {
        a
    } else {
        let rest = poly_times(k, a.drop_first());
        let c = seq![k * a[0]] + rest;
        assert(c.drop_first() =~= rest);
        assert forall|x: int| #[trigger] poly_eval(c, x) == k * poly_eval(a, x) by {
            let u = poly_eval(a.drop_first(), x);
            let a0 = a[0];
            assert(poly_eval(rest, x) == k * u);
            assert(k * a0 + x * (k * u) == k * (a0 + x * u)) by (nonlinear_arith);
        }
        c
    }
}

proof fn poly_shift(a: Seq<int>) -> (c: Seq<int>)
    ensures
        c.len() == a.len() + 1,
        forall|x: int| #[trigger] poly_eval(c, x) == x * poly_eval(a, x),
{
    let c = seq![0int] + a;
    assert(c.drop_first() =~= a);
    c
}

/// A constant is a polynomial of degree 0.
pub proof fn lemma_degree_const(k: int, g: spec_fn(int) -> int)
    requires
        forall|x: int| #[trigger] g(x) == k,
    ensures
        degree_below(g, 1),
{
    let c = seq![k];
    assert(c.drop_first() =~= Seq::<int>::empty());
    assert forall|x: int| #[trigger] poly_eval(c, x) == g(x) by {
        assert(poly_eval(c.drop_first(), x) == 0);
        assert(x * 0 == 0);
    }
    lemma_degree_intro(c, g, 1);
}

pub proof fn lemma_degree_zero(g: spec_fn(int) -> int, n: nat)
    requires
        forall|x: int| #[trigger] g(x) == 0,
    ensures
        degree_below(g, n),
{
    lemma_degree_intro(Seq::<int>::empty(), g, n);
}

pub proof fn lemma_degree_monotone(g: spec_fn(int) -> int, m: nat, n: nat)
    requires
        m <= n,
        degree_below(g, m),
    ensures
        degree_below(g, n),
{
    let c = choose|c: Seq<int>| #[trigger] represents(c, g, m);
    lemma_degree_intro(c, g, n);
}

pub proof fn lemma_degree_add(
    f: spec_fn(int) -> int,
    g: spec_fn(int) -> int,
    h: spec_fn(int) -> int,
    n: nat,
)
    requires
        degree_below(f, n),
        degree_below(g, n),
        forall|x: int| #[trigger] h(x) == f(x) + g(x),
    ensures
        degree_below(h, n),
{
    let a = choose|c: Seq<int>| #[trigger] represents(c, f, n);
    let b = choose|c: Seq<int>| #[trigger] represents(c, g, n);
    let c = poly_plus(a, b);
    assert forall|x: int| #[trigger] poly_eval(c, x) == h(x) by {
        assert(poly_eval(a, x) == f(x));
        assert(poly_eval(b, x) == g(x));
    }
    lemma_degree_intro(c, h, n);
}

pub proof fn lemma_degree_scale(
    k: int,
    f: spec_fn(int) -> int,
    h: spec_fn(int) -> int,
    n: nat,
)
    requires
        degree_below(f, n),
        forall|x: int| #[trigger] h(x) == k * f(x),
    ensures
        degree_below(h, n),
{
    let a = choose|c: Seq<int>| #[trigger] represents(c, f, n);
    let c = poly_times(k, a);
    assert forall|x: int| #[trigger] poly_eval(c, x) == h(x) by {
        assert(poly_eval(a, x) == f(x));
    }
    lemma_degree_intro(c, h, n);
}

/// The product with `u + x * v` has a degree that is at most one higher.
pub proof fn lemma_degree_mul_line(
    f: spec_fn(int) -> int,
    u: int,
    v: int,
    h: spec_fn(int) -> int,
    n: nat,
)
    requires
        degree_below(f, n),
        forall|x: int| #[trigger] h(x) == f(x) * (u + x * v),
    ensures
        degree_below(h, n + 1),
{
    let a = choose|c: Seq<int>| #[trigger] represents(c, f, n);
    let b = poly_times(u, a);
    let d = poly_times(v, a);
    let e = poly_shift(d);
    let c = poly_plus(b, e);
    assert forall|x: int| #[trigger] poly_eval(c, x) == h(x) by {
        let y = poly_eval(a, x);
        assert(y == f(x));
        assert(poly_eval(b, x) == u * y);
        assert(poly_eval(d, x) == v * y);
        assert(poly_eval(e, x) == x * (v * y));
        assert(u * y + x * (v * y) == y * (u + x * v)) by (nonlinear_arith);
    }
    lemma_degree_intro(c, h, n + 1);
}

/// Division by `x - z`: the quotient has one coefficient less.
proof fn poly_divide(c: Seq<int>, z: int) -> (q: Seq<int>)
    requires
        c.len() > 0,
    ensures
        q.len() == c.len() - 1,
        forall|x: int|
            #[trigger] poly_eval(q, x) * (x - z) == poly_eval(c, x) - poly_eval(c, z),
    decreases c.len(),
{
    let d = c.drop_first();
    if c.len() == 1 {
        assert forall|x: int|
            #[trigger] poly_eval(d, x) * (x - z) == poly_eval(c, x) - poly_eval(c, z) by {
            assert(poly_eval(d, x) == 0 && poly_eval(d, z) == 0);
            assert(x * 0 == 0 && z * 0 == 0 && 0 * (x - z) == 0) by (nonlinear_arith);
        }
        d
    } else {
        let e = poly_divide(d, z);
        let ze = poly_times(z, e);
        let q = poly_plus(d, ze);
        assert forall|x: int|
            #[trigger] poly_eval(q, x) * (x - z) == poly_eval(c, x) - poly_eval(c, z) by {
            let (dx, dz, ex) = (poly_eval(d, x), poly_eval(d, z), poly_eval(e, x));
            assert(ex * (x - z) == dx - dz);
            assert(poly_eval(ze, x) == z * ex);
            assert((dx + z * ex) * (x - z) == dx * (x - z) + z * (ex * (x - z)))
                by (nonlinear_arith);
            assert(dx * (x - z) + z * (dx - dz) == x * dx - z * dz) by (nonlinear_arith);
        }
        q
    }
}

/// A polynomial with more roots than its degree, whose differences have
/// inverses, vanishes everywhere.
proof fn lemma_roots(p: int, c: Seq<int>, xs: Seq<int>, at: int)
    requires
        p > 1,
        c.len() <= xs.len(),
        forall|i: int, j: int|
            0 <= i < j < xs.len() ==> #[trigger] invertible(p, xs[i] - xs[j]),
        forall|i: int| 0 <= i < xs.len() ==> eqm(p, poly_eval(c, #[trigger] xs[i]), 0),
    ensures
        eqm(p, poly_eval(c, at), 0),
    decreases xs.len(),
{
    if c.len() > 0 {
        let z = xs.last();
        let q = poly_divide(c, z);
        let ys = xs.drop_last();
        assert(eqm(p, poly_eval(c, xs[xs.len() - 1]), 0));
        assert forall|i: int| 0 <= i < ys.len() implies eqm(
            p,
            poly_eval(q, #[trigger] ys[i]),
            0,
        ) by {
            let x = xs[i];
            assert(ys[i] == x);
            assert(eqm(p, poly_eval(c, xs[i]), 0));
            assert(poly_eval(q, x) * (x - z) == poly_eval(c, x) - poly_eval(c, z));
            lemma_eqm_sub(p, poly_eval(c, x), 0, poly_eval(c, z), 0);
            assert(invertible(p, xs[i] - xs[xs.len() - 1]));
            let inv = choose|b: int| #[trigger] ((x - z) * b) % p == 1;
            let y = poly_eval(q, x);
            assert((x - z) * y == y * (x - z)) by (nonlinear_arith);
            assert((x - z) * 0 == 0);
            lemma_eqm_cancel(p, x - z, inv, y, 0);
        }
        assert forall|i: int, j: int| 0 <= i < j < ys.len() implies #[trigger] invertible(
            p,
            ys[i] - ys[j],
        ) by {
            assert(invertible(p, xs[i] - xs[j]));
        }
        lemma_roots(p, q, ys, at);
        let y = poly_eval(q, at);
        lemma_eqm_mul(p, y, 0, at - z, at - z);
        assert(0 * (at - z) == 0);
        assert(y * (at - z) == poly_eval(c, at) - poly_eval(c, z));
        lemma_eqm_add(p, y * (at - z), 0, poly_eval(c, z), 0);
    }
}

/// The product of `x - xs[j]` over `j < m`, all but `i`, is a polynomial in `x`.
proof fn lemma_product_but_degree(xs: Seq<int>, i: int, m: int, h: spec_fn(int) -> int)
    requires
        0 <= i,
        0 <= m <= xs.len(),
        forall|x: int| #[trigger]
            h(x) == product_but_below(xs, i, x, m),
    ensures
        degree_below(
            h,
            (if i < m {
                m
            } else {
                m + 1
            }) as nat,
        ),
    decreases m,
{
    if m == 0 {
        lemma_degree_const(1, h);
    } else {
        let g = |x: int| product_but_below(xs, i, x, m - 1);
        lemma_product_but_degree(xs, i, m - 1, g);
        if i == m - 1 {
            assert forall|x: int| #[trigger] h(x) == 1 * g(x) by {}
            lemma_degree_scale(1, g, h, m as nat);
        } else {
            let n = (if i < m - 1 {
                m - 1
            } else {
                m
            }) as nat;
            assert forall|x: int| #[trigger] h(x) == g(x) * (-xs[m - 1] + x * 1) by {}
            lemma_degree_mul_line(g, -xs[m - 1], 1, h, n);
        }
    }
}

/// The sum of the first `m` Lagrange polynomials with factors `ks` is a
/// polynomial.
proof fn lemma_lagrange_degree(xs: Seq<int>, ks: Seq<int>, m: int, h: spec_fn(int) -> int)
    requires
        0 <= m <= xs.len(),
        ks.len() == xs.len(),
        forall|x: int| #[trigger]
            h(x) == sum(|i: int| ks[i] * product_but(xs, i, x), 0, m),
    ensures
        degree_below(h, xs.len()),
    decreases m,
{
    if m == 0 {
        lemma_degree_zero(h, xs.len());
    } else {
        let g = |x: int| sum(|i: int| ks[i] * product_but(xs, i, x), 0, m - 1);
        lemma_lagrange_degree(xs, ks, m - 1, g);
        let last = |x: int| product_but(xs, m - 1, x);
        lemma_product_but_degree(xs, m - 1, xs.len() as int, last);
        let scaled = |x: int| ks[m - 1] * last(x);
        lemma_degree_scale(ks[m - 1], last, scaled, xs.len());
        assert forall|x: int| #[trigger] h(x) == g(x) + scaled(x) by {}
        lemma_degree_add(g, scaled, h, xs.len());
    }
}

/// Below `i` nothing is left out.
proof fn lemma_product_but_same(xs: Seq<int>, i: int, x: int, m: int)
    requires
        0 <= m <= i,
    ensures
        product_but_below(xs, i, x, m) == distances_below(xs, x, m),
    decreases m,
{
    if m > 0 {
        lemma_product_but_same(xs, i, x, m - 1);
    }
}

/// Every factor but that of `i` is one of `product_but`; together with
/// `x - xs[i]` they make the product over all points.
proof fn lemma_product_but_complete(xs: Seq<int>, i: int, x: int, m: int)
    requires
        0 <= i < m <= xs.len(),
    ensures
        product_but_below(xs, i, x, m) * (x - xs[i]) == distances_below(xs, x, m),
    decreases m,
{
    let d = x - xs[i];
    let a = product_but_below(xs, i, x, m - 1);
    let b = distances_below(xs, x, m - 1);
    if i == m - 1 {
        lemma_product_but_same(xs, i, x, m - 1);
        assert(product_but_below(xs, i, x, m) == a * 1);
        assert(distances_below(xs, x, m) == b * d);
        assert((a * 1) * d == a * d) by (nonlinear_arith);
    } else {
        lemma_product_but_complete(xs, i, x, m - 1);
        let e = x - xs[m - 1];
        assert(product_but_below(xs, i, x, m) == a * e);
        assert(distances_below(xs, x, m) == b * e);
        assert((a * e) * d == (a * d) * e) by (nonlinear_arith);
    }
}

/// `product_but` vanishes at every point but that of `i`.
proof fn lemma_product_but_zero(xs: Seq<int>, i: int, k: int, m: int)
    requires
        0 <= k < m <= xs.len(),
        k != i,
    ensures
        product_but_below(xs, i, xs[k], m) == 0,
    decreases m,
{
    let a = product_but_below(xs, i, xs[k], m - 1);
    if k == m - 1 {
        assert(product_but_below(xs, i, xs[k], m) == a * 0);
    } else {
        lemma_product_but_zero(xs, i, k, m - 1);
        let b = if m - 1 == i {
            1
        } else {
            xs[k] - xs[m - 1]
        };
        assert(product_but_below(xs, i, xs[k], m) == a * b);
        assert(0 * b == 0);
    }
}

/// Lagrange interpolation: a polynomial of degree below the number of points
/// is the sum of its values there, each times its Lagrange polynomial.
pub proof fn lemma_lagrange(
    p: int,
    g: spec_fn(int) -> int,
    xs: Seq<int>,
    ws: Seq<int>,
    at: int,
)
    requires
        p > 1,
        degree_below(g, xs.len()),
        ws.len() == xs.len(),
        forall|i: int, j: int|
            0 <= i < j < xs.len() ==> #[trigger] invertible(p, xs[i] - xs[j]),
        forall|i: int|
            0 <= i < xs.len() ==> (product_but(xs, i, xs[i]) * #[trigger] ws[i]) % p == 1,
    ensures
        eqm(
            p,
            g(at),
            sum(|i: int| (g(xs[i]) * ws[i]) * product_but(xs, i, at), 0, xs.len() as int),
        ),
{
    let n = xs.len() as int;
    let ks = Seq::new(xs.len(), |i: int| g(xs[i]) * ws[i]);
    let h = |x: int| sum(|i: int| ks[i] * product_but(xs, i, x), 0, n);
    lemma_lagrange_degree(xs, ks, n, h);
    let minus = |x: int| -1 * h(x);
    lemma_degree_scale(-1, h, minus, xs.len());
    let diff = |x: int| g(x) + minus(x);
    lemma_degree_add(g, minus, diff, xs.len());
    let c = choose|c: Seq<int>| #[trigger] represents(c, diff, xs.len());
    lemma_small_mod(1, p as nat);
    assert forall|k: int| 0 <= k < xs.len() implies eqm(p, poly_eval(c, #[trigger] xs[k]), 0) by {
        let x = xs[k];
        assert(poly_eval(c, x) == diff(x));
        let terms = |i: int| ks[i] * product_but(xs, i, x);
        assert forall|i: int| 0 <= i < n && i != k implies #[trigger] terms(i) == 0 by {
            lemma_product_but_zero(xs, i, k, n);
            assert(ks[i] * 0 == 0);
        }
        lemma_sum_single(terms, 0, n, k);
        let (y, w, q) = (g(x), ws[k], product_but(xs, k, x));
        assert(h(x) == (y * w) * q);
        assert((y * w) * q == y * (q * w)) by (nonlinear_arith);
        lemma_eqm_mul(p, y, y, q * w, 1);
        lemma_eqm_sub(p, y, y, y * (q * w), y * 1);
        assert(diff(x) == y - y * (q * w));
    }
    lemma_roots(p, c, xs, at);
    assert(poly_eval(c, at) == diff(at));
    lemma_eqm_add(p, diff(at), 0, h(at), h(at));
    let f = |i: int| (g(xs[i]) * ws[i]) * product_but(xs, i, at);
    let terms = |i: int| ks[i] * product_but(xs, i, at);
    lemma_sum_ext(terms, f, 0, n);
}

/// One step of the barycentric formula: the sum of the products of values and
/// coefficients, times the product of all distances, is the value at `at`.
proof fn lemma_barycentric_sum(
    p: int,
    g: spec_fn(int) -> int,
    xs: Seq<int>,
    ws: Seq<int>,
    cs: Seq<int>,
    at: int,
)
    requires
        p > 1,
        degree_below(g, xs.len()),
        ws.len() == xs.len(),
        cs.len() == xs.len(),
        forall|i: int, j: int|
            0 <= i < j < xs.len() ==> #[trigger] invertible(p, xs[i] - xs[j]),
        forall|i: int|
            0 <= i < xs.len() ==> (product_but(xs, i, xs[i]) * #[trigger] ws[i]) % p == 1,
        forall|i: int|
            0 <= i < xs.len() ==> eqm(p, (#[trigger] cs[i]) * (at - xs[i]), ws[i]),
    ensures
        eqm(
            p,
            g(at),
            distances_below(xs, at, xs.len() as int) * sum(
                |i: int| cs[i] * g(xs[i]),
                0,
                xs.len() as int,
            ),
        ),
{
    let n = xs.len() as int;
    let l = distances_below(xs, at, n);
    lemma_lagrange(p, g, xs, ws, at);
    let f = |i: int| (g(xs[i]) * ws[i]) * product_but(xs, i, at);
    let e = |i: int| cs[i] * g(xs[i]);
    let h = |i: int| l * e(i);
    assert forall|i: int| 0 <= i < n implies eqm(p, #[trigger] f(i), h(i)) by {
        lemma_product_but_complete(xs, i, at, n);
        let (y, w, c, q, d) = (g(xs[i]), ws[i], cs[i], product_but(xs, i, at), at - xs[i]);
        assert(q * d == l);
        assert(eqm(p, cs[i] * (at - xs[i]), ws[i]));
        lemma_eqm_mul(p, w, c * d, y * q, y * q);
        assert((y * w) * q == w * (y * q)) by (nonlinear_arith);
        assert((c * d) * (y * q) == (q * d) * (c * y)) by (nonlinear_arith);
    }
    lemma_sum_eqm(p, f, h, 0, n);
    lemma_sum_scale(l, e, 0, n);
}

/// The barycentric formula: a polynomial `g` of degree below the number of
/// points takes at `at` the value that its values at the points determine.
pub proof fn lemma_barycentric(
    p: int,
    g: spec_fn(int) -> int,
    xs: Seq<int>,
    ws: Seq<int>,
    cs: Seq<int>,
    at: int,
    inv: int,
)
    requires
        p > 1,
        xs.len() > 0,
        degree_below(g, xs.len()),
        ws.len() == xs.len(),
        cs.len() == xs.len(),
        forall|i: int, j: int|
            0 <= i < j < xs.len() ==> #[trigger] invertible(p, xs[i] - xs[j]),
        forall|i: int|
            0 <= i < xs.len() ==> (product_but(xs, i, xs[i]) * #[trigger] ws[i]) % p == 1,
        forall|i: int|
            0 <= i < xs.len() ==> eqm(p, (#[trigger] cs[i]) * (at - xs[i]), ws[i]),
        (sum(|i: int| cs[i], 0, xs.len() as int) % p != 0) ==> (sum(
            |i: int| cs[i],
            0,
            xs.len() as int,
        ) * inv) % p == 1,
    ensures
        eqm(p, g(at), sum(|i: int| cs[i] * g(xs[i]), 0, xs.len() as int) * inv),
{
    let n = xs.len() as int;
    let l = distances_below(xs, at, n);
    let s = sum(|i: int| cs[i], 0, n);
    let one = |x: int| 1int;
    lemma_degree_const(1, one);
    let c1 = choose|c: Seq<int>| #[trigger] represents(c, one, 1);
    lemma_degree_intro(c1, one, xs.len());
    lemma_barycentric_sum(p, one, xs, ws, cs, at);
    lemma_barycentric_sum(p, g, xs, ws, cs, at);
    let e = |i: int| cs[i] * one(xs[i]);
    let f = |i: int| cs[i];
    assert forall|i: int| 0 <= i < n implies #[trigger] e(i) == f(i) by {
        assert(one(xs[i]) == 1);
    }
    lemma_sum_ext(e, f, 0, n);
    lemma_small_mod(1, p as nat);
    lemma_small_mod(0, p as nat);
    // 1 is congruent to l * s, so s is no multiple of p and inv is l.
    assert(eqm(p, 1, l * s));
    if s % p == 0 {
        lemma_eqm_mul(p, l, l, s, 0);
        assert(l * 0 == 0);
        assert(false);
    }
    assert(s * l == l * s) by (nonlinear_arith);
    lemma_eqm_cancel(p, s, inv, l, inv);
    let t = sum(|i: int| cs[i] * g(xs[i]), 0, n);
    lemma_eqm_mul(p, l, inv, t, t);
    assert(inv * t == t * inv) by (nonlinear_arith);
}

/// A factor of an invertible product is invertible.
proof fn lemma_invertible_factor(p: int, a: int, b: int)
    requires
        invertible(p, a * b),
    ensures
        invertible(p, a),
        invertible(p, b),
{
    let c = choose|c: int| #[trigger] ((a * b) * c) % p == 1;
    assert((a * b) * c == a * (b * c)) by (nonlinear_arith);
    assert((a * b) * c == b * (a * c)) by (nonlinear_arith);
    assert((a * (b * c)) % p == 1);
    assert((b * (a * c)) % p == 1);
}

/// The distances to the other points divide their product.
proof fn lemma_invertible_distances(p: int, xs: Seq<int>, i: int, j: int, m: int)
    requires
        0 <= j < m <= xs.len(),
        i != j,
        invertible(p, product_but_below(xs, i, xs[i], m)),
    ensures
        invertible(p, xs[i] - xs[j]),
    decreases m,
{
    let a = product_but_below(xs, i, xs[i], m - 1);
    let b = if m - 1 == i {
        1
    } else {
        xs[i] - xs[m - 1]
    };
    assert(product_but_below(xs, i, xs[i], m) == a * b);
    lemma_invertible_factor(p, a, b);
    if j < m - 1 {
        lemma_invertible_distances(p, xs, i, j, m - 1);
    }
}

/// The barycentric formula gives the value of a polynomial `g` at every place
/// `at` from its values `ys` at distinct points, none of them `at` and more of
/// them than its degree.
pub proof fn lemma_extrapolation(
    p: int,
    xs: Seq<int>,
    ws: Seq<int>,
    ys: Seq<int>,
    at: int,
    g: spec_fn(int) -> int,
)
    requires
        p > 1,
        distinct_points(p, xs),
        are_weights(p, xs, ws),
        forall|i: int| 0 <= i < xs.len() ==> (at - #[trigger] xs[i]) % p != 0,
        inverses_taken(p, xs, ws, at),
        ys.len() == xs.len(),
        degree_below(g, xs.len()),
        forall|i: int| 0 <= i < xs.len() ==> eqm(p, #[trigger] ys[i], g(xs[i])),
    ensures
        barycentric(p, xs, ws, ys, at) == g(at) % p,
{
    let n = xs.len() as int;
    let cs = Seq::new(xs.len(), |i: int| barycentric_coeff(p, xs, ws, at, i));
    let total = barycentric_total(p, xs, ws, at);
    let inv = inverse_mod(p, total % p);
    lemma_small_mod(1, p as nat);
    lemma_small_mod(0, p as nat);
    if n == 0 {
        let c = choose|c: Seq<int>| #[trigger] represents(c, g, 0);
        assert(poly_eval(c, at) == g(at));
        assert(0 * inv == 0);
    } else {
        assert forall|i: int| 0 <= i < xs.len() implies (product_but(xs, i, xs[i])
            * #[trigger] ws[i]) % p == 1 by {
            let q = product_but(xs, i, xs[i]);
            assert(is_inverse(p, ws[i], q % p));
            assert(q % p != 0);
            lemma_mod_twice(q, p);
            lemma_eqm_mul(p, q % p, q, ws[i], ws[i]);
        }
        assert forall|i: int, j: int| 0 <= i < j < xs.len() implies #[trigger] invertible(
            p,
            xs[i] - xs[j],
        ) by {
            let q = product_but(xs, i, xs[i]);
            assert((q * ws[i]) % p == 1);
            assert(invertible(p, q));
            lemma_invertible_distances(p, xs, i, j, n);
        }
        assert forall|i: int| 0 <= i < xs.len() implies eqm(
            p,
            (#[trigger] cs[i]) * (at - xs[i]),
            ws[i],
        ) by {
            let a = at - xs[i];
            assert(invertible(p, at - xs[i]));
            let b = choose|b: int| #[trigger] (a * b) % p == 1;
            lemma_mod_twice(a, p);
            lemma_eqm_mul(p, a % p, a, b, b);
            lemma_inverse_mod(p, a % p, b);
            let c = inverse_mod(p, a % p);
            lemma_eqm_mul(p, a % p, a, c, c);
            lemma_eqm_mul(p, a * c, 1, ws[i], ws[i]);
            let w = ws[i];
            assert((c * w) * a == (a * c) * w) by (nonlinear_arith);
        }
        let f = |i: int| cs[i];
        let f2 = |i: int| barycentric_coeff(p, xs, ws, at, i);
        lemma_sum_ext(f, f2, 0, n);
        if total % p != 0 {
            lemma_mod_twice(total, p);
            lemma_eqm_mul(p, total % p, total, inv, inv);
        }
        lemma_barycentric(p, g, xs, ws, cs, at, inv);
        let h = |i: int| cs[i] * g(xs[i]);
        let h2 = |i: int| barycentric_coeff(p, xs, ws, at, i) * ys[i];
        assert forall|i: int| 0 <= i < n implies eqm(p, #[trigger] h(i), h2(i)) by {
            assert(eqm(p, ys[i], g(xs[i])));
            lemma_eqm_mul(p, cs[i], cs[i], g(xs[i]), ys[i]);
        }
        lemma_sum_eqm(p, h, h2, 0, n);
        lemma_eqm_mul(p, sum(h, 0, n), sum(h2, 0, n), inv, inv);
    }
}

/// The distance of two distinct points, taken either way.
pub proof fn lemma_distance_nonzero(p: int, xs: Seq<int>, i: int, j: int)
    requires
        p > 0,
        distinct_points(p, xs),
        0 <= i < xs.len(),
        0 <= j < xs.len(),
        i != j,
    ensures
        (xs[i] - xs[j]) % p != 0,
{
    if j < i {
        let d = xs[j] - xs[i];
        assert(d % p != 0);
        lemma_small_mod(0, p as nat);
        if (-d) % p == 0 {
            lemma_eqm_sub(p, 0, 0, -d, 0);
        }
    }
}

/// The numbers `0, ..., n - 1` are distinct points.
pub proof fn lemma_counting_distinct(p: int, n: int)
    requires
        0 <= n <= p,
    ensures
        distinct_points(p, counting(n)),
{
    let xs = counting(n);
    assert forall|i: int, j: int| 0 <= i < j < xs.len() implies ((#[trigger] xs[i]) - (
    #[trigger] xs[j])) % p != 0 by {
        let d = (p - (j - i)) as nat;
        lemma_small_mod(d, p as nat);
        lemma_mod_add_multiples_vanish(-(j - i), p);
    }
}

/// The function `x -> g(x + 1)` has the degree of `g`.
proof fn lemma_degree_shift(c: Seq<int>, h: spec_fn(int) -> int)
    requires
        forall|x: int| #[trigger] h(x) == poly_eval(c, x + 1),
    ensures
        degree_below(h, c.len()),
    decreases c.len(),
{
    if c.len() == 0 {
        lemma_degree_zero(h, 0);
    } else {
        let d = c.drop_first();
        let q = |x: int| poly_eval(d, x + 1);
        lemma_degree_shift(d, q);
        let m = |x: int| q(x) * (1 + x * 1);
        lemma_degree_mul_line(q, 1, 1, m, d.len());
        let k = |x: int| c[0];
        lemma_degree_const(c[0], k);
        lemma_degree_monotone(k, 1, c.len());
        assert forall|x: int| #[trigger] h(x) == k(x) + m(x) by {
            let y = poly_eval(d, x + 1);
            assert((x + 1) * y == y * (1 + x * 1)) by (nonlinear_arith);
        }
        lemma_degree_add(k, m, h, c.len());
    }
}

/// The difference `g(x + 1) - g(x)` has a degree one lower.
proof fn lemma_degree_difference(c: Seq<int>, h: spec_fn(int) -> int)
    requires
        c.len() > 0,
        forall|x: int| #[trigger] h(x) == poly_eval(c, x + 1) - poly_eval(c, x),
    ensures
        degree_below(h, (c.len() - 1) as nat),
    decreases c.len(),
{
    let d = c.drop_first();
    let n = d.len();
    if n == 0 {
        assert forall|x: int| #[trigger] h(x) == 0 by {
            assert(poly_eval(d, x + 1) == 0 && poly_eval(d, x) == 0);
            assert((x + 1) * 0 == 0 && x * 0 == 0);
        }
        lemma_degree_zero(h, 0);
    } else {
        let shifted = |x: int| poly_eval(d, x + 1);
        lemma_degree_shift(d, shifted);
        let e = |x: int| poly_eval(d, x + 1) - poly_eval(d, x);
        lemma_degree_difference(d, e);
        let m = |x: int| e(x) * (0 + x * 1);
        lemma_degree_mul_line(e, 0, 1, m, (n - 1) as nat);
        assert forall|x: int| #[trigger] h(x) == shifted(x) + m(x) by {
            let (y, z) = (poly_eval(d, x + 1), poly_eval(d, x));
            assert((x + 1) * y - x * z == y + (y - z) * (0 + x * 1)) by (nonlinear_arith);
        }
        lemma_degree_add(shifted, m, h, n);
    }
}

/// A function whose steps vanish modulo `p` is constant modulo `p`.
proof fn lemma_constant(p: int, g: spec_fn(int) -> int, x: int)
    requires
        p > 0,
        forall|y: int| eqm(p, #[trigger] g(y + 1) - g(y), 0),
    ensures
        eqm(p, g(x), g(0)),
    decreases if x >= 0 {
        x
    } else {
        -x
    },
{
    if x > 0 {
        lemma_constant(p, g, x - 1);
        assert(eqm(p, g((x - 1) + 1) - g(x - 1), 0));
        lemma_eqm_add(p, g(x) - g(x - 1), 0, g(x - 1), g(0));
    } else if x < 0 {
        lemma_constant(p, g, x + 1);
        assert(eqm(p, g(x + 1) - g(x), 0));
        lemma_eqm_sub(p, g(x + 1), g(0), g(x + 1) - g(x), 0);
    }
}

/// A polynomial of degree below `n` that vanishes at `0, ..., n - 1` modulo `p`
/// vanishes everywhere modulo `p`.
proof fn lemma_vanishing(p: int, n: nat, g: spec_fn(int) -> int, x: int)
    requires
        p > 0,
        degree_below(g, n),
        forall|j: int| 0 <= j < n ==> eqm(p, #[trigger] g(j), 0),
    ensures
        eqm(p, g(x), 0),
    decreases n,
{
    let c = choose|c: Seq<int>| #[trigger] represents(c, g, n);
    assert(poly_eval(c, x) == g(x));
    if c.len() > 0 {
        let m = (n - 1) as nat;
        let h = |y: int| g(y + 1) - g(y);
        assert forall|y: int| #[trigger] h(y) == poly_eval(c, y + 1) - poly_eval(c, y) by {}
        lemma_degree_difference(c, h);
        lemma_degree_monotone(h, (c.len() - 1) as nat, m);
        assert forall|j: int| 0 <= j < m implies eqm(p, #[trigger] h(j), 0) by {
            assert(eqm(p, g(j + 1), 0));
            assert(eqm(p, g(j), 0));
            lemma_eqm_sub(p, g(j + 1), 0, g(j), 0);
        }
        assert forall|y: int| eqm(p, #[trigger] g(y + 1) - g(y), 0) by {
            lemma_vanishing(p, m, h, y);
            assert(h(y) == g(y + 1) - g(y));
        }
        lemma_constant(p, g, x);
        assert(eqm(p, g(0), 0));
    }
}

/// Two polynomials of degree below `n` that are congruent at `0, ..., n - 1`
/// are congruent everywhere.
pub proof fn lemma_polynomial_unique(
    p: int,
    n: nat,
    f: spec_fn(int) -> int,
    g: spec_fn(int) -> int,
    x: int,
)
    requires
        p > 0,
        degree_below(f, n),
        degree_below(g, n),
        forall|j: int| 0 <= j < n ==> eqm(p, #[trigger] f(j), g(j)),
    ensures
        eqm(p, f(x), g(x)),
{
    let minus = |y: int| -1 * g(y);
    lemma_degree_scale(-1, g, minus, n);
    let diff = |y: int| f(y) + minus(y);
    lemma_degree_add(f, minus, diff, n);
    assert forall|j: int| 0 <= j < n implies eqm(p, #[trigger] diff(j), 0) by {
        assert(eqm(p, f(j), g(j)));
        lemma_eqm_sub(p, f(j), g(j), g(j), g(j));
    }
    lemma_vanishing(p, n, diff, x);
    lemma_eqm_add(p, diff(x), 0, g(x), g(x));
}

/// A polynomial of degree at most 1 is a line.
pub proof fn lemma_line(g: spec_fn(int) -> int)
    requires
        degree_below(g, 2),
    ensures
        g(2) == 2 * g(1) - g(0),
{
    let c = choose|c: Seq<int>| #[trigger] represents(c, g, 2);
    reveal_with_fuel(poly_eval, 3);
    assert(poly_eval(c, 0) == g(0));
    assert(poly_eval(c, 1) == g(1));
    assert(poly_eval(c, 2) == g(2));
}

} // verus!
