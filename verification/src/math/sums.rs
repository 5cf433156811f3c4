//! Finite sums and products of integers over index ranges.

use crate::math::modular::{eqm, lemma_eqm_add, lemma_eqm_mul};
use vstd::prelude::*;

verus! {

/// `f(lo) + f(lo + 1) + ... + f(hi - 1)`.
pub open spec fn sum(f: spec_fn(int) -> int, lo: int, hi: int) -> int
    decreases hi - lo,
{
    if hi <= lo {
        0
    } else {
        sum(f, lo, hi - 1) + f(hi - 1)
    }
}

/// `f(lo) * f(lo + 1) * ... * f(hi - 1)`.
pub open spec fn product(f: spec_fn(int) -> int, lo: int, hi: int) -> int
    decreases hi - lo,
{
    if hi <= lo {
        1
    } else {
        product(f, lo, hi - 1) * f(hi - 1)
    }
}

/// The weighted sum of the first `m` values.
pub open spec fn weighted_sum(ws: Seq<int>, ys: Seq<int>, m: int) -> int {
    sum(|i: int| ws[i] * ys[i], 0, m)
}

/// The smaller of two numbers.
pub open spec fn smaller(a: int, b: int) -> int {
    if a <= b {
        a
    } else {
        b
    }
}

/// `0, 1, ..., n - 1`.
pub open spec fn counting(n: int) -> Seq<int> {
    Seq::new(n as nat, |k: int| k)
}

pub proof fn lemma_sum_ext(f: spec_fn(int) -> int, g: spec_fn(int) -> int, lo: int, hi: int)
    requires
        forall|i: int| lo <= i < hi ==> #[trigger] f(i) == g(i),
    ensures
        sum(f, lo, hi) == sum(g, lo, hi),
    decreases hi - lo,
{
    if lo < hi {
        lemma_sum_ext(f, g, lo, hi - 1);
    }
}

pub proof fn lemma_sum_eqm(
    p: int,
    f: spec_fn(int) -> int,
    g: spec_fn(int) -> int,
    lo: int,
    hi: int,
)
    requires
        p > 0,
        forall|i: int| lo <= i < hi ==> eqm(p, #[trigger] f(i), g(i)),
    ensures
        eqm(p, sum(f, lo, hi), sum(g, lo, hi)),
    decreases hi - lo,
{
    if lo < hi {
        lemma_sum_eqm(p, f, g, lo, hi - 1);
        lemma_eqm_add(p, sum(f, lo, hi - 1), sum(g, lo, hi - 1), f(hi - 1), g(hi - 1));
    }
}

pub proof fn lemma_sum_zero(f: spec_fn(int) -> int, lo: int, hi: int)
    requires
        forall|i: int| lo <= i < hi ==> #[trigger] f(i) == 0,
    ensures
        sum(f, lo, hi) == 0,
    decreases hi - lo,
{
    if lo < hi {
        lemma_sum_zero(f, lo, hi - 1);
    }
}

pub proof fn lemma_sum_add(f: spec_fn(int) -> int, g: spec_fn(int) -> int, lo: int, hi: int)
    ensures
        sum(|i: int| f(i) + g(i), lo, hi) == sum(f, lo, hi) + sum(g, lo, hi),
    decreases hi - lo,
{
    if lo < hi {
        lemma_sum_add(f, g, lo, hi - 1);
    }
}

pub proof fn lemma_sum_scale(c: int, f: spec_fn(int) -> int, lo: int, hi: int)
    ensures
        sum(|i: int| c * f(i), lo, hi) == c * sum(f, lo, hi),
    decreases hi - lo,
{
    if lo < hi {
        lemma_sum_scale(c, f, lo, hi - 1);
        let s = sum(f, lo, hi - 1);
        let x = f(hi - 1);
        assert(c * (s + x) == c * s + c * x) by (nonlinear_arith);
    }
}

pub proof fn lemma_sum_split(f: spec_fn(int) -> int, lo: int, mid: int, hi: int)
    requires
        lo <= mid <= hi,
    ensures
        sum(f, lo, hi) == sum(f, lo, mid) + sum(f, mid, hi),
    decreases hi - mid,
{
    if mid < hi {
        lemma_sum_split(f, lo, mid, hi - 1);
    }
}

pub proof fn lemma_sum_shift(f: spec_fn(int) -> int, lo: int, n: int)
    requires
        n >= 0,
    ensures
        sum(f, lo, lo + n) == sum(|k: int| f(lo + k), 0, n),
    decreases n,
{
    if n > 0 {
        lemma_sum_shift(f, lo, n - 1);
    }
}

/// A sum whose only nonzero term is that of `k`.
pub proof fn lemma_sum_single(f: spec_fn(int) -> int, lo: int, hi: int, k: int)
    requires
        lo <= k < hi,
        forall|i: int| lo <= i < hi && i != k ==> #[trigger] f(i) == 0,
    ensures
        sum(f, lo, hi) == f(k),
{
    lemma_sum_split(f, lo, k, hi);
    lemma_sum_split(f, k, k + 1, hi);
    lemma_sum_zero(f, lo, k);
    lemma_sum_zero(f, k + 1, hi);
    assert(sum(f, k, k + 1) == sum(f, k, k) + f(k));
}

/// The terms of an even number of indices, taken two by two.
pub proof fn lemma_sum_pairs(f: spec_fn(int) -> int, n: int)
    requires
        n >= 0,
    ensures
        sum(f, 0, 2 * n) == sum(|b: int| f(2 * b) + f(2 * b + 1), 0, n),
    decreases n,
{
    if n > 0 {
        lemma_sum_pairs(f, n - 1);
        assert(sum(f, 0, 2 * n) == sum(f, 0, 2 * n - 1) + f(2 * n - 1));
        assert(sum(f, 0, 2 * n - 1) == sum(f, 0, 2 * n - 2) + f(2 * n - 2));
    }
}

/// The order of two finite summations can be exchanged.
pub proof fn lemma_sum_swap(f: spec_fn(int, int) -> int, a: int, b: int, c: int, d: int)
    ensures
        sum(|i: int| sum(|j: int| f(i, j), c, d), a, b) == sum(
            |j: int| sum(|i: int| f(i, j), a, b),
            c,
            d,
        ),
    decreases b - a,
{
    let rows = |i: int| sum(|j: int| f(i, j), c, d);
    let cols = |j: int| sum(|i: int| f(i, j), a, b);
    if a < b {
        lemma_sum_swap(f, a, b - 1, c, d);
        let shorter = |j: int| sum(|i: int| f(i, j), a, b - 1);
        let last = |j: int| f(b - 1, j);
        lemma_sum_add(shorter, last, c, d);
        let both = |j: int| shorter(j) + last(j);
        assert forall|j: int| c <= j < d implies #[trigger] cols(j) == both(j) by {
            let col = |i: int| f(i, j);
            assert(sum(col, a, b) == sum(col, a, b - 1) + col(b - 1));
        }
        lemma_sum_ext(cols, both, c, d);
    } else {
        assert forall|j: int| c <= j < d implies #[trigger] cols(j) == 0 by {}
        lemma_sum_zero(cols, c, d);
    }
}

pub proof fn lemma_product_ext(f: spec_fn(int) -> int, g: spec_fn(int) -> int, lo: int, hi: int)
    requires
        forall|i: int| lo <= i < hi ==> #[trigger] f(i) == g(i),
    ensures
        product(f, lo, hi) == product(g, lo, hi),
    decreases hi - lo,
{
    if lo < hi {
        lemma_product_ext(f, g, lo, hi - 1);
    }
}

pub proof fn lemma_product_eqm(
    p: int,
    f: spec_fn(int) -> int,
    g: spec_fn(int) -> int,
    lo: int,
    hi: int,
)
    requires
        p > 0,
        forall|i: int| lo <= i < hi ==> eqm(p, #[trigger] f(i), g(i)),
    ensures
        eqm(p, product(f, lo, hi), product(g, lo, hi)),
    decreases hi - lo,
{
    if lo < hi {
        lemma_product_eqm(p, f, g, lo, hi - 1);
        lemma_eqm_mul(p, product(f, lo, hi - 1), product(g, lo, hi - 1), f(hi - 1), g(hi - 1));
    }
}

} // verus!
