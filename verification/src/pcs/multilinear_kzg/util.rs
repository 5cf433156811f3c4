//! The equality polynomial at a pair of points.

use crate::errors::PCSError;
use crate::field::{vals, PrimeField};
use crate::math::modular::{eqm, lemma_eqm_add, lemma_eqm_mul, lemma_eqm_sub};
use crate::math::multilinear::eq_points;
use vstd::arithmetic::div_mod::{lemma_mod_twice, lemma_small_mod};
use vstd::arithmetic::power2::{lemma2_to64, lemma_pow2_pos, lemma_pow2_strictly_increases, pow2};
use vstd::prelude::*;

verus! {

/// `r` is the smallest number of bits that count `x` things.
pub open spec fn is_ceil_log2(x: nat, r: nat) -> bool {
    &&& x <= pow2(r)
    &&& x <= 1 ==> r == 0
    &&& x > 1 ==> pow2((r - 1) as nat) < x
}

/// The base-2 logarithm of `ark_std::log2`, rounded up. Claims that it is the
/// smallest number of bits that count `x` things, and 0 for `x = 0`.
pub assume_specification[ ark_std::log2 ](x: usize) -> (r: u32)
    ensures
        is_ceil_log2(x as nat, r as nat),
;

/// A power of two has its exponent as its logarithm.
pub proof fn lemma_ceil_log2_unique(x: nat, r: nat, n: nat)
    requires
        is_ceil_log2(x, r),
        x == pow2(n),
    ensures
        r == n,
{
    lemma2_to64();
    if n > r {
        lemma_pow2_strictly_increases(r, n);
    } else if n < r {
        lemma_pow2_pos(n);
        if x > 1 {
            if n < r - 1 {
                lemma_pow2_strictly_increases(n, (r - 1) as nat);
            }
        } else if n > 0 {
            lemma_pow2_strictly_increases(0, n);
        }
    }
}

/// One more coordinate multiplies one more factor.
proof fn lemma_eq_points_push(a: Seq<int>, b: Seq<int>, x: int, y: int)
    requires
        a.len() == b.len(),
    ensures
        eq_points(a.push(x), b.push(y)) == eq_points(a, b) * (x * y + (1 - x) * (1 - y)),
    decreases a.len(),
{
    let (c, d) = (a.push(x), b.push(y));
    let f = x * y + (1 - x) * (1 - y);
    if a.len() == 0 {
        assert(c.drop_first() =~= Seq::<int>::empty());
        assert(eq_points(c.drop_first(), d.drop_first()) == 1);
        assert(f * 1 == 1 * f) by (nonlinear_arith);
    } else {
        assert(c.drop_first() =~= a.drop_first().push(x));
        assert(d.drop_first() =~= b.drop_first().push(y));
        lemma_eq_points_push(a.drop_first(), b.drop_first(), x, y);
        let g = a[0] * b[0] + (1 - a[0]) * (1 - b[0]);
        let e = eq_points(a.drop_first(), b.drop_first());
        assert(g * (e * f) == (g * e) * f) by (nonlinear_arith);
    }
}

/// The equality polynomial at `(x, y)`.
pub fn eq_eval<F: PrimeField>(x: &[F], y: &[F]) -> (r: Result<F, PCSError>)
    ensures
        r is Err <==> x@.len() != y@.len(),
        r matches Err(e) ==> e.is_invalid_parameters("x and y have different length"@),
        r matches Ok(v) ==> v.val() == eq_points(vals(x@), vals(y@)) % F::modulus(),
{
    if x.len() != y.len() {
        return Err(PCSError::InvalidParameters("x and y have different length".to_string()));
    }
    let ghost p = F::modulus();
    let ghost (xs, ys) = (vals(x@), vals(y@));
    proof {
        F::lemma_modulus();
        F::lemma_val();
    }
    let mut res = F::one();
    let mut i: usize = 0;
    while i < x.len()
        invariant
            0 <= i <= x@.len(),
            x@.len() == y@.len(),
            p == F::modulus(),
            p > u64::MAX,
            xs == vals(x@),
            ys == vals(y@),
            eqm(p, res.val(), eq_points(xs.take(i as int), ys.take(i as int))),
        decreases x.len() - i,
    {
        let both = x[i].mul(y[i]);
        let factor = both.add(both).sub(x[i]).sub(y[i]).add(F::one());
        proof {
            broadcast use lemma_mod_twice;

            let (a, b) = (xs[i as int], ys[i as int]);
            let (ps, qs) = (xs.take(i as int), ys.take(i as int));
            assert(xs.take(i + 1) =~= ps.push(a));
            assert(ys.take(i + 1) =~= qs.push(b));
            lemma_eq_points_push(ps, qs, a, b);
            let m = (a * b) % p;
            lemma_eqm_add(p, m, a * b, m, a * b);
            let s1 = (m + m) % p;
            lemma_eqm_sub(p, s1, a * b + a * b, a, a);
            let s2 = (s1 - a) % p;
            lemma_eqm_sub(p, s2, a * b + a * b - a, b, b);
            let s3 = (s2 - b) % p;
            lemma_eqm_add(p, s3, a * b + a * b - a - b, 1, 1);
            assert(a * b + a * b - a - b + 1 == a * b + (1 - a) * (1 - b)) by (nonlinear_arith);
            lemma_eqm_mul(
                p,
                res.val(),
                eq_points(ps, qs),
                factor.val(),
                a * b + (1 - a) * (1 - b),
            );
        }
        res = res.mul(factor);
        i = i + 1;
    }
    proof {
        assert(xs.take(i as int) =~= xs);
        assert(ys.take(i as int) =~= ys);
        lemma_small_mod(res.val() as nat, p as nat);
    }
    Ok(res)
}

} // verus!
