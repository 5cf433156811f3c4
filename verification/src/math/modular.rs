//! Congruences modulo a positive integer.

use vstd::arithmetic::div_mod::*;
use vstd::prelude::*;

verus! {

/// `a` and `b` leave the same remainder modulo `p`.
pub open spec fn eqm(p: int, a: int, b: int) -> bool {
    a % p == b % p
}

/// The remainders of a sequence of integers modulo `p`.
pub open spec fn residues(p: int, s: Seq<int>) -> Seq<int> {
    Seq::new(s.len(), |i: int| s[i] % p)
}

/// Two sequences of one length with congruent entries.
pub open spec fn eqm_seq(p: int, s: Seq<int>, t: Seq<int>) -> bool {
    &&& s.len() == t.len()
    &&& forall|i: int| 0 <= i < s.len() ==> eqm(p, #[trigger] s[i], t[i])
}

/// The inverse of `a` modulo `p` in the range `0..p`, and 0 for a multiple of
/// `p`.
pub open spec fn inverse_mod(p: int, a: int) -> int {
    if a % p == 0 {
        0
    } else {
        choose|b: int| 0 <= b < p && #[trigger] (a * b) % p == 1
    }
}

/// `b` is the inverse of `a` modulo `p`; zero counts as its own inverse.
pub open spec fn is_inverse(p: int, b: int, a: int) -> bool {
    &&& b == inverse_mod(p, a)
    &&& a != 0 ==> (a * b) % p == 1
}

/// Congruent integers in the range `0..p` are equal.
pub proof fn lemma_residue_unique(p: int, a: int, b: int)
    requires
        0 <= a < p,
        0 <= b < p,
        eqm(p, a, b),
    ensures
        a == b,
{
    lemma_small_mod(a as nat, p as nat);
    lemma_small_mod(b as nat, p as nat);
}

pub proof fn lemma_eqm_residue(p: int, a: int)
    requires
        p > 0,
    ensures
        eqm(p, a % p, a),
        0 <= a % p < p,
{
    lemma_mod_twice(a, p);
    lemma_mod_bound(a, p);
}

pub proof fn lemma_eqm_add(p: int, a: int, b: int, c: int, d: int)
    requires
        p > 0,
        eqm(p, a, b),
        eqm(p, c, d),
    ensures
        eqm(p, a + c, b + d),
{
    lemma_add_mod_noop(a, c, p);
    lemma_add_mod_noop(b, d, p);
}

pub proof fn lemma_eqm_sub(p: int, a: int, b: int, c: int, d: int)
    requires
        p > 0,
        eqm(p, a, b),
        eqm(p, c, d),
    ensures
        eqm(p, a - c, b - d),
{
    lemma_sub_mod_noop(a, c, p);
    lemma_sub_mod_noop(b, d, p);
}

pub proof fn lemma_eqm_mul(p: int, a: int, b: int, c: int, d: int)
    requires
        p > 0,
        eqm(p, a, b),
        eqm(p, c, d),
    ensures
        eqm(p, a * c, b * d),
{
    lemma_mul_mod_noop_general(a, c, p);
    lemma_mul_mod_noop_general(b, d, p);
}

pub proof fn lemma_eqm_seq_same(p: int, s: Seq<int>)
    ensures
        eqm_seq(p, s, s),
{
}

/// A factor with an inverse can be cancelled.
pub proof fn lemma_eqm_cancel(p: int, u: int, inv: int, a: int, b: int)
    requires
        p > 1,
        (u * inv) % p == 1,
        eqm(p, u * a, u * b),
    ensures
        eqm(p, a, b),
{
    lemma_small_mod(1, p as nat);
    lemma_eqm_mul(p, inv, inv, u * a, u * b);
    assert(inv * (u * a) == (u * inv) * a) by (nonlinear_arith);
    assert(inv * (u * b) == (u * inv) * b) by (nonlinear_arith);
    lemma_eqm_mul(p, u * inv, 1, a, a);
    lemma_eqm_mul(p, u * inv, 1, b, b);
}

/// `inverse_mod` is any inverse, taken modulo `p`.
pub proof fn lemma_inverse_mod(p: int, a: int, b: int)
    requires
        p > 1,
        (a * b) % p == 1,
    ensures
        inverse_mod(p, a) == b % p,
        (a * inverse_mod(p, a)) % p == 1,
        0 <= inverse_mod(p, a) < p,
{
    lemma_small_mod(1, p as nat);
    lemma_small_mod(0, p as nat);
    if a % p == 0 {
        lemma_eqm_mul(p, a, 0, b, b);
        assert(false);
    }
    let r = b % p;
    lemma_eqm_residue(p, b);
    lemma_eqm_mul(p, a, a, r, b);
    assert(0 <= r < p && (a * r) % p == 1);
    let c = inverse_mod(p, a);
    assert(0 <= c < p && (a * c) % p == 1);
    lemma_eqm_cancel(p, a, b, c, r);
    lemma_residue_unique(p, c, r);
}

} // verus!
