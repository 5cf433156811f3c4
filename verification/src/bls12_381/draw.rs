//! Draws from a generator of pseudo-random numbers. A draw takes the generator
//! from one state to another; what it gives is what the call that makes it may
//! give.

use ark_std::rand::rngs::StdRng;
use crate::bls12_381::group::{sample_g1, sample_g2, G1Affine, G2Affine};
use crate::bls12_381::scalar::{sample_scalar, Fr};
use vstd::prelude::*;

verus! {

/// `value` is what a draw of a scalar from the generator `m` may give.
pub closed spec fn is_scalar_draw(m: &mut StdRng, value: Fr) -> bool {
    call_ensures(sample_scalar, (m,), value)
}

/// `value` is what a draw of a point of the first group from the generator `m`
/// may give.
pub closed spec fn is_g1_draw(m: &mut StdRng, value: G1Affine) -> bool {
    call_ensures(sample_g1, (m,), value)
}

/// `value` is what a draw of a point of the second group from the generator `m`
/// may give.
pub closed spec fn is_g2_draw(m: &mut StdRng, value: G2Affine) -> bool {
    call_ensures(sample_g2, (m,), value)
}

/// A place in a list of `n`.
pub open spec fn is_place(i: int, n: int) -> bool {
    0 <= i < n
}

/// Makes one draw.
fn draw<T, D: Fn(&mut StdRng) -> T>(d: D, rng: &mut StdRng) -> (r: T)
    requires
        forall|m: &mut StdRng| #[trigger] call_requires(d, (m,)),
    ensures
        exists|m: &mut StdRng|
            *m == *old(rng) && *final(m) == *final(rng) && #[trigger] call_ensures(d, (m,), r),
{
    d(rng)
}

/// Draws a scalar.
pub fn draw_scalar(rng: &mut StdRng) -> (r: Fr)
    ensures
        exists|m: &mut StdRng| #[trigger]
            is_scalar_draw(m, r) && *m == *old(rng) && *final(m) == *final(rng),
{
    let ghost before = *rng;
    let r = draw(sample_scalar, rng);
    let ghost after = *rng;
    proof {
        let m0 = choose|m: &mut StdRng|
            *m == before && *final(m) == after && #[trigger] call_ensures(
                sample_scalar,
                (m,),
                r,
            );
        assert(is_scalar_draw(m0, r));
    }
    r
}

/// Draws a point of the first group.
pub fn draw_g1(rng: &mut StdRng) -> (r: G1Affine)
    ensures
        exists|m: &mut StdRng| #[trigger]
            is_g1_draw(m, r) && *m == *old(rng) && *final(m) == *final(rng),
{
    let ghost before = *rng;
    let r = draw(sample_g1, rng);
    let ghost after = *rng;
    proof {
        let m0 = choose|m: &mut StdRng|
            *m == before && *final(m) == after && #[trigger] call_ensures(sample_g1, (m,), r);
        assert(is_g1_draw(m0, r));
    }
    r
}

/// Draws a point of the second group.
pub fn draw_g2(rng: &mut StdRng) -> (r: G2Affine)
    ensures
        exists|m: &mut StdRng| #[trigger]
            is_g2_draw(m, r) && *m == *old(rng) && *final(m) == *final(rng),
{
    let ghost before = *rng;
    let r = draw(sample_g2, rng);
    let ghost after = *rng;
    proof {
        let m0 = choose|m: &mut StdRng|
            *m == before && *final(m) == after && #[trigger] call_ensures(sample_g2, (m,), r);
        assert(is_g2_draw(m0, r));
    }
    r
}

/// Draws scalars, one after the other.
pub fn draw_scalars(rng: &mut StdRng, n: usize) -> (r: Vec<Fr>)
    ensures
        r@.len() == n,
        exists|states: Seq<StdRng>|
            {
                &&& states.len() == n + 1
                &&& #[trigger] states[0] == *old(rng)
                &&& states[n as int] == *final(rng)
                &&& forall|i: int| #[trigger]
                    is_place(i, n as int) ==> exists|m: &mut StdRng| #[trigger]
                        is_scalar_draw(m, r@[i]) && *m == states[i] && *final(m) == states[i + 1]
            },
{
    let ghost mut states = seq![*rng];
    let mut r: Vec<Fr> = Vec::with_capacity(n);
    let mut i: usize = 0;
    while i < n
        invariant
            0 <= i <= n,
            r@.len() == i,
            states.len() == i + 1,
            states[0] == *old(rng),
            states[i as int] == *rng,
            forall|k: int| #[trigger]
                is_place(k, i as int) ==> exists|m: &mut StdRng| #[trigger]
                    is_scalar_draw(m, r@[k]) && *m == states[k] && *final(m) == states[k + 1],
        decreases n - i,
    {
        let ghost before = *rng;
        let ghost (given, past) = (r@, states);
        let value = draw_scalar(rng);
        let ghost after = *rng;
        proof {
            states = states.push(*rng);
        }
        r.push(value);
        assert forall|k: int| #[trigger] is_place(k, i + 1) implies exists|m: &mut StdRng|
            #[trigger] is_scalar_draw(m, r@[k]) && *m == states[k] && *final(m)
                == states[k + 1] by {
            if k < i {
                assert(is_place(k, i as int));
                assert(r@[k] == given[k]);
                assert(states[k] == past[k] && states[k + 1] == past[k + 1]);
                assert(exists|m: &mut StdRng| #[trigger]
                    is_scalar_draw(m, given[k]) && *m == past[k] && *final(m) == past[k + 1]);
            } else {
                assert(r@[k] == value);
                assert(states[k] == before && states[k + 1] == after);
            }
        }
        i = i + 1;
    }
    assert(states[0] == *old(rng));
    r
}

} // verus!
