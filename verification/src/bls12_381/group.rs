//! The source groups of BLS12-381, in affine coordinates.

use ark_bls12_381::{
    Fq, Fq2, Fr as ArkFr, G1Affine as ArkG1, G1Projective, G2Affine as ArkG2, G2Projective,
};
use ark_ec::CurveGroup;
use ark_ec::scalar_mul::ScalarMul;
use ark_ec::scalar_mul::variable_base::VariableBaseMSM;
use ark_ff::{BigInt, PrimeField as ArkPrimeField};
use ark_std::UniformRand;
use crate::bls12_381::scalar::{fr_modulus, Fr};
use crate::field::{vals, PrimeField};
use crate::math::sums::{smaller, weighted_sum};
use vstd::prelude::*;

verus! {

/// The order of the base field.
pub open spec fn fq_modulus() -> int {
    0x1a0111ea397fe69a4b1ba7b6434bacd764774b84f38512bf6730d2a0f6b0f6241eabfffeb153ffffb9feffffffffaaabint
}

/// The limbs of the order of the base field, the least significant one first.
pub const FQ_MODULUS_LIMBS: [u64; 6] = [
    0xb9feffffffffaaab,
    0x1eabfffeb153ffff,
    0x6730d2a0f6b0f624,
    0x64774b84f38512bf,
    0x4b1ba7b6434bacd7,
    0x1a0111ea397fe69a,
];

/// The integer that six 64-bit limbs stand for, the least significant first.
pub open spec fn limbs6(l: Seq<u64>) -> int {
    l[0] + l[1] * 0x1_0000_0000_0000_0000int + l[2] * 0x1_0000_0000_0000_0000_0000_0000_0000_0000int
        + l[3] * 0x1_0000_0000_0000_0000_0000_0000_0000_0000_0000_0000_0000_0000int + l[4]
        * 0x1_0000_0000_0000_0000_0000_0000_0000_0000_0000_0000_0000_0000_0000_0000_0000_0000int
        + l[5]
        * 0x1_0000_0000_0000_0000_0000_0000_0000_0000_0000_0000_0000_0000_0000_0000_0000_0000_0000_0000_0000_0000int
}

/// The curve of the first group: `y^2 = x^3 + 4`.
pub open spec fn on_g1_curve(x: int, y: int) -> bool {
    (y * y - x * x * x - 4) % fq_modulus() == 0
}

/// The curve of the second group: `y^2 = x^3 + 4 * (1 + u)`, where `u^2 = -1`
/// and a coordinate is `c0 + c1 * u`.
pub open spec fn on_g2_curve(x0: int, x1: int, y0: int, y1: int) -> bool {
    &&& (y0 * y0 - y1 * y1 - (x0 * x0 * x0 - 3 * (x0 * x1 * x1)) - 4) % fq_modulus() == 0
    &&& (2 * (y0 * y1) - (3 * (x0 * x0 * x1) - x1 * x1 * x1) - 4) % fq_modulus() == 0
}

/// Whether a point of the first curve lies in the subgroup of prime order.
pub uninterp spec fn in_g1_subgroup(x: int, y: int) -> bool;

/// Whether a point of the second curve lies in the subgroup of prime order.
pub uninterp spec fn in_g2_subgroup(x0: int, x1: int, y0: int, y1: int) -> bool;

/// A point of the first group, by its coordinates, or the point at infinity.
pub open spec fn is_g1(p: (int, int, bool)) -> bool {
    &&& 0 <= p.0 < fq_modulus()
    &&& 0 <= p.1 < fq_modulus()
    &&& p.2 || (on_g1_curve(p.0, p.1) && in_g1_subgroup(p.0, p.1))
}

/// A point of the second group, by its coordinates, or the point at infinity.
pub open spec fn is_g2(p: (int, int, int, int, bool)) -> bool {
    &&& 0 <= p.0 < fq_modulus()
    &&& 0 <= p.1 < fq_modulus()
    &&& 0 <= p.2 < fq_modulus()
    &&& 0 <= p.3 < fq_modulus()
    &&& p.4 || (on_g2_curve(p.0, p.1, p.2, p.3) && in_g2_subgroup(p.0, p.1, p.2, p.3))
}

/// Whether six limbs stand for an integer below the order of the base field.
fn is_canonical(l: &[u64; 6]) -> (r: bool)
    ensures
        r == (limbs6(l@) < fq_modulus()),
{
    let m = FQ_MODULUS_LIMBS;
    assert(limbs6(m@) == fq_modulus());
    if l[5] != m[5] {
        return l[5] < m[5];
    }
    if l[4] != m[4] {
        return l[4] < m[4];
    }
    if l[3] != m[3] {
        return l[3] < m[3];
    }
    if l[2] != m[2] {
        return l[2] < m[2];
    }
    if l[1] != m[1] {
        return l[1] < m[1];
    }
    l[0] < m[0]
}

/// Whether a pair of coordinates is on the curve of the first group, by
/// `is_on_curve` of `ark_ec::short_weierstrass::Affine`. Claims that it tells
/// whether the curve's equation holds.
#[verifier::external_body]
fn g1_on_curve(x: [u64; 6], y: [u64; 6]) -> (r: bool)
    requires
        limbs6(x@) < fq_modulus(),
        limbs6(y@) < fq_modulus(),
    ensures
        r == on_g1_curve(limbs6(x@), limbs6(y@)),
{
    ArkG1::new_unchecked(Fq::new(BigInt(x)), Fq::new(BigInt(y))).is_on_curve()
}

/// Whether a point of the first curve lies in the first group, by
/// `is_in_correct_subgroup_assuming_on_curve` of
/// `ark_ec::short_weierstrass::Affine`. Names the answer as a function of the
/// coordinates.
#[verifier::external_body]
fn g1_in_subgroup(x: [u64; 6], y: [u64; 6]) -> (r: bool)
    requires
        limbs6(x@) < fq_modulus(),
        limbs6(y@) < fq_modulus(),
        on_g1_curve(limbs6(x@), limbs6(y@)),
    ensures
        r == in_g1_subgroup(limbs6(x@), limbs6(y@)),
{
    ArkG1::new_unchecked(Fq::new(BigInt(x)), Fq::new(BigInt(y)))
        .is_in_correct_subgroup_assuming_on_curve()
}

/// A point of the first group, or the point at infinity.
#[derive(Clone, Copy, Debug, PartialEq, Eq)]
pub struct G1Affine {
    x: [u64; 6],
    y: [u64; 6],
    infinity: bool,
}

impl G1Affine {
    #[verifier::type_invariant]
    pub open spec fn valid(self) -> bool {
        is_g1(self@)
    }

    /// The coordinates, and whether this is the point at infinity.
    pub closed spec fn view(self) -> (int, int, bool) {
        (limbs6(self.x@), limbs6(self.y@), self.infinity)
    }

    /// The point with the given coordinates; `None` where they are no integers
    /// below the order of the base field, or no point of the group.
    pub fn from_limbs(x: [u64; 6], y: [u64; 6], infinity: bool) -> (r: Option<G1Affine>)
        ensures
            r is Some <==> is_g1((limbs6(x@), limbs6(y@), infinity)),
            r matches Some(p) ==> p@ == (limbs6(x@), limbs6(y@), infinity),
    {
        if !is_canonical(&x) || !is_canonical(&y) {
            return None;
        }
        if infinity || (g1_on_curve(x, y) && g1_in_subgroup(x, y)) {
            Some(G1Affine { x, y, infinity })
        } else {
            None
        }
    }

    /// The limbs of the coordinates, and whether this is the point at infinity.
    pub fn to_limbs(self) -> (r: ([u64; 6], [u64; 6], bool))
        ensures
            self@ == (limbs6(r.0@), limbs6(r.1@), r.2),
    {
        (self.x, self.y, self.infinity)
    }
}

/// The multiple of a point of the first group by a scalar.
pub uninterp spec fn g1_multiple(base: (int, int, bool), scalar: int) -> (int, int, bool);

/// The sum of the multiples of points of the first group by scalars, over the
/// shorter of the two lists.
pub uninterp spec fn g1_linear_combination(
    bases: Seq<(int, int, bool)>,
    scalars: Seq<int>,
) -> (int, int, bool);

/// The multiple of a point of the second group by a scalar.
pub uninterp spec fn g2_multiple(
    base: (int, int, int, int, bool),
    scalar: int,
) -> (int, int, int, int, bool);

/// The points of a list.
pub open spec fn g1_views(s: Seq<G1Affine>) -> Seq<(int, int, bool)> {
    Seq::new(s.len(), |i: int| s[i]@)
}

/// Each of the points is `g` times the matching scalar.
pub open spec fn are_multiples(
    points: Seq<(int, int, bool)>,
    g: (int, int, bool),
    scalars: Seq<int>,
) -> bool {
    &&& scalars.len() == points.len()
    &&& forall|i: int| 0 <= i < points.len() ==> 0 <= #[trigger] scalars[i] < fr_modulus()
    &&& forall|i: int| 0 <= i < points.len() ==> #[trigger] points[i] == g1_multiple(g, scalars[i])
}

/// Where the bases are multiples of one point of the group, `r` is the multiple
/// of that point by the sum of the products of the scalars.
pub open spec fn combines_multiples(
    bases: Seq<(int, int, bool)>,
    scalars: Seq<int>,
    r: (int, int, bool),
) -> bool {
    forall|g: (int, int, bool), logs: Seq<int>|
        is_g1(g) && #[trigger] are_multiples(bases, g, logs) ==> r == g1_multiple(
            g,
            weighted_sum(logs, scalars, smaller(bases.len() as int, scalars.len() as int))
                % fr_modulus(),
        )
}

/// Multiples of one point of the first group, by
/// `ark_ec::scalar_mul::ScalarMul::batch_mul`, which precomputes a table for the
/// point. Claims that there is one for each scalar, in order, and names it as a
/// function of the point and of that scalar alone.
#[verifier::external_body]
pub(crate) fn g1_batch_mul(base: G1Affine, scalars: &[Fr]) -> (r: Vec<G1Affine>)
    ensures
        r@.len() == scalars@.len(),
        forall|i: int|
            0 <= i < r@.len() ==> (#[trigger] r@[i])@ == g1_multiple(base@, scalars@[i].val()),
{
    let fq = |l: [u64; 6]| Fq::new(BigInt(l));
    let point = ArkG1 { x: fq(base.x), y: fq(base.y), infinity: base.infinity };
    let v: Vec<ArkFr> = scalars.iter().map(|s| ArkFr::new(BigInt(s.to_limbs()))).collect();
    let points = G1Projective::from(point).batch_mul(&v).into_iter();
    points
        .map(|p| G1Affine { x: p.x.into_bigint().0, y: p.y.into_bigint().0, infinity: p.infinity })
        .collect()
}

/// A linear combination of points of the first group, by
/// `ark_ec::VariableBaseMSM::msm_unchecked` and `ark_ec::CurveGroup::into_affine`.
/// Names the result as a function of the points and the scalars, and claims
/// that it is linear: multiples of one point combine to a multiple of it.
#[verifier::external_body]
pub(crate) fn g1_msm(bases: &[G1Affine], scalars: &[Fr]) -> (r: G1Affine)
    ensures
        r@ == g1_linear_combination(g1_views(bases@), vals(scalars@)),
        combines_multiples(g1_views(bases@), vals(scalars@), r@),
{
    let fq = |l: [u64; 6]| Fq::new(BigInt(l));
    let points: Vec<ArkG1> = bases
        .iter()
        .map(|b| ArkG1 { x: fq(b.x), y: fq(b.y), infinity: b.infinity })
        .collect();
    let v: Vec<ArkFr> = scalars.iter().map(|s| ArkFr::new(BigInt(s.to_limbs()))).collect();
    let p = G1Projective::msm_unchecked(&points, &v).into_affine();
    G1Affine { x: p.x.into_bigint().0, y: p.y.into_bigint().0, infinity: p.infinity }
}

/// Whether a pair of coordinates is on the curve of the second group, by
/// `is_on_curve` of `ark_ec::short_weierstrass::Affine`. Claims that it tells
/// whether the curve's equation holds.
#[verifier::external_body]
fn g2_on_curve(x: [[u64; 6]; 2], y: [[u64; 6]; 2]) -> (r: bool)
    requires
        limbs6(x@[0]@) < fq_modulus(),
        limbs6(x@[1]@) < fq_modulus(),
        limbs6(y@[0]@) < fq_modulus(),
        limbs6(y@[1]@) < fq_modulus(),
    ensures
        r == on_g2_curve(limbs6(x@[0]@), limbs6(x@[1]@), limbs6(y@[0]@), limbs6(y@[1]@)),
{
    let fq2 = |c: [[u64; 6]; 2]| Fq2::new(Fq::new(BigInt(c[0])), Fq::new(BigInt(c[1])));
    ArkG2::new_unchecked(fq2(x), fq2(y)).is_on_curve()
}

/// Whether a point of the second curve lies in the second group, by
/// `is_in_correct_subgroup_assuming_on_curve` of
/// `ark_ec::short_weierstrass::Affine`. Names the answer as a function of the
/// coordinates.
#[verifier::external_body]
fn g2_in_subgroup(x: [[u64; 6]; 2], y: [[u64; 6]; 2]) -> (r: bool)
    requires
        limbs6(x@[0]@) < fq_modulus(),
        limbs6(x@[1]@) < fq_modulus(),
        limbs6(y@[0]@) < fq_modulus(),
        limbs6(y@[1]@) < fq_modulus(),
        on_g2_curve(limbs6(x@[0]@), limbs6(x@[1]@), limbs6(y@[0]@), limbs6(y@[1]@)),
    ensures
        r == in_g2_subgroup(limbs6(x@[0]@), limbs6(x@[1]@), limbs6(y@[0]@), limbs6(y@[1]@)),
{
    let fq2 = |c: [[u64; 6]; 2]| Fq2::new(Fq::new(BigInt(c[0])), Fq::new(BigInt(c[1])));
    ArkG2::new_unchecked(fq2(x), fq2(y)).is_in_correct_subgroup_assuming_on_curve()
}

/// A point of the second group, or the point at infinity. A coordinate
/// `c0 + c1 * u` is the pair of `c0` and `c1`.
#[derive(Clone, Copy, Debug, PartialEq, Eq)]
pub struct G2Affine {
    x: [[u64; 6]; 2],
    y: [[u64; 6]; 2],
    infinity: bool,
}

impl G2Affine {
    #[verifier::type_invariant]
    pub open spec fn valid(self) -> bool {
        is_g2(self@)
    }

    /// The coordinates, and whether this is the point at infinity.
    pub closed spec fn view(self) -> (int, int, int, int, bool) {
        (
            limbs6(self.x@[0]@),
            limbs6(self.x@[1]@),
            limbs6(self.y@[0]@),
            limbs6(self.y@[1]@),
            self.infinity,
        )
    }

    /// The point with the given coordinates; `None` where they are no integers
    /// below the order of the base field, or no point of the group.
    pub fn from_limbs(x: [[u64; 6]; 2], y: [[u64; 6]; 2], infinity: bool) -> (r: Option<G2Affine>)
        ensures
            r is Some <==> is_g2(
                (
                    limbs6(x@[0]@),
                    limbs6(x@[1]@),
                    limbs6(y@[0]@),
                    limbs6(y@[1]@),
                    infinity,
                ),
            ),
            r matches Some(p) ==> p@ == (
                limbs6(x@[0]@),
                limbs6(x@[1]@),
                limbs6(y@[0]@),
                limbs6(y@[1]@),
                infinity,
            ),
    {
        if !is_canonical(&x[0]) || !is_canonical(&x[1]) || !is_canonical(&y[0]) || !is_canonical(
            &y[1],
        ) {
            return None;
        }
        if infinity || (g2_on_curve(x, y) && g2_in_subgroup(x, y)) {
            Some(G2Affine { x, y, infinity })
        } else {
            None
        }
    }

    /// The limbs of the coordinates, and whether this is the point at infinity.
    pub fn to_limbs(self) -> (r: ([[u64; 6]; 2], [[u64; 6]; 2], bool))
        ensures
            self@ == (
                limbs6(r.0@[0]@),
                limbs6(r.0@[1]@),
                limbs6(r.1@[0]@),
                limbs6(r.1@[1]@),
                r.2,
            ),
    {
        (self.x, self.y, self.infinity)
    }
}

/// Multiples of one point of the second group, by
/// `ark_ec::scalar_mul::ScalarMul::batch_mul`, which precomputes a table for the
/// point. Claims that there is one for each scalar, in order, and names it as a
/// function of the point and of that scalar alone.
#[verifier::external_body]
pub(crate) fn g2_batch_mul(base: G2Affine, scalars: &[Fr]) -> (r: Vec<G2Affine>)
    ensures
        r@.len() == scalars@.len(),
        forall|i: int|
            0 <= i < r@.len() ==> (#[trigger] r@[i])@ == g2_multiple(base@, scalars@[i].val()),
{
    let fq2 = |c: [[u64; 6]; 2]| Fq2::new(Fq::new(BigInt(c[0])), Fq::new(BigInt(c[1])));
    let point = ArkG2 { x: fq2(base.x), y: fq2(base.y), infinity: base.infinity };
    let v: Vec<ArkFr> = scalars.iter().map(|s| ArkFr::new(BigInt(s.to_limbs()))).collect();
    let limbs = |c: Fq2| [c.c0.into_bigint().0, c.c1.into_bigint().0];
    G2Projective::from(point)
        .batch_mul(&v)
        .into_iter()
        .map(|p| G2Affine { x: limbs(p.x), y: limbs(p.y), infinity: p.infinity })
        .collect()
}

/// The generator of pseudo-random numbers `rand::rngs::StdRng`.
#[verifier::external_type_specification]
#[verifier::external_body]
pub struct ExStdRng(ark_std::rand::rngs::StdRng);

/// A random point of the first group, by `ark_std::UniformRand::rand` and
/// `ark_ec::CurveGroup::into_affine`. Claims nothing of which point it is.
#[verifier::external_body]
pub(crate) fn sample_g1(rng: &mut ark_std::rand::rngs::StdRng) -> (r: G1Affine) {
    let p = G1Projective::rand(rng).into_affine();
    G1Affine { x: p.x.into_bigint().0, y: p.y.into_bigint().0, infinity: p.infinity }
}

/// A random point of the second group, by `ark_std::UniformRand::rand` and
/// `ark_ec::CurveGroup::into_affine`. Claims nothing of which point it is.
#[verifier::external_body]
pub(crate) fn sample_g2(rng: &mut ark_std::rand::rngs::StdRng) -> (r: G2Affine) {
    let p = G2Projective::rand(rng).into_affine();
    let limbs = |c: Fq2| [c.c0.into_bigint().0, c.c1.into_bigint().0];
    G2Affine { x: limbs(p.x), y: limbs(p.y), infinity: p.infinity }
}

} // verus!
