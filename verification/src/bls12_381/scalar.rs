//! The scalar field of BLS12-381.

use ark_ff::{BigInt, Field, PrimeField as ArkPrimeField};
use ark_std::UniformRand;
use crate::field::PrimeField;
use crate::math::modular::{is_inverse, lemma_inverse_mod};
use vstd::arithmetic::div_mod::lemma_small_mod;
use vstd::prelude::*;

verus! {

/// The order of the two source groups of BLS12-381.
pub open spec fn fr_modulus() -> int {
    0x73eda753299d7d483339d80809a1d80553bda402fffe5bfeffffffff00000001int
}

/// The limbs of the modulus, the least significant one first.
pub const FR_MODULUS_LIMBS: [u64; 4] = [
    0xffffffff00000001,
    0x53bda402fffe5bfe,
    0x3339d80809a1d805,
    0x73eda753299d7d48,
];

/// The integer that four 64-bit limbs stand for, the least significant first.
pub open spec fn limbs4(l: Seq<u64>) -> int {
    l[0] + l[1] * 0x1_0000_0000_0000_0000int + l[2] * 0x1_0000_0000_0000_0000_0000_0000_0000_0000int
        + l[3] * 0x1_0000_0000_0000_0000_0000_0000_0000_0000_0000_0000_0000_0000int
}

/// `y` is the inverse of `x` modulo the group order, below the order; zero
/// counts as its own inverse.
pub open spec fn is_fr_inverse(y: int, x: int) -> bool {
    &&& y < fr_modulus()
    &&& x == 0 ==> y == 0
    &&& x != 0 ==> (x * y) % fr_modulus() == 1
}

/// The sum of two scalars, by the addition of `ark_bls12_381::Fr`. Claims that
/// it is the sum of the two integers modulo the group order.
#[verifier::external_body]
fn fr_add(a: [u64; 4], b: [u64; 4]) -> (r: [u64; 4])
    requires
        limbs4(a@) < fr_modulus(),
        limbs4(b@) < fr_modulus(),
    ensures
        limbs4(r@) == (limbs4(a@) + limbs4(b@)) % fr_modulus(),
{
    let x = ark_bls12_381::Fr::from_bigint(BigInt(a)).unwrap();
    let y = ark_bls12_381::Fr::from_bigint(BigInt(b)).unwrap();
    (x + y).into_bigint().0
}

/// The difference of two scalars, by the subtraction of `ark_bls12_381::Fr`.
/// Claims that it is the difference of the two integers modulo the group order.
#[verifier::external_body]
fn fr_sub(a: [u64; 4], b: [u64; 4]) -> (r: [u64; 4])
    requires
        limbs4(a@) < fr_modulus(),
        limbs4(b@) < fr_modulus(),
    ensures
        limbs4(r@) == (limbs4(a@) - limbs4(b@)) % fr_modulus(),
{
    let x = ark_bls12_381::Fr::from_bigint(BigInt(a)).unwrap();
    let y = ark_bls12_381::Fr::from_bigint(BigInt(b)).unwrap();
    (x - y).into_bigint().0
}

/// The product of two scalars, by the multiplication of `ark_bls12_381::Fr`.
/// Claims that it is the product of the two integers modulo the group order,
/// and, as the order is a prime, that it is zero only if one of the two is.
#[verifier::external_body]
fn fr_mul(a: [u64; 4], b: [u64; 4]) -> (r: [u64; 4])
    requires
        limbs4(a@) < fr_modulus(),
        limbs4(b@) < fr_modulus(),
    ensures
        limbs4(r@) == (limbs4(a@) * limbs4(b@)) % fr_modulus(),
        limbs4(r@) == 0 ==> limbs4(a@) == 0 || limbs4(b@) == 0,
{
    let x = ark_bls12_381::Fr::from_bigint(BigInt(a)).unwrap();
    let y = ark_bls12_381::Fr::from_bigint(BigInt(b)).unwrap();
    (x * y).into_bigint().0
}

/// The inverse of a scalar, by `ark_ff::Field::inverse` on `ark_bls12_381::Fr`.
/// Claims that zero has none and that the inverse of any other scalar times
/// that scalar is 1 modulo the group order.
#[verifier::external_body]
fn fr_inverse(a: [u64; 4]) -> (r: Option<[u64; 4]>)
    requires
        limbs4(a@) < fr_modulus(),
    ensures
        r is None <==> limbs4(a@) == 0,
        r matches Some(b) ==> limbs4(b@) < fr_modulus() && (limbs4(a@) * limbs4(b@))
            % fr_modulus() == 1,
{
    let x = ark_bls12_381::Fr::from_bigint(BigInt(a)).unwrap();
    x.inverse().map(|y| y.into_bigint().0)
}

/// The inverses of a list of scalars, by `ark_ff::batch_inversion` on
/// `ark_bls12_381::Fr`. Claims that each nonzero scalar is replaced by its
/// inverse and that zeros stay.
#[verifier::external_body]
fn fr_batch_inversion(a: Vec<[u64; 4]>) -> (r: Vec<[u64; 4]>)
    requires
        forall|i: int| 0 <= i < a@.len() ==> limbs4((#[trigger] a@[i])@) < fr_modulus(),
    ensures
        r@.len() == a@.len(),
        forall|i: int|
            0 <= i < a@.len() ==> #[trigger] is_fr_inverse(limbs4(r@[i]@), limbs4(a@[i]@)),
{
    let mut elements: Vec<ark_bls12_381::Fr> = a
        .into_iter()
        .map(|limbs| ark_bls12_381::Fr::from_bigint(BigInt(limbs)).unwrap())
        .collect();
    ark_ff::batch_inversion(&mut elements);
    elements.into_iter().map(|y| y.into_bigint().0).collect()
}

/// An element of the scalar field: an integer below the group order, as four
/// limbs.
#[derive(Clone, Copy, Debug, PartialEq, Eq)]
pub struct Fr {
    limbs: [u64; 4],
}

/// A random scalar, by `ark_std::UniformRand::rand` on `ark_bls12_381::Fr`.
/// Claims nothing of which scalar it is.
#[verifier::external_body]
pub(crate) fn sample_scalar(rng: &mut ark_std::rand::rngs::StdRng) -> (r: Fr) {
    Fr { limbs: ark_bls12_381::Fr::rand(rng).into_bigint().0 }
}

proof fn lemma_limbs4_injective(a: Seq<u64>, b: Seq<u64>)
    requires
        a.len() == 4,
        b.len() == 4,
        limbs4(a) == limbs4(b),
    ensures
        a[0] == b[0] && a[1] == b[1] && a[2] == b[2] && a[3] == b[3],
{
}

impl Fr {
    #[verifier::type_invariant]
    spec fn canonical(self) -> bool {
        limbs4(self.limbs@) < fr_modulus()
    }

    /// The integer that the element stands for.
    pub closed spec fn value(self) -> int {
        limbs4(self.limbs@) % fr_modulus()
    }

    /// The element with the given limbs; `None` where they stand for no integer
    /// below the modulus.
    pub fn from_limbs(limbs: [u64; 4]) -> (r: Option<Fr>)
        ensures
            r is Some <==> limbs4(limbs@) < fr_modulus(),
            r matches Some(x) ==> x.value() == limbs4(limbs@),
    {
        let m = FR_MODULUS_LIMBS;
        let below = limbs[3] < m[3] || (limbs[3] == m[3] && (limbs[2] < m[2] || (limbs[2] == m[2]
            && (limbs[1] < m[1] || (limbs[1] == m[1] && limbs[0] < m[0])))));
        assert(limbs4(m@) == fr_modulus());
        if below {
            assert(limbs4(limbs@) < fr_modulus());
            proof {
                lemma_small_mod(limbs4(limbs@) as nat, fr_modulus() as nat);
            }
            Some(Fr { limbs })
        } else {
            None
        }
    }

    /// The limbs of the element, the least significant first.
    pub fn to_limbs(self) -> (r: [u64; 4])
        ensures
            limbs4(r@) == self.value(),
    {
        proof {
            use_type_invariant(self);
            lemma_small_mod(limbs4(self.limbs@) as nat, fr_modulus() as nat);
        }
        self.limbs
    }

    /// The additive inverse.
    pub fn neg(self) -> (r: Fr)
        ensures
            r.value() == (-self.value()) % fr_modulus(),
    {
        <Fr as PrimeField>::zero().sub(self)
    }
}

impl PrimeField for Fr {
    open spec fn modulus() -> int {
        fr_modulus()
    }

    open spec fn val(self) -> int {
        self.value()
    }

    proof fn lemma_modulus() {
    }

    proof fn lemma_val() {
    }

    fn zero() -> (r: Fr) {
        let r = Fr { limbs: [0, 0, 0, 0] };
        proof {
            lemma_small_mod(0, fr_modulus() as nat);
        }
        r
    }

    fn one() -> (r: Fr) {
        let r = Fr { limbs: [1, 0, 0, 0] };
        proof {
            lemma_small_mod(1, fr_modulus() as nat);
        }
        r
    }

    fn from_u64(value: u64) -> (r: Fr) {
        let r = Fr { limbs: [value, 0, 0, 0] };
        proof {
            lemma_small_mod(value as nat, fr_modulus() as nat);
        }
        r
    }

    fn add(self, other: Fr) -> (r: Fr) {
        let a = self.to_limbs();
        let b = other.to_limbs();
        Fr { limbs: fr_add(a, b) }
    }

    fn sub(self, other: Fr) -> (r: Fr) {
        let a = self.to_limbs();
        let b = other.to_limbs();
        Fr { limbs: fr_sub(a, b) }
    }

    fn mul(self, other: Fr) -> (r: Fr) {
        let a = self.to_limbs();
        let b = other.to_limbs();
        let limbs = fr_mul(a, b);
        proof {
            lemma_small_mod(limbs4(limbs@) as nat, fr_modulus() as nat);
        }
        Fr { limbs }
    }

    fn is_zero(self) -> (r: bool) {
        let a = self.to_limbs();
        a[0] == 0 && a[1] == 0 && a[2] == 0 && a[3] == 0
    }

    fn is_one(self) -> (r: bool) {
        let a = self.to_limbs();
        a[0] == 1 && a[1] == 0 && a[2] == 0 && a[3] == 0
    }

    fn equals(self, other: Fr) -> (r: bool) {
        let a = self.to_limbs();
        let b = other.to_limbs();
        proof {
            if limbs4(a@) == limbs4(b@) {
                lemma_limbs4_injective(a@, b@);
            }
        }
        a[0] == b[0] && a[1] == b[1] && a[2] == b[2] && a[3] == b[3]
    }

    fn inverse(self) -> (r: Option<Fr>) {
        match fr_inverse(self.to_limbs()) {
            None => None,
            Some(limbs) => {
                proof {
                    lemma_small_mod(limbs4(limbs@) as nat, fr_modulus() as nat);
                    lemma_inverse_mod(fr_modulus(), self.value(), limbs4(limbs@));
                }
                Some(Fr { limbs })
            },
        }
    }

    fn batch_inversion(elements: &mut Vec<Fr>) {
        let n = elements.len();
        let mut input: Vec<[u64; 4]> = Vec::new();
        let mut i: usize = 0;
        while i < n
            invariant
                0 <= i <= n,
                n == elements@.len(),
                elements@ == old(elements)@,
                input@.len() == i,
                forall|k: int|
                    0 <= k < i ==> limbs4((#[trigger] input@[k])@) == elements@[k].value(),
            decreases n - i,
        {
            input.push(elements[i].to_limbs());
            i = i + 1;
        }
        let ghost before = input@;
        let inverses = fr_batch_inversion(input);
        elements.clear();
        let mut j: usize = 0;
        while j < n
            invariant
                0 <= j <= n,
                n == old(elements)@.len(),
                n == inverses@.len(),
                n == before.len(),
                elements@.len() == j,
                forall|k: int|
                    0 <= k < n ==> limbs4((#[trigger] before[k])@) == old(elements)@[k].value(),
                forall|k: int|
                    0 <= k < n ==> #[trigger] is_fr_inverse(
                        limbs4(inverses@[k]@),
                        limbs4(before[k]@),
                    ),
                forall|k: int|
                    0 <= k < j ==> is_inverse(
                        fr_modulus(),
                        (#[trigger] elements@[k]).value(),
                        old(elements)@[k].value(),
                    ),
            decreases n - j,
        {
            let limbs = inverses[j];
            proof {
                let x = limbs4(before[j as int]@);
                let y = limbs4(limbs@);
                assert(is_fr_inverse(limbs4(inverses@[j as int]@), limbs4(before[j as int]@)));
                lemma_small_mod(y as nat, fr_modulus() as nat);
                if x == 0 {
                    lemma_small_mod(0, fr_modulus() as nat);
                } else {
                    lemma_inverse_mod(fr_modulus(), x, y);
                }
            }
            elements.push(Fr { limbs });
            j = j + 1;
        }
    }
}

} // verus!
