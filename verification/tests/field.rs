//! The scalar field.

use ark_bls12_381::{Fq, Fr as ArkFr};
use ark_ff::{BigInt, Field, PrimeField as ArkPrimeField};
use subroutines::bls12_381::group::FQ_MODULUS_LIMBS;
use subroutines::bls12_381::scalar::FR_MODULUS_LIMBS;
use subroutines::bls12_381::Fr;
use subroutines::field::PrimeField;

fn to_ark(x: Fr) -> ArkFr {
    ArkFr::from_bigint(BigInt(x.to_limbs())).unwrap()
}

fn samples() -> Vec<Fr> {
    let mut top = FR_MODULUS_LIMBS;
    top[0] -= 1;
    vec![
        Fr::zero(),
        Fr::one(),
        Fr::from_u64(u64::MAX),
        Fr::from_limbs([5, 6, 7, 8]).unwrap(),
        Fr::from_limbs(top).unwrap(),
    ]
}

#[test]
fn moduli_are_those_of_the_curve() {
    assert_eq!(FR_MODULUS_LIMBS, ArkFr::MODULUS.0);
    assert_eq!(FQ_MODULUS_LIMBS, Fq::MODULUS.0);
}

#[test]
fn arithmetic_is_modular() {
    for a in samples() {
        for b in samples() {
            assert_eq!(to_ark(a.add(b)), to_ark(a) + to_ark(b));
            assert_eq!(to_ark(a.sub(b)), to_ark(a) - to_ark(b));
            assert_eq!(to_ark(a.mul(b)), to_ark(a) * to_ark(b));
            assert_eq!(a.equals(b), a == b);
            assert_eq!(a.mul(b).is_zero(), a.is_zero() || b.is_zero());
        }
        assert_eq!(a.add(a.neg()), Fr::zero());
        assert_eq!(a.inverse().map(to_ark), to_ark(a).inverse());
        assert_eq!(a.is_zero(), a == Fr::zero());
        assert_eq!(a.is_one(), a == Fr::one());
    }
    assert_eq!(samples()[4].add(Fr::one()), Fr::zero());
    assert_eq!(Fr::from_u64(6).mul(Fr::from_u64(7)), Fr::from_u64(42));
}

#[test]
fn batch_inversion_inverts_all_but_zeros() {
    let mut elements = samples();
    Fr::batch_inversion(&mut elements);
    assert_eq!(elements[0], Fr::zero());
    for (x, y) in samples().iter().zip(elements.iter()).skip(1) {
        assert_eq!(x.mul(*y), Fr::one());
    }
}

#[test]
fn limbs_are_below_the_modulus() {
    assert_eq!(Fr::from_limbs(FR_MODULUS_LIMBS), None);
    assert_eq!(Fr::from_limbs([u64::MAX; 4]), None);
    assert_eq!(Fr::from_limbs([9, 0, 0, 0]), Some(Fr::from_u64(9)));
    assert_eq!(Fr::from_limbs([1, 2, 3, 4]).unwrap().to_limbs(), [1, 2, 3, 4]);
}
