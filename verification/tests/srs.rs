//! Structured reference strings.

use ark_bls12_381::{Fr as ArkFr, G1Affine as ArkG1, G1Projective, G2Affine as ArkG2};
use ark_ec::{AffineRepr, CurveGroup, VariableBaseMSM};
use ark_ff::{BigInt, PrimeField as ArkPrimeField};
use ark_std::rand::rngs::StdRng;
use ark_std::rand::SeedableRng;
use ark_std::UniformRand;
use std::collections::LinkedList;
use subroutines::arithmetic::eq::build_eq_x_r_vec;
use subroutines::bls12_381::{Fr, G1Affine, G2Affine};
use subroutines::errors::PCSError;
use subroutines::field::PrimeField;
use subroutines::pcs::multilinear_kzg::srs::{
    extend_eq_suffix_table, remove_dummy_variable, srs_from_secrets, MultilinearUniversalParams,
    SrsBuilder,
};

fn test_rng() -> StdRng {
    StdRng::from_seed([
        1, 0, 0, 0, 23, 0, 0, 0, 200, 1, 0, 0, 210, 30, 0, 0, 0, 0, 0, 0, 0, 0, 0, 0, 0, 0, 0, 0, 0,
        0, 0, 0,
    ])
}

fn fr(value: u64) -> Fr {
    Fr::from_u64(value)
}

fn to_ark(x: Fr) -> ArkFr {
    ArkFr::from_bigint(BigInt(x.to_limbs())).unwrap()
}

fn from_ark(x: ArkFr) -> Fr {
    Fr::from_limbs(x.into_bigint().0).unwrap()
}

fn g1_from_ark(p: ArkG1) -> G1Affine {
    G1Affine::from_limbs(p.x.into_bigint().0, p.y.into_bigint().0, p.infinity).unwrap()
}

fn g2_from_ark(p: ArkG2) -> G2Affine {
    let limbs = |c: ark_bls12_381::Fq2| [c.c0.into_bigint().0, c.c1.into_bigint().0];
    G2Affine::from_limbs(limbs(p.x), limbs(p.y), p.infinity).unwrap()
}

#[test]
fn test_srs_gen() -> Result<(), PCSError> {
    let mut rng = test_rng();
    for nv in 4..10 {
        let srs = MultilinearUniversalParams::gen_srs_for_testing(&mut rng, nv)?;
        assert_eq!(srs.prover_param.num_vars, nv);
        let sizes: Vec<usize> =
            srs.prover_param.powers_of_g.iter().map(|table| table.evals.len()).collect();
        let expected: Vec<usize> = (0..=nv).map(|i| 1usize << (nv - i)).collect();
        assert_eq!(sizes, expected);
        assert_eq!(srs.h_mask.len(), nv);
    }

    Ok(())
}

fn direct_eq_suffix_tables(t: &[Fr]) -> Vec<Vec<Fr>> {
    let mut suffix_tables = Vec::with_capacity(t.len());
    let last = t[t.len() - 1];
    let mut current = vec![Fr::one().sub(last), last];
    suffix_tables.push(current.clone());

    for &ti in t[..t.len() - 1].iter().rev() {
        current = extend_eq_suffix_table(&current, ti);
        suffix_tables.push(current.clone());
    }

    suffix_tables.reverse();
    suffix_tables
}

/// The tables of `eq(t_i, x_i)`, all in `t.len()` variables.
fn eq_extension(t: &[Fr]) -> Vec<Vec<Fr>> {
    let dim = t.len();
    let mut result = Vec::new();
    for (i, &ti) in t.iter().enumerate() {
        let mut table = Vec::with_capacity(1 << dim);
        for x in 0..(1usize << dim) {
            let xi = if (x >> i) & 1 == 1 { Fr::one() } else { Fr::zero() };
            let both = ti.mul(xi);
            table.push(both.add(both).sub(xi).sub(ti).add(Fr::one()));
        }
        result.push(table);
    }
    result
}

fn legacy_eq_suffix_tables(t: &[Fr]) -> Result<Vec<Vec<Fr>>, PCSError> {
    let mut eq: LinkedList<Vec<Fr>> = eq_extension(t).into_iter().collect();
    let mut eq_arr = LinkedList::new();
    let mut base = eq.pop_back().unwrap();

    for i in (0..t.len()).rev() {
        eq_arr.push_front(remove_dummy_variable(&base, i)?);
        if i != 0 {
            let factor = eq.pop_back().unwrap();
            base = base.into_iter().zip(factor.into_iter()).map(|(a, b)| a.mul(b)).collect();
        }
    }

    Ok(eq_arr.into_iter().collect())
}

#[test]
fn test_build_eq_suffix_tables_matches_legacy_construction() -> Result<(), PCSError> {
    let mut rng = test_rng();
    for nv in 1..8 {
        let t: Vec<Fr> = (0..nv).map(|_| from_ark(ArkFr::rand(&mut rng))).collect();
        let direct = direct_eq_suffix_tables(&t);
        let legacy = legacy_eq_suffix_tables(&t)?;
        assert_eq!(direct, legacy, "suffix tables differ for nv={nv}");
    }

    Ok(())
}

#[test]
fn srs_holds_multiples_of_the_generators() {
    let t = [fr(3), fr(5), fr(7)];
    let (g, h) = (ArkG1::generator(), ArkG2::generator());
    let srs = srs_from_secrets(g1_from_ark(g), g2_from_ark(h), &t);
    assert_eq!(srs.prover_param.powers_of_g.len(), 4);
    for i in 0..3 {
        let eq = build_eq_x_r_vec(&t[i..]).unwrap();
        let expected: Vec<G1Affine> =
            eq.iter().map(|e| g1_from_ark((g * to_ark(*e)).into_affine())).collect();
        assert_eq!(srs.prover_param.powers_of_g[i].evals, expected);
    }
    assert_eq!(srs.prover_param.powers_of_g[3].evals, vec![g1_from_ark(g)]);
    let masks: Vec<G2Affine> =
        t.iter().map(|ti| g2_from_ark((h * to_ark(*ti)).into_affine())).collect();
    assert_eq!(srs.h_mask, masks);
}

#[test]
fn levels_add_up() {
    let t = [fr(3), fr(5), fr(7)];
    let g = ArkG1::generator();
    let srs = srs_from_secrets(g1_from_ark(g), g2_from_ark(ArkG2::generator()), &t);
    let to_point = |p: &G1Affine| {
        let (x, y, _) = p.to_limbs();
        G1Projective::from(ArkG1::new(
            ark_bls12_381::Fq::new(BigInt(x)),
            ark_bls12_381::Fq::new(BigInt(y)),
        ))
    };
    for i in 0..3 {
        let level = &srs.prover_param.powers_of_g[i].evals;
        let next = &srs.prover_param.powers_of_g[i + 1].evals;
        let total: G1Projective = level.iter().map(to_point).sum();
        assert_eq!(total.into_affine(), g);
        for (pair, point) in level.chunks(2).zip(next.iter()) {
            let both = to_point(&pair[0]) + to_point(&pair[1]);
            assert_eq!(g1_from_ark(both.into_affine()), *point);
        }
    }
}

#[test]
fn reference_string_level_by_level() {
    let t = [fr(3), fr(5), fr(7)];
    let (g, h) = (g1_from_ark(ArkG1::generator()), g2_from_ark(ArkG2::generator()));
    let mut builder = SrsBuilder::start(g, h, &t);
    let mut sizes = vec![];
    loop {
        sizes.push((builder.suffix_len(), builder.tables().len()));
        let table = builder.level_table();
        assert_eq!(table.evals.len(), builder.suffix_len());
        builder.push(table);
        if !builder.extend() {
            break;
        }
    }
    assert_eq!(sizes, vec![(2, 0), (4, 1), (8, 2)]);
    let whole = srs_from_secrets(g, h, &t);
    let made = builder.finish();
    assert_eq!(made.prover_param, whole.prover_param);
    assert_eq!(made.h_mask, whole.h_mask);
}

#[test]
fn trimming_keeps_the_last_secrets() {
    let t = [fr(3), fr(5), fr(7)];
    let (g, h) = (g1_from_ark(ArkG1::generator()), g2_from_ark(ArkG2::generator()));
    let srs = srs_from_secrets(g, h, &t);
    let (ck, vk) = srs.trim(2).unwrap();
    let smaller = srs_from_secrets(g, h, &t[1..]);
    assert_eq!(ck, smaller.prover_param);
    assert_eq!(vk.h_mask, smaller.h_mask);
    assert_eq!((vk.num_vars, vk.g, vk.h), (2, g, h));
    assert_eq!(srs.extract_prover_param(2), ck);
    assert_eq!(srs.extract_verifier_param(2), vk);
    assert_eq!(
        srs.trim(4).err(),
        Some(PCSError::InvalidParameters(
            "SRS does not support target number of vars 4".to_string()
        ))
    );
}

#[test]
fn no_srs_for_constants() {
    let mut rng = test_rng();
    assert_eq!(
        MultilinearUniversalParams::gen_srs_for_testing(&mut rng, 0).err(),
        Some(PCSError::InvalidParameters("constant polynomial not supported".to_string()))
    );
    // Nothing was drawn.
    assert_eq!(ArkFr::rand(&mut rng), ArkFr::rand(&mut test_rng()));
}

#[test]
fn dummy_variables() {
    let values: Vec<Fr> = (0..8).map(fr).collect();
    assert_eq!(remove_dummy_variable(&values, 0).unwrap(), values);
    assert_eq!(remove_dummy_variable(&values, 2).unwrap(), vec![fr(0), fr(4)]);
    assert_eq!(remove_dummy_variable(&values[..3], 0).unwrap(), values[..3].to_vec());
    assert_eq!(
        remove_dummy_variable(&values[..3], 1).err(),
        Some(PCSError::InvalidParameters(
            "Size of polynomial should be power of two.".to_string()
        ))
    );
}

#[test]
fn suffix_table_values() {
    assert_eq!(
        extend_eq_suffix_table(&[fr(2), fr(10)], fr(3)),
        vec![fr(4).neg(), fr(6), fr(20).neg(), fr(30)]
    );
}

#[test]
fn suffix_tables_are_equality_tables() {
    let t = [fr(3), fr(5), fr(7), fr(11)];
    let tables = direct_eq_suffix_tables(&t);
    for k in 0..t.len() {
        assert_eq!(tables[k].len(), 1usize << (t.len() - k));
        assert_eq!(tables[k], build_eq_x_r_vec(&t[k..]).unwrap());
    }
    for k in 0..t.len() - 1 {
        for (j, value) in tables[k + 1].iter().enumerate() {
            assert_eq!(tables[k][2 * j].add(tables[k][2 * j + 1]), *value);
        }
    }
    // Bits 0 and 2 are set, bits 1 and 3 are not.
    let product = fr(3).mul(fr(4).neg()).mul(fr(7)).mul(fr(10).neg());
    assert_eq!(tables[0][5], product);
}

#[test]
fn points_are_checked() {
    let g = ArkG1::generator();
    let (x, y) = (g.x.into_bigint().0, g.y.into_bigint().0);
    let point = G1Affine::from_limbs(x, y, false).unwrap();
    assert_eq!(point.to_limbs(), (x, y, false));
    assert_eq!(G1Affine::from_limbs(y, x, false), None);
    assert!(G1Affine::from_limbs([0; 6], [0; 6], true).is_some());
    assert_eq!(G1Affine::from_limbs([u64::MAX; 6], y, true), None);
    let h = ArkG2::generator();
    let limbs = |c: ark_bls12_381::Fq2| [c.c0.into_bigint().0, c.c1.into_bigint().0];
    let (x, y) = (limbs(h.x), limbs(h.y));
    assert_eq!(G2Affine::from_limbs(x, y, false).unwrap().to_limbs(), (x, y, false));
    assert_eq!(G2Affine::from_limbs(y, x, false), None);
    assert_eq!(G2Affine::from_limbs(x, [[u64::MAX; 6]; 2], false), None);
}

#[test]
fn points_outside_the_groups_are_refused() {
    let mut outside = 0;
    for x in 0..20u64 {
        if let Some(p) = ArkG1::get_point_from_x_unchecked(x.into(), false) {
            let inside = p.is_in_correct_subgroup_assuming_on_curve();
            outside += usize::from(!inside);
            let point =
                G1Affine::from_limbs(p.x.into_bigint().0, p.y.into_bigint().0, p.infinity);
            assert_eq!(point.is_some(), inside);
        }
    }
    assert!(outside > 0);
    let mut outside = 0;
    let limbs = |c: ark_bls12_381::Fq2| [c.c0.into_bigint().0, c.c1.into_bigint().0];
    for x in 0..20u64 {
        if let Some(p) = ArkG2::get_point_from_x_unchecked(x.into(), false) {
            let inside = p.is_in_correct_subgroup_assuming_on_curve();
            outside += usize::from(!inside);
            let point = G2Affine::from_limbs(limbs(p.x), limbs(p.y), p.infinity);
            assert_eq!(point.is_some(), inside);
        }
    }
    assert!(outside > 0);
}

#[test]
fn reference_strings_commit() {
    let t = [fr(3), fr(5), fr(7)];
    let (g, h) = (ArkG1::generator(), ArkG2::generator());
    let srs = srs_from_secrets(g1_from_ark(g), g2_from_ark(h), &t);
    let values: Vec<ArkFr> = (1..9u64).map(ArkFr::from).collect();
    let bases: Vec<ArkG1> = srs.prover_param.powers_of_g[0]
        .evals
        .iter()
        .map(|p| {
            let (x, y, _) = p.to_limbs();
            ArkG1::new(ark_bls12_381::Fq::new(BigInt(x)), ark_bls12_381::Fq::new(BigInt(y)))
        })
        .collect();
    let commitment = G1Projective::msm_unchecked(&bases, &values).into_affine();
    // The polynomial 1 + x + 2y + 4z at the secrets.
    let expected = (g * ArkFr::from(1u64 + 3 + 10 + 28)).into_affine();
    assert_eq!(commitment, expected);
}
