//! Batch openings.

use ark_bls12_381::{Fq, Fr as ArkFr, G1Affine as ArkG1, G1Projective};
use ark_ec::{AffineRepr, CurveGroup, VariableBaseMSM};
use ark_ff::{BigInt, PrimeField as ArkPrimeField};
use ark_poly::{DenseMultilinearExtension as ArkMle, MultilinearExtension, Polynomial};
use ark_std::rand::rngs::StdRng;
use ark_std::rand::SeedableRng;
use ark_std::UniformRand;
use std::sync::Arc;
use subroutines::arithmetic::eq::build_eq_x_r_vec;
use subroutines::arithmetic::{DenseMultilinearExtension, VPAuxInfo};
use subroutines::bls12_381::{Fr, G1Affine, G2Affine};
use subroutines::errors::{ArithErrors, PCSError};
use subroutines::field::PrimeField;
use subroutines::pcs::multilinear_kzg::batch_proof::{
    batch_claimed_sum, batch_scalars, batch_verify_internal, batching_challenge_count,
    batching_weights, finish_opening, multi_open_internal, BatchProof,
};
use subroutines::pcs::multilinear_kzg::batching::{
    build_weighted_eq_mle, decode_boolean_prefix_index, fused_scaled_sum_dense_mles,
    leading_boolean_prefix_len,
};
use subroutines::pcs::multilinear_kzg::opening::OpeningPlan;
use subroutines::pcs::multilinear_kzg::srs::{
    MultilinearProverParam, MultilinearUniversalParams,
};
use subroutines::pcs::multilinear_kzg::util::eq_eval;
use subroutines::poly_iop::structs::IOPProof;
use subroutines::poly_iop::sum_check::dense_prover::DenseProver;
use subroutines::poly_iop::sum_check::prover::{barycentric_weights, extrapolate};

fn test_rng() -> StdRng {
    StdRng::from_seed([
        1, 0, 0, 0, 23, 0, 0, 0, 200, 1, 0, 0, 210, 30, 0, 0, 0, 0, 0, 0, 0, 0, 0, 0, 0, 0, 0, 0, 0,
        0, 0, 0,
    ])
}

fn fr(value: u64) -> Fr {
    Fr::from_u64(value)
}

fn to_ark(x: Fr) -> ArkFr {
    ArkFr::from_bigint(BigInt(x.to_limbs())).unwrap()
}

fn from_ark(x: ArkFr) -> Fr {
    Fr::from_limbs(x.into_bigint().0).unwrap()
}

fn g1_to_ark(p: &G1Affine) -> ArkG1 {
    let (x, y, infinity) = p.to_limbs();
    assert!(!infinity);
    ArkG1::new_unchecked(Fq::new(BigInt(x)), Fq::new(BigInt(y)))
}

fn g1_from_ark(p: ArkG1) -> G1Affine {
    G1Affine::from_limbs(p.x.into_bigint().0, p.y.into_bigint().0, p.infinity).unwrap()
}

fn mle_from_ark(mle: &ArkMle<ArkFr>) -> DenseMultilinearExtension<Fr> {
    DenseMultilinearExtension::from_evaluations_vec(
        mle.num_vars,
        mle.evaluations.iter().map(|x| from_ark(*x)).collect(),
    )
}

fn mle_to_ark(mle: &DenseMultilinearExtension<Fr>) -> ArkMle<ArkFr> {
    ArkMle::from_evaluations_vec(
        mle.num_vars,
        mle.evaluations.iter().map(|x| to_ark(*x)).collect(),
    )
}

fn evaluate(mle: &DenseMultilinearExtension<Fr>, point: &[Fr]) -> Fr {
    let point: Vec<ArkFr> = point.iter().map(|x| to_ark(*x)).collect();
    from_ark(mle_to_ark(mle).evaluate(&point))
}

fn poly(num_vars: usize, values: &[u64]) -> Arc<DenseMultilinearExtension<Fr>> {
    let values = values.iter().map(|x| fr(*x)).collect();
    Arc::new(DenseMultilinearExtension::from_evaluations_vec(num_vars, values))
}

#[test]
fn fused_scaled_sum_dense_mles_matches_naive_merge() {
    let mut rng = test_rng();
    let nv = 5usize;
    let polys = (0..3).map(|_| ArkMle::<ArkFr>::rand(nv, &mut rng)).collect::<Vec<_>>();
    let coeffs = (0..polys.len()).map(|_| ArkFr::rand(&mut rng)).collect::<Vec<_>>();

    let mut naive = ArkMle::from_evaluations_vec(nv, vec![ArkFr::from(0u64); 1 << nv]);
    for (coeff, poly) in coeffs.iter().zip(polys.iter()) {
        naive += (*coeff, poly);
    }

    let ours = polys.iter().map(mle_from_ark).collect::<Vec<_>>();
    let terms = coeffs.iter().map(|c| from_ark(*c)).zip(ours.iter()).collect::<Vec<_>>();
    let fused = fused_scaled_sum_dense_mles(nv, &terms);
    assert_eq!(fused.num_vars, nv);
    assert_eq!(fused.evaluations, mle_from_ark(&naive).evaluations);
}

#[test]
fn weighted_eq_builder_matches_dense_sum() -> Result<(), PCSError> {
    let num_vars = 5usize;
    let points = vec![
        vec![Fr::one(), Fr::zero(), fr(3), fr(5), fr(7)],
        vec![Fr::zero(), Fr::one(), fr(11), fr(13), fr(17)],
    ];
    let coeffs = vec![fr(19), fr(23)];
    let weighted_points = coeffs
        .iter()
        .copied()
        .zip(points.iter().map(|point| point.as_slice()))
        .collect::<Vec<_>>();

    let built = build_weighted_eq_mle(num_vars, &weighted_points)?;

    let mut expected = vec![Fr::zero(); 1usize << num_vars];
    for (coeff, point) in coeffs.iter().zip(points.iter()) {
        let eq = build_eq_x_r_vec(point).map_err(PCSError::ArithErrors)?;
        for (dst, src) in expected.iter_mut().zip(eq.into_iter()) {
            *dst = dst.add(coeff.mul(src));
        }
    }

    assert_eq!(built.num_vars, num_vars);
    assert_eq!(built.evaluations, expected);
    Ok(())
}

/// Challenges that depend on everything that was said before.
struct Transcript {
    state: u64,
}

impl Transcript {
    fn new(label: &[u8]) -> Self {
        let mut transcript = Transcript { state: 0xcbf2_9ce4_8422_2325 };
        for byte in label {
            transcript.absorb(*byte as u64);
        }
        transcript
    }

    fn absorb(&mut self, word: u64) {
        self.state = (self.state ^ word).wrapping_mul(0x0000_0100_0000_01b3).rotate_left(29);
    }

    fn append(&mut self, values: &[Fr]) {
        for value in values {
            for limb in value.to_limbs() {
                self.absorb(limb);
            }
        }
    }

    fn challenge(&mut self) -> Fr {
        let mut limbs = [0u64; 4];
        for limb in limbs.iter_mut() {
            self.absorb(1);
            *limb = self.state;
        }
        limbs[3] >>= 3;
        Fr::from_limbs(limbs).unwrap()
    }
}

/// Commits by a reference string: a commitment combines the points of the table
/// for the polynomial's number of variables with the polynomial's values.
struct Committer {
    ck: MultilinearProverParam<G1Affine, G2Affine>,
}

impl Committer {
    /// A reference string for `supported` variables, cut down to `num_vars`.
    fn new(rng: &mut StdRng, supported: usize, num_vars: usize) -> Result<Self, PCSError> {
        let params = MultilinearUniversalParams::gen_srs_for_testing(rng, supported)?;
        let (ck, _) = params.trim(num_vars)?;
        Ok(Committer { ck })
    }

    fn commit(&self, poly: &DenseMultilinearExtension<Fr>) -> G1Affine {
        let table = &self.ck.powers_of_g[self.ck.num_vars - poly.num_vars];
        let bases: Vec<ArkG1> = table.evals.iter().map(g1_to_ark).collect();
        let values: Vec<ArkFr> = poly.evaluations.iter().map(|x| to_ark(*x)).collect();
        g1_from_ark(G1Projective::msm_unchecked(&bases, &values).into_affine())
    }
}

/// The number of variables that a batch of `polynomials` takes.
fn batched_vars(num_vars: usize, polynomials: usize) -> usize {
    num_vars + batching_challenge_count(polynomials)
}

/// Runs the sum-check verifier: the value that the protocol ends in.
fn expected_evaluation(sum: Fr, proof: &IOPProof<Fr>, aux_info: VPAuxInfo) -> Fr {
    assert_eq!(proof.proofs.len(), aux_info.num_variables);
    let points: Vec<Fr> = (0..=aux_info.max_degree as u64).map(fr).collect();
    let weights = barycentric_weights(&points);
    let mut claim = sum;
    for (message, challenge) in proof.proofs.iter().zip(proof.point.iter()) {
        assert_eq!(message.evaluations.len(), aux_info.max_degree + 1);
        assert_eq!(message.evaluations[0].add(message.evaluations[1]), claim);
        claim = extrapolate(&points, &weights, &message.evaluations, challenge);
    }
    claim
}

fn open_and_verify(
    polys: &[Arc<DenseMultilinearExtension<Fr>>],
    points: &[Vec<Fr>],
    committer: &Committer,
) -> Result<(), PCSError> {
    let nv = polys[0].num_vars;
    let evals: Vec<Fr> = polys.iter().zip(points).map(|(f, p)| evaluate(f, p)).collect();
    let commitments: Vec<G1Affine> = polys.iter().map(|f| committer.commit(f)).collect();

    let start = |label: &[u8]| {
        let mut transcript = Transcript::new(label);
        for point in points {
            transcript.append(point);
        }
        transcript.append(&evals);
        let ell = batching_challenge_count(polys.len());
        let t: Vec<Fr> = (0..ell).map(|_| transcript.challenge()).collect();
        (transcript, t)
    };

    let (mut transcript, t) = start(b"test transcript");
    let challenges: Vec<Fr> = (0..nv).map(|_| transcript.challenge()).collect();
    let (sum_check_proof, g_prime) = multi_open_internal(polys, points, &t, &challenges)?;
    let batch_proof = BatchProof::new(sum_check_proof, &evals, evaluate(&g_prime, &challenges));
    assert_eq!(batch_proof.f_i_eval_at_point_i, evals);

    let restored = batch_proof.without_evaluations().with_evaluations(evals.clone());
    assert_eq!(restored, batch_proof);

    let g_prime_commitment = committer.commit(&g_prime);
    for proof in [&batch_proof, &restored] {
        let (_, t) = start(b"test transcript");
        let claim = batch_verify_internal(&commitments, points, proof, &t)?;
        assert_eq!(claim.aux_info, VPAuxInfo { max_degree: 2, num_variables: nv });
        assert_eq!(claim.point, challenges);
        // The combined commitment is the commitment to the combined polynomial.
        assert_eq!(claim.commitment, g_prime_commitment);
        // The sum-check proof shows the sum, and ends in the opened value.
        let expected = expected_evaluation(claim.sum, &proof.sum_check_proof, claim.aux_info);
        assert_eq!(expected, proof.g_prime_proof);
    }
    Ok(())
}

#[test]
fn test_multi_open_internal() -> Result<(), PCSError> {
    let mut rng = test_rng();
    for num_poly in 5..6 {
        for nv in 15..16 {
            let committer = Committer::new(&mut rng, nv + 1, nv)?;
            let polys: Vec<_> = (0..num_poly)
                .map(|_| Arc::new(mle_from_ark(&ArkMle::rand(nv, &mut rng))))
                .collect();
            let points: Vec<Vec<Fr>> = polys
                .iter()
                .map(|_| (0..nv).map(|_| from_ark(ArkFr::rand(&mut rng))).collect())
                .collect();
            open_and_verify(&polys, &points, &committer)?;
        }
    }
    Ok(())
}

#[test]
fn test_multi_open_internal_same_point() -> Result<(), PCSError> {
    let mut rng = test_rng();
    for num_poly in 5..6 {
        for nv in 15..16 {
            let committer = Committer::new(&mut rng, nv + 1, nv)?;
            let polys: Vec<_> = (0..num_poly)
                .map(|_| Arc::new(mle_from_ark(&ArkMle::rand(nv, &mut rng))))
                .collect();
            let shared_point: Vec<Fr> =
                (0..nv).map(|_| from_ark(ArkFr::rand(&mut rng))).collect();
            let points = vec![shared_point.clone(); polys.len()];
            open_and_verify(&polys, &points, &committer)?;
        }
    }
    Ok(())
}

#[test]
fn larger_reference_strings_serve_smaller_polynomials() -> Result<(), PCSError> {
    let mut rng = test_rng();
    let num_poly = 5usize;
    for nv in 1..6 {
        let merged = batched_vars(nv, num_poly);
        let committer = Committer::new(&mut rng, merged + 2, merged)?;
        let polys: Vec<_> = (0..num_poly)
            .map(|_| Arc::new(mle_from_ark(&ArkMle::rand(nv, &mut rng))))
            .collect();
        let points: Vec<Vec<Fr>> = polys
            .iter()
            .map(|_| (0..nv).map(|_| from_ark(ArkFr::rand(&mut rng))).collect())
            .collect();
        open_and_verify(&polys, &points, &committer)?;
        let same = vec![points[0].clone(); polys.len()];
        open_and_verify(&polys, &same, &committer)?;
    }
    Ok(())
}

#[test]
fn shared_polynomials_and_boolean_points_open() -> Result<(), PCSError> {
    let committer = Committer::new(&mut test_rng(), 5, 5)?;
    let f = poly(3, &[1, 2, 3, 4, 5, 6, 7, 8]);
    let g = poly(3, &[9, 0, 9, 1, 9, 2, 9, 3]);
    let points = vec![
        vec![fr(0), fr(1), fr(1)],
        vec![fr(1), fr(0), fr(5)],
        vec![fr(0), fr(1), fr(1)],
        vec![fr(4), fr(0), fr(1)],
    ];
    let polys = vec![f.clone(), f.clone(), g, f];
    open_and_verify(&polys, &points, &committer)
}

#[test]
fn plan_lists_polynomials_and_points_once() {
    let f = poly(1, &[1, 2]);
    let g = poly(1, &[3, 4]);
    let points = vec![vec![fr(5)], vec![fr(6)], vec![fr(5)], vec![fr(5)]];
    let polys = vec![f.clone(), g.clone(), g.clone(), f.clone()];
    let weights = [fr(10), fr(20), fr(30), fr(40)];
    let plan = OpeningPlan::new(&polys, &points, &weights);
    assert_eq!(plan.num_var, 1);
    assert_eq!(plan.points, vec![vec![fr(5)], vec![fr(6)]]);
    assert_eq!(plan.polynomials.len(), 2);
    assert_eq!(plan.poly_indices, vec![0usize, 1, 1, 0]);
    assert_eq!(plan.point_indices, vec![0usize, 1, 0, 0]);
    assert_eq!(
        plan.coefficients,
        vec![vec![(0usize, fr(50))], vec![(1usize, fr(20)), (0usize, fr(30))]]
    );
    assert_eq!(plan.bucket_sizes(), (3, 1));
}

#[test]
fn combined_polynomial_is_linear_in_the_queries() -> Result<(), PCSError> {
    let f = poly(2, &[1, 2, 3, 4]);
    let g = poly(2, &[5, 6, 7, 8]);
    let points = vec![vec![fr(2), fr(3)], vec![fr(4), fr(5)]];
    let weights = [fr(11), fr(13)];
    let plan = OpeningPlan::new(&[f.clone(), g.clone()], &points, &weights);
    let a2 = [fr(7), fr(9)];
    let scalars = batch_scalars(&points, &a2, &weights)?;
    assert_eq!(scalars[0], eq_eval(&a2, &points[0])?.mul(fr(11)));
    assert_eq!(plan.combined_weights(&a2)?, scalars);
    assert_eq!(
        plan.combined_weights(&a2[..1]).err(),
        Some(PCSError::InvalidParameters("x and y have different length".to_string()))
    );
    let combined = plan.combined_polynomial(&a2)?;
    for x in 0..4 {
        let expected =
            scalars[0].mul(f.evaluations[x]).add(scalars[1].mul(g.evaluations[x]));
        assert_eq!(combined.evaluations[x], expected);
    }
    let vp = plan.sum_check_polynomial()?;
    let mut total = Fr::zero();
    for x in 0..4 {
        for (coeff, factors) in &vp.products {
            let mut term = *coeff;
            for factor in factors {
                term = term.mul(vp.flattened_ml_extensions[*factor].evaluations[x]);
            }
            total = total.add(term);
        }
    }
    let values = [evaluate(&f, &points[0]), evaluate(&g, &points[1])];
    assert_eq!(total, batch_claimed_sum(&weights, &values, 2));
    assert_eq!(total, fr(11).mul(values[0]).add(fr(13).mul(values[1])));
    Ok(())
}

#[test]
fn one_polynomial_leaves_no_challenge() {
    let f = poly(1, &[1, 2]);
    assert_eq!(batching_challenge_count(1), 0);
    assert_eq!(
        multi_open_internal(&[f], &[vec![fr(5)]], &[], &[fr(7)]).err(),
        Some(PCSError::ArithErrors(ArithErrors::InvalidParameters("r length is 0".to_string())))
    );
}

#[test]
fn opening_one_polynomial_twice_at_a_point() {
    let points = vec![vec![fr(2)], vec![fr(2)]];
    let f = poly(1, &[3, 5]);
    // The weights add up to one, and the equalities of 2 with 0, 1, 2 are -1, 2, 5.
    let (proof, g_prime) =
        multi_open_internal(&[f.clone(), f.clone()], &points, &[fr(9)], &[fr(4)]).unwrap();
    assert_eq!(proof.point, vec![fr(4)]);
    assert_eq!(proof.proofs.len(), 1);
    assert_eq!(proof.proofs[0].evaluations, vec![fr(3).neg(), fr(10), fr(35)]);
    // The equality of 4 with 2 is 11.
    assert_eq!(g_prime.evaluations, vec![fr(33), fr(55)]);
    let copies = [f, poly(1, &[3, 5])];
    let (same, same_g_prime) = multi_open_internal(&copies, &points, &[fr(9)], &[fr(4)]).unwrap();
    assert_eq!(same, proof);
    assert_eq!(same_g_prime.evaluations, g_prime.evaluations);
}

#[test]
fn sharing_polynomials_does_not_matter() {
    let values = [[1, 2, 3, 4], [9, 7, 5, 3]];
    let points = vec![
        vec![fr(2), fr(6)],
        vec![fr(1), fr(4)],
        vec![fr(2), fr(6)],
        vec![fr(0), fr(1)],
    ];
    let (f, g) = (poly(2, &values[0]), poly(2, &values[1]));
    let shared = [f.clone(), g, f.clone(), f];
    let own = [0usize, 1, 0, 0].map(|k| poly(2, &values[k]));
    let (t, challenges) = ([fr(5), fr(8)], [fr(13), fr(21)]);
    let (a, a_prime) = multi_open_internal(&shared, &points, &t, &challenges).unwrap();
    let (b, b_prime) = multi_open_internal(&own, &points, &t, &challenges).unwrap();
    assert_eq!(a, b);
    assert_eq!(a_prime.evaluations, b_prime.evaluations);
    assert!(a.proofs.iter().all(|message| message.evaluations.len() == 3));
}

#[test]
fn sharing_does_not_matter_with_fewer_or_more_points() {
    let values = [[1, 2, 3, 4], [9, 7, 5, 3]];
    let (f, g) = (poly(2, &values[0]), poly(2, &values[1]));
    let shared = [f.clone(), g, f];
    let own = [0usize, 1, 0].map(|k| poly(2, &values[k]));
    let t = [fr(5), fr(8)];
    for count in 1..5usize {
        let points: Vec<Vec<Fr>> =
            (0..count).map(|k| vec![fr(2 + k as u64), fr(6 + k as u64)]).collect();
        let (a, a_prime) =
            multi_open_internal(&shared, &points, &t, &[fr(13), fr(21)]).unwrap();
        let (b, b_prime) = multi_open_internal(&own, &points, &t, &[fr(13), fr(21)]).unwrap();
        assert_eq!(a, b);
        assert_eq!(a_prime.evaluations, b_prime.evaluations);
        // A message depends on the challenges before it only.
        let (c, _) = multi_open_internal(&own, &points, &t, &[fr(13), fr(34)]).unwrap();
        assert_eq!(a.proofs, c.proofs);
        let (d, _) = multi_open_internal(&own, &points, &t, &[fr(12), fr(34)]).unwrap();
        assert_eq!(a.proofs[0], d.proofs[0]);
        assert_ne!(a.proofs[1], d.proofs[1]);
    }
}

#[test]
fn sharing_decides_where_merged_weights_vanish() {
    // With t = (2, 1/2) the weights of three queries add up to zero.
    let t = [fr(2), fr(2).inverse().unwrap()];
    let points = vec![vec![fr(6)]; 3];
    let f = poly(1, &[1, 2]);
    let (merged, _) =
        multi_open_internal(&[f.clone(), f.clone(), f.clone()], &points, &t, &[fr(7)]).unwrap();
    assert_eq!(merged.proofs[0].evaluations, vec![fr(0)]);
    let own = [f, poly(1, &[1, 2]), poly(1, &[1, 2])];
    let (apart, _) = multi_open_internal(&own, &points, &t, &[fr(7)]).unwrap();
    assert_eq!(apart.proofs[0].evaluations, vec![fr(0); 3]);
}

#[test]
fn polynomials_are_checked() {
    assert!(poly(2, &[1, 2, 3, 4]).is_well_formed());
    let short = DenseMultilinearExtension { num_vars: 2, evaluations: vec![fr(1); 3] };
    assert!(!short.is_well_formed());
    let wide = DenseMultilinearExtension { num_vars: 64, evaluations: vec![fr(1)] };
    assert!(!wide.is_well_formed());
}

#[test]
fn opening_as_the_challenges_come() -> Result<(), PCSError> {
    let polys = [poly(2, &[1, 2, 3, 4]), poly(2, &[9, 7, 5, 3])];
    let points = vec![vec![fr(2), fr(6)], vec![fr(1), fr(4)]];
    let (t, challenges) = ([fr(5)], [fr(13), fr(21)]);
    let plan = OpeningPlan::new(&polys, &points, &batching_weights(&t)?);
    let vp = plan.product_sum(&plan.equality_tables()?)?;
    let mut prover = DenseProver::start(&vp).unwrap();
    prover.next_message(&None).unwrap();
    prover.next_message(&Some(challenges[0])).unwrap();
    let (proof, g_prime) = finish_opening(&plan, &vp, prover.finish(challenges[1]))?;
    let (expected, expected_g_prime) = multi_open_internal(&polys, &points, &t, &challenges)?;
    assert_eq!(proof, expected);
    assert_eq!(g_prime.evaluations, expected_g_prime.evaluations);
    Ok(())
}

#[test]
fn queries_without_weight_leave_nothing_to_prove() {
    // With t = (1, 1) only a fourth query would have a weight.
    let polys = [poly(1, &[1, 2]), poly(1, &[3, 4]), poly(1, &[5, 6])];
    let points = vec![vec![fr(6)]; 3];
    let (proof, g_prime) =
        multi_open_internal(&polys, &points, &[fr(1), fr(1)], &[fr(7)]).unwrap();
    assert_eq!(proof.proofs[0].evaluations, vec![fr(0)]);
    assert_eq!(g_prime.evaluations, vec![fr(0), fr(0)]);
}

#[test]
fn opening_refuses_misfits() {
    let f = poly(1, &[1, 2]);
    let g = poly(2, &[1, 2, 3, 4]);
    let points = vec![vec![fr(5)], vec![fr(6)]];
    assert_eq!(
        multi_open_internal(&[f.clone(), g], &points, &[fr(3)], &[fr(7)]).err(),
        Some(PCSError::ArithErrors(ArithErrors::InvalidParameters(
            "product has a multiplicand with wrong number of variables 2 vs 1".to_string()
        )))
    );
    let none = vec![vec![], vec![fr(6)]];
    assert_eq!(
        multi_open_internal(&[f.clone(), f.clone()], &none, &[fr(3)], &[fr(7)]).err(),
        Some(PCSError::InvalidParameters("Invalid parameters: r length is 0".to_string()))
    );
    let long = vec![vec![fr(5), fr(6)], vec![fr(5)]];
    assert_eq!(
        multi_open_internal(&[f.clone(), f], &long, &[fr(3)], &[fr(7)]).err(),
        Some(PCSError::InvalidParameters("x and y have different length".to_string()))
    );
    let constant = poly(0, &[4]);
    let empty = vec![vec![], vec![]];
    assert_eq!(
        multi_open_internal(&[constant.clone(), constant], &empty, &[fr(3)], &[]).err(),
        Some(PCSError::InvalidProver("Sumcheck in batch proving Failed".to_string()))
    );
}

#[test]
fn verification_refuses_wrong_lengths() {
    let generator = g1_from_ark(ArkG1::generator());
    let proof = BatchProof {
        sum_check_proof: IOPProof { point: vec![fr(1), fr(2)], proofs: vec![] },
        f_i_eval_at_point_i: vec![fr(3), fr(4)],
        g_prime_proof: 0u8,
    };
    let points = vec![vec![fr(1)], vec![fr(2)]];
    assert_eq!(
        batch_verify_internal(&[generator, generator], &points, &proof, &[fr(5)]).err(),
        Some(PCSError::InvalidParameters("x and y have different length".to_string()))
    );
    assert_eq!(
        batch_verify_internal(&[generator], &points[..1], &proof, &[]).err(),
        Some(PCSError::ArithErrors(ArithErrors::InvalidParameters("r length is 0".to_string())))
    );
}

#[test]
fn a_wrong_length_is_told_before_a_missing_commitment() {
    let proof = BatchProof {
        sum_check_proof: IOPProof { point: vec![fr(1), fr(2)], proofs: vec![] },
        f_i_eval_at_point_i: vec![],
        g_prime_proof: (),
    };
    let points = vec![vec![fr(1)], vec![fr(2)]];
    assert_eq!(
        batch_verify_internal(&[], &points, &proof, &[fr(5)]).err(),
        Some(PCSError::InvalidParameters("x and y have different length".to_string()))
    );
}

#[test]
fn a_long_point_without_weight_is_told_last() {
    // With t = 0 only the first query has a weight.
    let f = poly(1, &[1, 2]);
    let points = vec![vec![fr(5)], vec![fr(1), fr(0), fr(7)]];
    assert_eq!(
        multi_open_internal(&[f.clone(), f], &points, &[fr(0)], &[fr(7)]).err(),
        Some(PCSError::InvalidParameters("x and y have different length".to_string()))
    );
}

#[test]
fn claim_of_a_batch_opening() {
    let generator = g1_from_ark(ArkG1::generator());
    let proof = BatchProof {
        sum_check_proof: IOPProof { point: vec![fr(3)], proofs: vec![] },
        f_i_eval_at_point_i: vec![fr(100), fr(1000)],
        g_prime_proof: (),
    };
    let points = vec![vec![fr(1)], vec![fr(2)]];
    // The weights are -4 and 5; the equalities of 3 with 1 and 2 are 3 and 8.
    let claim =
        batch_verify_internal(&[generator, generator], &points, &proof, &[fr(5)]).unwrap();
    assert_eq!(claim.sum, fr(5000 - 400));
    let expected = (ArkG1::generator() * ArkFr::from(28u64)).into_affine();
    assert_eq!(claim.commitment, g1_from_ark(expected));
    assert_eq!(claim.point, vec![fr(3)]);
}

#[test]
fn boolean_prefixes() {
    let point = [fr(1), fr(0), fr(1), fr(2), fr(1)];
    assert_eq!(leading_boolean_prefix_len(&point), 3);
    assert_eq!(decode_boolean_prefix_index(&point, 3), 5);
    assert_eq!(decode_boolean_prefix_index(&point, 1), 1);
    assert_eq!(decode_boolean_prefix_index(&point[..3], 7), 5);
    assert_eq!(leading_boolean_prefix_len::<Fr>(&[]), 0);
}

#[test]
fn weighted_eq_tables() {
    let bits = [fr(0), fr(1)];
    let wide = [fr(3), fr(5), fr(7)];
    let short = [fr(4)];
    let built = build_weighted_eq_mle(
        2,
        &[(fr(6), &bits[..]), (fr(0), &[][..]), (fr(1), &short[..])],
    )
    .unwrap();
    // The unit at 2, six times, and the short table (1 - 4, 4) at the front.
    assert_eq!(built.evaluations, vec![fr(3).neg(), fr(4), fr(6), fr(0)]);
    // Of a longer point, the first part of the table.
    let cut = build_weighted_eq_mle(2, &[(fr(1), &wide[..])]).unwrap();
    assert_eq!(cut.evaluations, build_eq_x_r_vec(&wide).unwrap()[..4].to_vec());
    assert_eq!(
        build_weighted_eq_mle(2, &[(fr(1), &bits[..1])]).err(),
        Some(PCSError::InvalidParameters("Invalid parameters: r length is 0".to_string()))
    );
    assert_eq!(
        build_weighted_eq_mle::<Fr>(64, &[]).err(),
        Some(PCSError::InvalidParameters("too many variables for equality table".to_string()))
    );
}

#[test]
fn equality_tables() {
    let r = [fr(3), fr(5)];
    // (1 - 3)(1 - 5), 3(1 - 5), (1 - 3)5, 15.
    assert_eq!(
        build_eq_x_r_vec(&r).unwrap(),
        vec![fr(8), fr(12).neg(), fr(10).neg(), fr(15)]
    );
    assert_eq!(
        build_eq_x_r_vec::<Fr>(&[]).err(),
        Some(ArithErrors::InvalidParameters("r length is 0".to_string()))
    );
    assert_eq!(
        batching_weights::<Fr>(&[]).err(),
        Some(PCSError::ArithErrors(ArithErrors::InvalidParameters("r length is 0".to_string())))
    );
    assert_eq!(eq_eval(&[fr(2), fr(3)], &[fr(5), fr(7)]), Ok(fr(14 * 33)));
    assert_eq!(
        eq_eval(&[fr(2)], &[fr(5), fr(7)]).err(),
        Some(PCSError::InvalidParameters("x and y have different length".to_string()))
    );
}

#[test]
fn challenge_counts() {
    let counts: Vec<usize> =
        [0, 1, 2, 3, 4, 5, 8, 9, 1000].iter().map(|k| batching_challenge_count(*k)).collect();
    assert_eq!(counts, vec![0, 0, 1, 2, 2, 3, 3, 4, 10]);
}

#[test]
fn fused_sum_of_nothing_is_zero() {
    let zero = fused_scaled_sum_dense_mles::<Fr>(2, &[]);
    assert_eq!(zero.evaluations, vec![Fr::zero(); 4]);
    let f = poly(1, &[3, 5]);
    let skipped = fused_scaled_sum_dense_mles(1, &[(Fr::zero(), &*f), (fr(2), &*f)]);
    assert_eq!(skipped.evaluations, vec![fr(6), fr(10)]);
}
