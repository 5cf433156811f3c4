//! The sum-check provers, dense and mixed.

use ark_bls12_381::Fr as ArkFr;
use ark_ff::{BigInt, PrimeField as ArkPrimeField};
use ark_poly::{DenseMultilinearExtension as ArkMle, Polynomial};
use std::sync::Arc;
use subroutines::arithmetic::{DenseMultilinearExtension, VPAuxInfo, VirtualPolynomial};
use subroutines::bls12_381::Fr;
use subroutines::errors::{ArithErrors, PolyIOPErrors};
use subroutines::field::PrimeField;
use subroutines::poly_iop::structs::{IOPProof, IOPProverMessage, IOPProverState};
use subroutines::poly_iop::sum_check::dense_prover::{prove_rounds, DenseProver};
use subroutines::poly_iop::sum_check::mixed_prover::{prove_mixed_sparse_products, MixedProver};
use subroutines::poly_iop::sum_check::prover::{
    barycentric_weights, bind_first_variable_in_place, extrapolate, scan_pair_multiplicands,
    scan_product_generic, scan_single_multiplicand,
};
use subroutines::poly_iop::sum_check::sparse_product::SparseSupportProduct;

fn fr(value: u64) -> Fr {
    Fr::from_u64(value)
}

fn to_ark(x: Fr) -> ArkFr {
    ArkFr::from_bigint(BigInt(x.to_limbs())).unwrap()
}

fn from_ark(x: ArkFr) -> Fr {
    Fr::from_limbs(x.into_bigint().0).unwrap()
}

fn dense_mle(num_vars: usize, entries: &[(usize, Fr)]) -> Arc<DenseMultilinearExtension<Fr>> {
    let mut evaluations = vec![Fr::zero(); 1usize << num_vars];
    for (index, value) in entries {
        evaluations[*index] = *value;
    }
    Arc::new(DenseMultilinearExtension::from_evaluations_vec(num_vars, evaluations))
}

fn ark_evaluate(mle: &DenseMultilinearExtension<Fr>, point: &[Fr]) -> Fr {
    let evaluations: Vec<ArkFr> = mle.evaluations.iter().map(|x| to_ark(*x)).collect();
    let ark = ArkMle::from_evaluations_vec(mle.num_vars, evaluations);
    let point: Vec<ArkFr> = point.iter().map(|x| to_ark(*x)).collect();
    from_ark(ark.evaluate(&point))
}

/// Challenges that depend on everything that was said before.
struct Transcript {
    state: u64,
}

impl Transcript {
    fn new(label: &[u8]) -> Self {
        let mut transcript = Transcript { state: 0xcbf2_9ce4_8422_2325 };
        for byte in label {
            transcript.absorb(*byte as u64);
        }
        transcript
    }

    fn absorb(&mut self, word: u64) {
        self.state = (self.state ^ word).wrapping_mul(0x0000_0100_0000_01b3).rotate_left(29);
    }

    fn append_aux_info(&mut self, aux_info: VPAuxInfo) {
        self.absorb(aux_info.max_degree as u64);
        self.absorb(aux_info.num_variables as u64);
    }

    fn append_message(&mut self, message: &IOPProverMessage<Fr>) {
        for value in &message.evaluations {
            for limb in value.to_limbs() {
                self.absorb(limb);
            }
        }
    }

    fn challenge(&mut self) -> Fr {
        let mut limbs = [0u64; 4];
        for limb in limbs.iter_mut() {
            self.absorb(1);
            *limb = self.state;
        }
        limbs[3] >>= 3;
        Fr::from_limbs(limbs).unwrap()
    }
}

fn prove_dense(poly: &VirtualPolynomial<Fr>, transcript: &mut Transcript) -> IOPProof<Fr> {
    transcript.append_aux_info(poly.aux_info);
    let mut state = IOPProverState::prover_init(poly).unwrap();
    let mut challenge = None;
    let mut proofs = Vec::new();
    for _ in 0..poly.aux_info.num_variables {
        let message = state.prove_round_and_update_state(&challenge).unwrap();
        transcript.append_message(&message);
        proofs.push(message);
        challenge = Some(transcript.challenge());
    }
    let mut point = state.challenges.clone();
    point.push(challenge.unwrap());
    IOPProof { point, proofs }
}

fn prove_mixed(
    poly: &VirtualPolynomial<Fr>,
    sparse: &[SparseSupportProduct<Fr>],
    transcript: &mut Transcript,
) -> Result<IOPProof<Fr>, PolyIOPErrors> {
    let mut prover = MixedProver::start(poly, sparse)?;
    transcript.append_aux_info(prover.aux_info());
    let mut challenge = None;
    for _ in 0..poly.aux_info.num_variables {
        let message = prover.next_message(&challenge)?;
        transcript.append_message(&message);
        challenge = Some(transcript.challenge());
    }
    Ok(prover.finish(challenge.unwrap()))
}

#[test]
fn mixed_sparse_product_matches_dense_sumcheck_proof() {
    let num_vars = 3usize;
    let left_entries = vec![(1usize, fr(2)), (4usize, fr(5))];
    let right_entries = vec![(1usize, fr(7)), (4usize, fr(11))];
    let sparse_term = SparseSupportProduct::new(
        num_vars,
        Fr::one().neg(),
        left_entries.clone(),
        right_entries.clone(),
    )
    .unwrap();

    let zero_dense = VirtualPolynomial::<Fr>::new(num_vars);
    let dense_left = dense_mle(num_vars, &left_entries);
    let dense_right = dense_mle(num_vars, &right_entries);
    let mut dense_poly = VirtualPolynomial::<Fr>::new(num_vars);
    dense_poly.add_mle_list(&[dense_left, dense_right], Fr::one().neg()).unwrap();

    let mut mixed_transcript = Transcript::new(b"mixed");
    let mixed_proof = prove_mixed(&zero_dense, &[sparse_term], &mut mixed_transcript).unwrap();

    let mut dense_transcript = Transcript::new(b"mixed");
    let dense_proof = prove_dense(&dense_poly, &mut dense_transcript);

    assert_eq!(mixed_proof, dense_proof);
}

#[test]
fn mixed_dense_and_two_sparse_products_match_dense_sumcheck_proof() {
    let num_vars = 3usize;
    let dense_factor_l =
        dense_mle(num_vars, &[(0usize, fr(3)), (2usize, fr(5)), (7usize, fr(9))]);
    let dense_factor_r =
        dense_mle(num_vars, &[(1usize, fr(4)), (2usize, fr(6)), (6usize, fr(8))]);
    let sparse_term_a = SparseSupportProduct::new(
        num_vars,
        fr(5).neg(),
        vec![(1usize, fr(2)), (4usize, fr(7))],
        vec![(1usize, fr(11)), (4usize, fr(13))],
    )
    .unwrap();
    let sparse_term_b = SparseSupportProduct::new(
        num_vars,
        fr(3),
        vec![(0usize, fr(17)), (5usize, fr(19))],
        vec![(0usize, fr(23)), (5usize, fr(29))],
    )
    .unwrap();

    let mut dense_poly = VirtualPolynomial::<Fr>::new(num_vars);
    dense_poly
        .add_mle_list(&[dense_factor_l.clone(), dense_factor_r.clone()], fr(2))
        .unwrap();
    dense_poly
        .add_mle_list(
            &[
                dense_mle(num_vars, &[(1usize, fr(2)), (4usize, fr(7))]),
                dense_mle(num_vars, &[(1usize, fr(11)), (4usize, fr(13))]),
            ],
            fr(5).neg(),
        )
        .unwrap();
    dense_poly
        .add_mle_list(
            &[
                dense_mle(num_vars, &[(0usize, fr(17)), (5usize, fr(19))]),
                dense_mle(num_vars, &[(0usize, fr(23)), (5usize, fr(29))]),
            ],
            fr(3),
        )
        .unwrap();

    let mut mixed_dense_component = VirtualPolynomial::<Fr>::new(num_vars);
    mixed_dense_component.add_mle_list(&[dense_factor_l, dense_factor_r], fr(2)).unwrap();

    let mut mixed_transcript = Transcript::new(b"mixed-dense+sparse");
    let mixed_proof = prove_mixed(
        &mixed_dense_component,
        &[sparse_term_a, sparse_term_b],
        &mut mixed_transcript,
    )
    .unwrap();

    let mut dense_transcript = Transcript::new(b"mixed-dense+sparse");
    let dense_proof = prove_dense(&dense_poly, &mut dense_transcript);

    assert_eq!(mixed_proof, dense_proof);
}

#[test]
fn sparse_support_product_evaluates_factors_exactly() {
    let num_vars = 2usize;
    let sparse_term = SparseSupportProduct::new(
        num_vars,
        Fr::one(),
        vec![(0usize, fr(3)), (3usize, fr(4))],
        vec![(1usize, fr(5)), (3usize, fr(6))],
    )
    .unwrap();
    let point = [fr(2), fr(3)];
    let (left, right) = sparse_term.evaluate_factors_at_point(&point).unwrap();

    let dense_left = dense_mle(num_vars, &[(0usize, fr(3)), (3usize, fr(4))]);
    let dense_right = dense_mle(num_vars, &[(1usize, fr(5)), (3usize, fr(6))]);

    assert_eq!(left, ark_evaluate(&dense_left, &point));
    assert_eq!(right, ark_evaluate(&dense_right, &point));
}

/// `sum_b coeff * l(b) * r(b) + sum_b f(b) * g(b) * h(b)` for a checkable case.
fn cubic() -> VirtualPolynomial<Fr> {
    let mut poly = VirtualPolynomial::<Fr>::new(2);
    let f = dense_mle(2, &[(0, fr(1)), (1, fr(2)), (2, fr(3)), (3, fr(4))]);
    let g = dense_mle(2, &[(0, fr(5)), (1, fr(6)), (2, fr(7)), (3, fr(8))]);
    let h = dense_mle(2, &[(0, fr(9)), (1, fr(10)), (2, fr(11)), (3, fr(12))]);
    poly.add_mle_list(&[f.clone(), g.clone(), h], fr(1)).unwrap();
    poly.add_mle_list(&[f.clone(), g], fr(2)).unwrap();
    poly.add_mle_list(&[f], fr(3)).unwrap();
    poly
}

#[test]
fn add_mle_list_stores_shared_polynomials_once() {
    let poly = cubic();
    assert_eq!(poly.flattened_ml_extensions.len(), 3);
    assert_eq!(poly.products.len(), 3);
    assert_eq!(poly.products[1].1, vec![0usize, 1]);
    assert_eq!(poly.aux_info, VPAuxInfo { max_degree: 3, num_variables: 2 });
}

#[test]
fn add_mle_list_refuses_nothing_and_misfits() {
    let mut poly = VirtualPolynomial::<Fr>::new(2);
    assert_eq!(
        poly.add_mle_list(&[], fr(1)),
        Err(ArithErrors::InvalidParameters("input mle_list is empty".to_string()))
    );
    let wrong = dense_mle(3, &[]);
    assert_eq!(
        poly.add_mle_list(&[wrong], fr(1)),
        Err(ArithErrors::InvalidParameters(
            "product has a multiplicand with wrong number of variables 3 vs 2".to_string()
        ))
    );
}

#[test]
fn first_round_message_has_the_values_of_the_round_polynomial() {
    let poly = cubic();
    let mut state = IOPProverState::prover_init(&poly).unwrap();
    let message = state.prove_round_and_update_state(&None).unwrap();
    // With the first variable at x, the rows are f = 1 + x and 3 + x, and so on.
    let at = |x: u64| -> u64 {
        let rows = [(1 + x, 5 + x, 9 + x), (3 + x, 7 + x, 11 + x)];
        rows.iter().map(|(f, g, h)| f * g * h + 2 * f * g + 3 * f).sum()
    };
    assert_eq!(message.evaluations, vec![fr(at(0)), fr(at(1)), fr(at(2)), fr(at(3))]);
}

#[test]
fn rounds_are_consistent() {
    let poly = cubic();
    let challenges = [fr(17), fr(23)];
    let proof = prove_rounds(&poly, &challenges).unwrap();
    assert_eq!(proof.point, challenges.to_vec());
    let total: u64 = (0..4u64)
        .map(|x| (1 + x) * (5 + x) * (9 + x) + 2 * (1 + x) * (5 + x) + 3 * (1 + x))
        .sum();
    let first = &proof.proofs[0].evaluations;
    assert_eq!(first[0].add(first[1]), fr(total));
    // The value of the first round's polynomial at the first challenge.
    let points: Vec<Fr> = (0..4).map(fr).collect();
    let weights = barycentric_weights(&points);
    let claim = extrapolate(&points, &weights, first, &challenges[0]);
    let second = &proof.proofs[1].evaluations;
    assert_eq!(second[0].add(second[1]), claim);
    // The value of the last round's polynomial is that of the whole polynomial.
    let last = extrapolate(&points, &weights, second, &challenges[1]);
    let values: Vec<Fr> = poly
        .flattened_ml_extensions
        .iter()
        .map(|mle| ark_evaluate(mle, &challenges))
        .collect();
    let (f, g, h) = (values[0], values[1], values[2]);
    let expected = f.mul(g).mul(h).add(f.mul(g).mul(fr(2))).add(f.mul(fr(3)));
    assert_eq!(last, expected);
}

#[test]
fn prover_refuses_a_constant() {
    let poly = VirtualPolynomial::<Fr>::new(0);
    let expected =
        PolyIOPErrors::InvalidParameters("Attempt to prove a constant.".to_string());
    assert_eq!(IOPProverState::prover_init(&poly).err(), Some(expected.clone()));
    assert_eq!(prove_rounds(&poly, &[]).err(), Some(expected.clone()));
    assert_eq!(prove_mixed_sparse_products(&poly, &[], &[]).err(), Some(expected));
}

#[test]
fn prover_refuses_challenges_out_of_turn() {
    let poly = cubic();
    let mut state = IOPProverState::prover_init(&poly).unwrap();
    let before = state.clone();
    assert_eq!(
        state.prove_round_and_update_state(&Some(fr(1))),
        Err(PolyIOPErrors::InvalidProver("first round should be prover first.".to_string()))
    );
    assert_eq!(state, before);
    state.prove_round_and_update_state(&None).unwrap();
    assert_eq!(
        state.prove_round_and_update_state(&None),
        Err(PolyIOPErrors::InvalidProver("verifier message is empty".to_string()))
    );
    state.prove_round_and_update_state(&Some(fr(2))).unwrap();
    assert_eq!(
        state.prove_round_and_update_state(&Some(fr(3))),
        Err(PolyIOPErrors::InvalidProver("Prover is not active".to_string()))
    );
    assert_eq!(state.challenges, vec![fr(2)]);
}

#[test]
fn binding_a_variable_interpolates() {
    let mut mle = (*dense_mle(2, &[(0, fr(1)), (1, fr(4)), (2, fr(10)), (3, fr(20))])).clone();
    bind_first_variable_in_place(&mut mle, fr(5));
    assert_eq!(mle.num_vars, 1);
    assert_eq!(mle.evaluations, vec![fr(16), fr(60)]);
    let mut constant = DenseMultilinearExtension::from_evaluations_vec(0, vec![fr(9)]);
    bind_first_variable_in_place(&mut constant, fr(5));
    assert_eq!(constant.evaluations, vec![fr(9)]);
}

#[test]
fn scans_agree() {
    let a: Vec<Fr> = (1..9).map(fr).collect();
    let b: Vec<Fr> = (11..19).map(fr).collect();
    let single = scan_single_multiplicand(&a, 4);
    assert_eq!(single.to_vec(), vec![fr(16), fr(20)]);
    assert_eq!(scan_product_generic(&[&a], 4), single.to_vec());
    let pair = scan_pair_multiplicands(&a, &b, 4);
    assert_eq!(scan_product_generic(&[&a, &b], 4), pair.to_vec());
    assert_eq!(pair[0], fr(11 + 3 * 13 + 5 * 15 + 7 * 17));
}

#[test]
fn extrapolation_of_a_cubic() {
    let points: Vec<Fr> = (0..4).map(fr).collect();
    let weights = barycentric_weights(&points);
    assert_eq!(weights[0].mul(fr(6)).add(Fr::one()), Fr::zero());
    assert_eq!(weights[1].mul(fr(2)), Fr::one());
    let evals: Vec<Fr> = (0..4).map(|x| fr(x * x * x + 2 * x + 5)).collect();
    assert_eq!(extrapolate(&points, &weights, &evals, &fr(10)), fr(1025));
    assert_eq!(barycentric_weights(&[fr(7)]), vec![Fr::one()]);
}

#[test]
fn sparse_entries_are_normalized() {
    let product = SparseSupportProduct::new(
        3,
        fr(1),
        vec![(5, fr(2)), (1, fr(3)), (5, fr(4)), (2, fr(0)), (7, fr(1)), (7, fr(1).neg())],
        vec![],
    )
    .unwrap();
    assert_eq!(product.num_vars(), 3);
    assert_eq!(product.support_len_left(), 2);
    assert_eq!(product.support_len_right(), 0);
    let same = SparseSupportProduct::new(3, fr(1), vec![(1, fr(3)), (5, fr(6))], vec![]).unwrap();
    assert_eq!(product, same);
}

#[test]
fn sparse_product_refuses_what_does_not_fit() {
    let outside = |left: Vec<(usize, Fr)>, right: Vec<(usize, Fr)>| {
        SparseSupportProduct::new(2, fr(1), left, right).err()
    };
    assert_eq!(
        outside(vec![(9, fr(1)), (4, fr(1)), (5, fr(1))], vec![(6, fr(1))]),
        Some(PolyIOPErrors::InvalidParameters(
            "sparse support index 4 exceeds domain size 4".to_string()
        ))
    );
    assert_eq!(
        outside(vec![(9, fr(0))], vec![(6, fr(1))]),
        Some(PolyIOPErrors::InvalidParameters(
            "sparse support index 6 exceeds domain size 4".to_string()
        ))
    );
    assert_eq!(outside(vec![(9, fr(0))], vec![]), None);
    assert_eq!(
        SparseSupportProduct::<Fr>::new(64, fr(1), vec![], vec![]).err(),
        Some(PolyIOPErrors::InvalidParameters("too many variables".to_string()))
    );
}

#[test]
fn sparse_product_refuses_a_wrong_point() {
    let product = SparseSupportProduct::new(2, fr(1), vec![(1, fr(2))], vec![(1, fr(2))]).unwrap();
    assert_eq!(
        product.evaluate_factors_at_point(&[fr(1)]).err(),
        Some(PolyIOPErrors::InvalidParameters("wrong number of variables 1 vs 2".to_string()))
    );
    let mut constant =
        SparseSupportProduct::new(0, fr(1), vec![(0, fr(2))], vec![]).unwrap();
    assert_eq!(constant.evaluate_factors_at_point(&[]), Ok((fr(2), fr(0))));
    assert_eq!(
        constant.apply_challenge(fr(1)),
        Err(PolyIOPErrors::InvalidParameters(
            "cannot fix variables on a constant sparse support product".to_string()
        ))
    );
}

#[test]
fn sparse_round_values() {
    let product = SparseSupportProduct::new(
        2,
        fr(3),
        vec![(0, fr(1)), (3, fr(2))],
        vec![(1, fr(5)), (2, fr(7)), (3, fr(11))],
    )
    .unwrap();
    // Rows: left (1, 0) and (0, 2), right (0, 5) and (7, 11).
    assert_eq!(
        product.round_evaluations(3),
        vec![fr(0), fr(66), fr(150), fr(252)]
    );
}

#[test]
fn mixed_prover_refuses_a_mismatch() {
    let poly = VirtualPolynomial::<Fr>::new(3);
    let good = SparseSupportProduct::new(3, fr(1), vec![], vec![]).unwrap();
    let bad = SparseSupportProduct::new(2, fr(1), vec![], vec![]).unwrap();
    assert_eq!(
        prove_mixed_sparse_products(&poly, &[good, bad], &[fr(1), fr(2), fr(3)]).err(),
        Some(PolyIOPErrors::InvalidParameters(
            "sparse term num_vars mismatch: 2 vs 3".to_string()
        ))
    );
}

#[test]
fn mixed_proof_under_given_challenges_is_that_of_the_protocol() {
    let poly = cubic();
    let sparse = SparseSupportProduct::new(
        2,
        fr(4),
        vec![(0, fr(1)), (2, fr(2))],
        vec![(2, fr(5)), (3, fr(6))],
    )
    .unwrap();
    let mut transcript = Transcript::new(b"given");
    let run = prove_mixed(&poly, &[sparse.clone()], &mut transcript).unwrap();
    let given = prove_mixed_sparse_products(&poly, &[sparse.clone()], &run.point).unwrap();
    assert_eq!(run, given);
    let mut whole = cubic();
    whole
        .add_mle_list(
            &[
                dense_mle(2, &[(0, fr(1)), (2, fr(2))]),
                dense_mle(2, &[(2, fr(5)), (3, fr(6))]),
            ],
            fr(4),
        )
        .unwrap();
    assert_eq!(prove_rounds(&whole, &run.point).unwrap(), given);
}

#[test]
fn mixed_message_holds_a_linear_share_at_two() {
    let mut poly = VirtualPolynomial::<Fr>::new(1);
    poly.add_mle_list(&[dense_mle(1, &[(0, fr(3)), (1, fr(5))])], fr(1)).unwrap();
    let sparse =
        SparseSupportProduct::new(1, fr(1), vec![(1, fr(2))], vec![(1, fr(7))]).unwrap();
    let proof = prove_mixed_sparse_products(&poly, &[sparse], &[fr(9)]).unwrap();
    assert_eq!(proof.proofs[0].evaluations, vec![fr(3), fr(19), fr(63)]);
    // With (1 - x)^2 the sum is 3 + 2x + (1 - x)^2.
    let square =
        SparseSupportProduct::new(1, fr(1), vec![(0, fr(1))], vec![(0, fr(1))]).unwrap();
    let proof = prove_mixed_sparse_products(&poly, &[square], &[fr(9)]).unwrap();
    assert_eq!(proof.proofs[0].evaluations, vec![fr(4), fr(5), fr(8)]);
}

#[test]
fn virtual_polynomials_are_checked() {
    assert!(cubic().is_well_formed());
    let mut misplaced = cubic();
    misplaced.products[0].1[0] = misplaced.flattened_ml_extensions.len();
    assert!(!misplaced.is_well_formed());
    let mut empty = cubic();
    empty.products[0].1.clear();
    assert!(!empty.is_well_formed());
    let mut low = cubic();
    low.aux_info.max_degree = 0;
    assert!(!low.is_well_formed());
    let mut wide = cubic();
    wide.aux_info.num_variables += 1;
    assert!(!wide.is_well_formed());
    let mut high = cubic();
    high.aux_info.max_degree = usize::MAX;
    assert!(!high.is_well_formed());
}

#[test]
fn dense_prover_answers_as_the_challenges_come() {
    let poly = cubic();
    let challenges = [fr(8), fr(9)];
    let mut prover = DenseProver::start(&poly).unwrap();
    assert_eq!(
        prover.next_message(&Some(fr(1))).err(),
        Some(PolyIOPErrors::InvalidProver("first round should be prover first.".to_string()))
    );
    let first = prover.next_message(&None).unwrap();
    assert_eq!(
        prover.next_message(&None).err(),
        Some(PolyIOPErrors::InvalidProver("verifier message is empty".to_string()))
    );
    let second = prover.next_message(&Some(challenges[0])).unwrap();
    assert_eq!(
        prover.next_message(&Some(challenges[1])).err(),
        Some(PolyIOPErrors::InvalidProver("Prover is not active".to_string()))
    );
    let proof = prover.finish(challenges[1]);
    assert_eq!(proof.point, challenges.to_vec());
    assert_eq!(proof.proofs, vec![first, second]);
    assert_eq!(proof, prove_rounds(&poly, &challenges).unwrap());
    assert_eq!(
        DenseProver::start(&VirtualPolynomial::<Fr>::new(0)).err(),
        Some(PolyIOPErrors::InvalidParameters("Attempt to prove a constant.".to_string()))
    );
}

#[test]
fn extrapolation_from_any_points() {
    // The polynomial x^2 + 3x + 1.
    let points = [fr(2), fr(5), fr(11)];
    let values = [fr(11), fr(41), fr(155)];
    let weights = barycentric_weights(&points);
    assert_eq!(extrapolate(&points, &weights, &values, &fr(7)), fr(71));
    assert_eq!(extrapolate(&points, &weights, &values, &fr(1).neg()), fr(1).neg());
}

#[test]
fn round_of_a_constant_product() {
    let constant =
        SparseSupportProduct::new(0, fr(2), vec![(0usize, fr(3))], vec![(0usize, fr(5))]).unwrap();
    // Each factor is the first of a pair whose second is zero.
    assert_eq!(constant.round_evaluations(2), vec![fr(30), fr(0), fr(30)]);
}

#[test]
fn extrapolation_with_short_lists() {
    let points = [fr(0), fr(1)];
    // The coefficients are 1/2 and 1: without weights each counts once.
    let half = fr(2).inverse().unwrap();
    let total = half.add(fr(1));
    let expected = half.mul(fr(7)).mul(total.inverse().unwrap());
    assert_eq!(extrapolate(&points, &[], &[fr(7)], &fr(2)), expected);
}
