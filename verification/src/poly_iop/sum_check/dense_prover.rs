//! A sum-check prover for the sum of a virtual polynomial.

use crate::arithmetic::virtual_polynomial::VirtualPolynomial;
use crate::errors::PolyIOPErrors;
use crate::field::{vals, PrimeField};
use crate::math::multilinear::lemma_pow2_halves;
use crate::math::terms::{
    eqm_tables, fix_all, lemma_bound_tables, lemma_eqm_tables_same, lemma_fix_all_empty,
    lemma_round_value_eqm, round_value,
};
use crate::poly_iop::structs::{is_message, is_proof, IOPProof, IOPProverMessage, IOPProverState};
use crate::poly_iop::sum_check::correctness::{
    holds_round, lemma_dense_message_holds_round, lemma_dense_proof_convinces, shows_sum,
};
use vstd::arithmetic::power2::pow2;
use vstd::prelude::*;

verus! {

/// The prover's side of a running protocol. Between two messages the caller
/// hands the challenge over.
pub struct DenseProver<F: PrimeField> {
    state: IOPProverState<F>,
    proofs: Vec<IOPProverMessage<F>>,
    polynomial: Ghost<VirtualPolynomial<F>>,
}

/// The message that answers `challenges` about the sum of `poly`.
pub open spec fn is_dense_message<F: PrimeField>(
    message: IOPProverMessage<F>,
    poly: VirtualPolynomial<F>,
    challenges: Seq<int>,
) -> bool {
    is_message(
        message,
        poly.tables(),
        poly.terms(),
        poly.aux_info.num_variables as nat,
        poly.aux_info.max_degree as int,
        challenges,
    )
}

/// A proof about the sum of `poly` over the hypercube.
pub open spec fn is_dense_proof<F: PrimeField>(
    proof: IOPProof<F>,
    poly: VirtualPolynomial<F>,
) -> bool {
    is_proof(
        proof,
        poly.tables(),
        poly.terms(),
        poly.aux_info.num_variables as nat,
        poly.aux_info.max_degree as int,
    )
}

impl<F: PrimeField> DenseProver<F> {
    /// The messages so far.
    pub closed spec fn messages(self) -> Seq<IOPProverMessage<F>> {
        self.proofs@
    }

    /// The challenges so far.
    pub closed spec fn challenges(self) -> Seq<F> {
        self.state.challenges@
    }

    /// The polynomial that the protocol is about.
    pub closed spec fn poly(self) -> VirtualPolynomial<F> {
        self.polynomial@
    }

    pub closed spec fn wf(self) -> bool {
        let poly = self.polynomial@;
        let chs = vals(self.state.challenges@);
        &&& poly.aux_info.num_variables > 0
        &&& poly.wf()
        &&& self.state.wf()
        &&& self.state.poly.aux_info == poly.aux_info
        &&& self.state.poly.terms() == poly.terms()
        &&& eqm_tables(F::modulus(), self.state.poly.tables(), fix_all(poly.tables(), chs))
        &&& self.proofs@.len() == self.state.round
        &&& forall|i: int|
            0 <= i < self.proofs@.len() ==> is_dense_message(
                #[trigger] self.proofs@[i],
                poly,
                chs.take(i),
            )
    }

    /// Starts the protocol.
    pub fn start(polynomial: &VirtualPolynomial<F>) -> (r: Result<Self, PolyIOPErrors>)
        requires
            polynomial.wf(),
        ensures
            r is Err <==> polynomial.aux_info.num_variables == 0,
            r matches Err(e) ==> e.is_invalid_parameters("Attempt to prove a constant."@),
            r matches Ok(prover) ==> {
                &&& prover.wf()
                &&& prover.poly() == *polynomial
                &&& prover.messages() == Seq::<IOPProverMessage<F>>::empty()
                &&& prover.challenges() == Seq::<F>::empty()
            },
    {
        let state = match IOPProverState::prover_init(polynomial) {
            Ok(state) => state,
            Err(e) => {
                return Err(e);
            },
        };
        proof {
            state.poly.lemma_same(*polynomial, polynomial.aux_info.num_variables as nat);
            assert(vals(state.challenges@) =~= Seq::<int>::empty());
            lemma_fix_all_empty(polynomial.tables());
            lemma_eqm_tables_same(F::modulus(), polynomial.tables());
        }
        Ok(DenseProver { state, proofs: Vec::new(), polynomial: Ghost(*polynomial) })
    }

    /// Takes the verifier's challenge and answers with the message of the next
    /// round. There is no challenge before the first message.
    pub fn next_message(&mut self, challenge: &Option<F>) -> (r: Result<
        IOPProverMessage<F>,
        PolyIOPErrors,
    >)
        requires
            old(self).wf(),
            old(self).poly().aux_info.num_variables <= usize::BITS,
        ensures
            final(self).wf(),
            final(self).poly() == old(self).poly(),
            r is Ok <==> old(self).messages().len() < old(self).poly().aux_info.num_variables && (
            challenge is Some <==> old(self).messages().len() > 0),
            r matches Err(e) ==> {
                &&& final(self).messages() == old(self).messages()
                &&& final(self).challenges() == old(self).challenges()
                &&& if old(self).messages().len() >= old(self).poly().aux_info.num_variables {
                    e.is_invalid_prover("Prover is not active"@)
                } else if challenge is Some {
                    e.is_invalid_prover("first round should be prover first."@)
                } else {
                    e.is_invalid_prover("verifier message is empty"@)
                }
            },
            r matches Ok(message) ==> {
                &&& final(self).challenges() == match *challenge {
                    Some(c) => old(self).challenges().push(c),
                    None => old(self).challenges(),
                }
                &&& final(self).messages().len() == old(self).messages().len() + 1
                &&& final(self).messages().drop_last() == old(self).messages()
                &&& final(self).messages().last().evaluations@ == message.evaluations@
                &&& is_dense_message(message, old(self).poly(), vals(final(self).challenges()))
                &&& holds_round(message, old(self).poly(), vals(final(self).challenges()))
            },
    {
        let ghost p = F::modulus();
        let ghost poly = self.polynomial@;
        let ghost n = poly.aux_info.num_variables as nat;
        let ghost past = vals(self.state.challenges@);
        let ghost before = self.state.poly.tables();
        proof {
            F::lemma_modulus();
        }
        let message = match self.state.prove_round_and_update_state(challenge) {
            Ok(message) => message,
            Err(e) => {
                return Err(e);
            },
        };
        proof {
            let chs = vals(self.state.challenges@);
            let round = chs.len() as int;
            let half = pow2((n - 1 - round) as nat) as int;
            let (ts, terms) = (poly.tables(), poly.terms());
            let cur = self.state.poly.tables();
            if challenge is Some {
                let c = challenge->0.val();
                assert(chs =~= past.push(c));
                poly.lemma_shape(n);
                lemma_bound_tables(p, before, ts, past, c);
            }
            self.state.poly.lemma_shape((n - round) as nat);
            lemma_pow2_halves((n - round) as nat);
            assert forall|j: int| 0 <= j <= poly.aux_info.max_degree implies (
            #[trigger] message.evaluations@[j]).val() == round_value(
                fix_all(ts, chs),
                terms,
                half,
                j,
            ) % p by {
                lemma_round_value_eqm(p, cur, fix_all(ts, chs), terms, half, j);
            }
            assert forall|i: int| 0 <= i < self.proofs@.len() implies is_dense_message(
                #[trigger] self.proofs@[i],
                poly,
                chs.take(i),
            ) by {
                assert(chs.take(i) =~= past.take(i));
            }
            assert(chs.take(round) =~= chs);
            lemma_dense_message_holds_round(message, poly, chs);
        }
        self.proofs.push(message.copy());
        assert(self.proofs@.drop_last() =~= old(self).proofs@);
        Ok(message)
    }

    /// Ends the protocol with the challenge that follows the last message.
    pub fn finish(self, last_challenge: F) -> (r: IOPProof<F>)
        requires
            self.wf(),
            self.messages().len() == self.poly().aux_info.num_variables,
        ensures
            r.point@ == self.challenges().push(last_challenge),
            r.proofs@ == self.messages(),
            is_dense_proof(r, self.poly()),
            self.poly().products@.len() > 0 ==> shows_sum(r, self.poly()),
    {
        let ghost chs = vals(self.state.challenges@);
        let mut point = self.state.challenges;
        point.push(last_challenge);
        proof {
            assert forall|i: int| 0 <= i < self.proofs@.len() implies is_dense_message(
                #[trigger] self.proofs@[i],
                self.polynomial@,
                vals(point@).take(i),
            ) by {
                assert(vals(point@).take(i) =~= chs.take(i));
            }
        }
        let proof = IOPProof { point, proofs: self.proofs };
        proof {
            if self.polynomial@.products@.len() > 0 {
                lemma_dense_proof_convinces(proof, self.polynomial@);
            }
        }
        proof
    }
}

/// The outcome of proving under the given challenges.
pub open spec fn is_proving_outcome<F: PrimeField>(
    poly: VirtualPolynomial<F>,
    challenges: Seq<F>,
    r: Result<IOPProof<F>, PolyIOPErrors>,
) -> bool {
    match r {
        Ok(proof) => {
            &&& poly.aux_info.num_variables > 0
            &&& proof.point@ == challenges
            &&& is_dense_proof(proof, poly)
        },
        Err(e) => {
            &&& poly.aux_info.num_variables == 0
            &&& e.is_invalid_parameters("Attempt to prove a constant."@)
        },
    }
}

/// The sum-check proof that the given challenges lead to.
pub fn prove_rounds<F: PrimeField>(
    polynomial: &VirtualPolynomial<F>,
    challenges: &[F],
) -> (r: Result<IOPProof<F>, PolyIOPErrors>)
    requires
        polynomial.wf(),
        polynomial.aux_info.num_variables <= usize::BITS,
        challenges@.len() == polynomial.aux_info.num_variables,
    ensures
        r is Err <==> polynomial.aux_info.num_variables == 0,
        r matches Err(e) ==> e.is_invalid_parameters("Attempt to prove a constant."@),
        r matches Ok(proof) ==> {
            &&& proof.point@ == challenges@
            &&& is_dense_proof(proof, *polynomial)
            &&& polynomial.products@.len() > 0 ==> shows_sum(proof, *polynomial)
        },
        is_proving_outcome(*polynomial, challenges@, r),
{
    let mut prover = match DenseProver::start(polynomial) {
        Ok(prover) => prover,
        Err(e) => {
            return Err(e);
        },
    };
    let n = challenges.len();
    let mut i: usize = 0;
    assert(challenges@.take(0) =~= Seq::<F>::empty());
    while i < n
        invariant
            0 <= i <= n,
            n == challenges@.len(),
            0 < n <= usize::BITS,
            n == polynomial.aux_info.num_variables,
            prover.wf(),
            prover.poly() == *polynomial,
            prover.messages().len() == i,
            prover.challenges() == challenges@.take(if i > 0 {
                i - 1
            } else {
                0
            }),
        decreases n - i,
    {
        let challenge = if i > 0 {
            Some(challenges[i - 1])
        } else {
            None
        };
        match prover.next_message(&challenge) {
            Ok(_) => {},
            Err(e) => {
                return Err(e);
            },
        }
        proof {
            if i > 0 {
                assert(challenges@.take(i - 1).push(challenges@[i - 1]) =~= challenges@.take(
                    i as int,
                ));
            }
        }
        i = i + 1;
    }
    assert(challenges@.take(n - 1).push(challenges@[n - 1]) =~= challenges@);
    Ok(prover.finish(challenges[n - 1]))
}

} // verus!
