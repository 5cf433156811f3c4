//! What provers and verifiers exchange, and what the prover remembers.

use crate::arithmetic::dense::copy_slice;
use crate::arithmetic::virtual_polynomial::VirtualPolynomial;
use crate::field::{vals, PrimeField};
use crate::math::interpolation::are_weights;
use crate::math::sums::counting;
use crate::math::terms::{bound_tables, fix_all, round_value, Term};
use vstd::arithmetic::power2::pow2;
use vstd::prelude::*;

verus! {

/// The message of one round: the values of the round's polynomial at
/// `0, 1, ..., max_degree`.
#[derive(Clone, Debug, PartialEq, Eq)]
pub struct IOPProverMessage<F: PrimeField> {
    pub evaluations: Vec<F>,
}

/// A sum-check proof: the challenges, and the messages that they answered.
#[derive(Clone, Debug, PartialEq, Eq)]
pub struct IOPProof<F: PrimeField> {
    pub point: Vec<F>,
    pub proofs: Vec<IOPProverMessage<F>>,
}

/// The prover's side of a running sum-check protocol.
#[derive(Clone, Debug, PartialEq, Eq)]
pub struct IOPProverState<F: PrimeField> {
    /// The challenges so far.
    pub challenges: Vec<F>,
    /// The number of messages so far.
    pub round: usize,
    /// The polynomial with its first variables fixed to the challenges.
    pub poly: VirtualPolynomial<F>,
    /// `extrapolation_aux[d - 1]` holds the points `0, ..., d` and their
    /// barycentric weights.
    pub extrapolation_aux: Vec<(Vec<F>, Vec<F>)>,
}

/// The points `0, ..., degree` and their barycentric weights.
pub open spec fn interpolates<F: PrimeField>(aux: (Vec<F>, Vec<F>), degree: int) -> bool {
    &&& vals(aux.0@) == counting(degree + 1)
    &&& are_weights(F::modulus(), counting(degree + 1), vals(aux.1@))
}

/// `aux[d - 1]` is the interpolation data of every degree `d` below
/// `max_degree`.
pub open spec fn extrapolates<F: PrimeField>(aux: Seq<(Vec<F>, Vec<F>)>, max_degree: int) -> bool {
    &&& aux.len() == if max_degree > 0 {
        max_degree - 1
    } else {
        0
    }
    &&& forall|d: int| 1 <= d <= aux.len() ==> interpolates(#[trigger] aux[d - 1], d)
}

impl<F: PrimeField> IOPProverState<F> {
    /// The number of variables that are fixed: one per challenge. The first
    /// message comes before the first challenge.
    pub open spec fn fixed(self) -> int {
        if self.round == 0 {
            0
        } else {
            self.round - 1
        }
    }

    pub open spec fn wf(self) -> bool {
        &&& self.round <= self.poly.aux_info.num_variables
        &&& self.challenges@.len() == self.fixed()
        &&& self.poly.shaped((self.poly.aux_info.num_variables - self.fixed()) as nat)
        &&& extrapolates(self.extrapolation_aux@, self.poly.aux_info.max_degree as int)
    }
}

/// One round of the protocol: from the state `before` it the challenge, if it
/// is not the first, leads to the state `after` it and to the message. The
/// challenge fixes the next variable, and the message holds the values of the
/// polynomial whose first variable is free and whose others run over the
/// hypercube.
pub open spec fn is_round<F: PrimeField>(
    before: IOPProverState<F>,
    after: IOPProverState<F>,
    challenge: Option<F>,
    message: IOPProverMessage<F>,
) -> bool {
    &&& after.wf()
    &&& after.round == before.round + 1
    &&& after.poly.aux_info == before.poly.aux_info
    &&& after.poly.terms() == before.poly.terms()
    &&& match challenge {
        None => {
            &&& after.challenges@ == before.challenges@
            &&& after.poly.tables() == before.poly.tables()
        },
        Some(c) => {
            &&& after.challenges@ == before.challenges@.push(c)
            &&& after.poly.tables() == bound_tables(F::modulus(), before.poly.tables(), c.val())
        },
    }
    &&& message.evaluations@.len() == before.poly.aux_info.max_degree + 1
    &&& forall|j: int|
        0 <= j < message.evaluations@.len() ==> (#[trigger] message.evaluations@[j]).val()
            == round_value(
            after.poly.tables(),
            before.poly.terms(),
            pow2((before.poly.aux_info.num_variables - after.round) as nat) as int,
            j,
        ) % F::modulus()
}

/// The message that answers `challenges` about the sum of `terms`, products of
/// the `n`-variate polynomials `ts`: with the first variables fixed to the
/// challenges, the round's polynomial at `0, 1, ..., max_degree`.
pub open spec fn is_message<F: PrimeField>(
    message: IOPProverMessage<F>,
    ts: Seq<Seq<int>>,
    terms: Seq<Term>,
    n: nat,
    max_degree: int,
    challenges: Seq<int>,
) -> bool {
    &&& message.evaluations@.len() == max_degree + 1
    &&& forall|j: int|
        0 <= j <= max_degree ==> (#[trigger] message.evaluations@[j]).val() == round_value(
            fix_all(ts, challenges),
            terms,
            pow2((n - 1 - challenges.len()) as nat) as int,
            j,
        ) % F::modulus()
}

/// A proof about the sum of `terms` over the hypercube: a message before each
/// of `n` challenges.
pub open spec fn is_proof<F: PrimeField>(
    proof: IOPProof<F>,
    ts: Seq<Seq<int>>,
    terms: Seq<Term>,
    n: nat,
    max_degree: int,
) -> bool {
    &&& proof.point@.len() == n
    &&& proof.proofs@.len() == n
    &&& forall|i: int|
        0 <= i < n ==> is_message(
            #[trigger] proof.proofs@[i],
            ts,
            terms,
            n,
            max_degree,
            vals(proof.point@).take(i),
        )
}

/// Two proofs with the same field elements.
pub open spec fn same_proof<F: PrimeField>(a: IOPProof<F>, b: IOPProof<F>) -> bool {
    &&& vals(a.point@) == vals(b.point@)
    &&& a.proofs@.len() == b.proofs@.len()
    &&& forall|i: int|
        0 <= i < a.proofs@.len() ==> vals((#[trigger] a.proofs@[i]).evaluations@) == vals(
            b.proofs@[i].evaluations@,
        )
}

impl<F: PrimeField> IOPProverMessage<F> {
    /// An equal message.
    pub fn copy(&self) -> (r: Self)
        ensures
            r.evaluations@ == self.evaluations@,
    {
        IOPProverMessage { evaluations: copy_slice(self.evaluations.as_slice()) }
    }
}

impl<F: PrimeField> IOPProof<F> {
    /// An equal proof.
    pub fn copy(&self) -> (r: Self)
        ensures
            r.point@ == self.point@,
            r.proofs@.len() == self.proofs@.len(),
            forall|i: int|
                0 <= i < self.proofs@.len() ==> (#[trigger] r.proofs@[i]).evaluations@
                    == self.proofs@[i].evaluations@,
    {
        let mut proofs: Vec<IOPProverMessage<F>> = Vec::with_capacity(self.proofs.len());
        let mut i: usize = 0;
        while i < self.proofs.len()
            invariant
                0 <= i <= self.proofs@.len(),
                proofs@.len() == i,
                forall|k: int|
                    0 <= k < i ==> (#[trigger] proofs@[k]).evaluations@
                        == self.proofs@[k].evaluations@,
            decreases self.proofs.len() - i,
        {
            proofs.push(self.proofs[i].copy());
            i = i + 1;
        }
        IOPProof { point: copy_slice(self.point.as_slice()), proofs }
    }
}

} // verus!
