//! A sum-check prover for the sum of a virtual polynomial and of products of
//! two sparse polynomials.

use crate::arithmetic::virtual_polynomial::{VPAuxInfo, VirtualPolynomial};
use crate::errors::PolyIOPErrors;
use crate::field::{vals, PrimeField};
use crate::math::interpolation::lemma_line;
use crate::math::modular::{eqm, lemma_eqm_add, lemma_eqm_mul, lemma_eqm_residue, lemma_eqm_sub};
use crate::math::multilinear::lemma_pow2_halves;
use crate::math::sums::{counting, lemma_sum_eqm, sum};
use crate::math::terms::{
    all_sized, bound_tables, eqm_tables, fix_all, fold_all, lemma_bound_tables,
    lemma_eqm_tables_same, lemma_fix_all_empty, lemma_fold_all_eqm, lemma_product_sum_eqm,
    lemma_round_value_eqm, product_sum, round_value,
};
use crate::poly_iop::structs::{IOPProof, IOPProverMessage, IOPProverState};
use crate::poly_iop::sum_check::consistency::{factors_at_most, lemma_round_degree, round_after};
use crate::poly_iop::sum_check::correctness::{
    holds_mixed_round, lemma_mixed_message_holds_round, lemma_mixed_proof_convinces,
    shows_mixed_sum,
};
use crate::poly_iop::sum_check::sparse_product::SparseSupportProduct;
use crate::text::{decimal, decimal_text};
use vstd::arithmetic::div_mod::lemma_small_mod;
use vstd::arithmetic::power2::pow2;
use vstd::prelude::*;

verus! {

/// The larger of a polynomial's degree and 2, the degree of a sparse product.
pub open spec fn mixed_degree(max_degree: int) -> int {
    if max_degree >= 2 {
        max_degree
    } else {
        2
    }
}

/// The share of the sparse product `s` in a round's polynomial at `x`.
pub open spec fn sparse_share<F: PrimeField>(
    s: SparseSupportProduct<F>,
    challenges: Seq<int>,
    half: int,
    x: int,
) -> int {
    s.coeff() * product_sum(fold_all(fix_all(s.tables(), challenges), x), counting(2), half)
}

/// The share of the first `m` sparse products in a round's polynomial at `x`.
pub open spec fn sparse_shares<F: PrimeField>(
    sparse: Seq<SparseSupportProduct<F>>,
    challenges: Seq<int>,
    half: int,
    x: int,
    m: int,
) -> int {
    sum(|k: int| sparse_share(sparse[k], challenges, half, x), 0, m)
}

/// The message that answers `challenges`.
pub open spec fn is_mixed_message<F: PrimeField>(
    message: IOPProverMessage<F>,
    poly: VirtualPolynomial<F>,
    sparse: Seq<SparseSupportProduct<F>>,
    challenges: Seq<int>,
) -> bool {
    &&& message.evaluations@.len() == mixed_degree(poly.aux_info.max_degree as int) + 1
    &&& forall|j: int|
        0 <= j < message.evaluations@.len() ==> (#[trigger] message.evaluations@[j]).val() == (
        round_value(
            fix_all(poly.tables(), challenges),
            poly.terms(),
            pow2((poly.aux_info.num_variables - 1 - challenges.len()) as nat) as int,
            j,
        ) + sparse_shares(
            sparse,
            challenges,
            pow2((poly.aux_info.num_variables - 1 - challenges.len()) as nat) as int,
            j,
            sparse.len() as int,
        )) % F::modulus()
}

/// A proof about the sum of `poly` and the sparse products: a message before
/// each challenge.
pub open spec fn is_mixed_proof<F: PrimeField>(
    proof: IOPProof<F>,
    poly: VirtualPolynomial<F>,
    sparse: Seq<SparseSupportProduct<F>>,
) -> bool {
    &&& proof.point@.len() == poly.aux_info.num_variables
    &&& proof.proofs@.len() == poly.aux_info.num_variables
    &&& forall|i: int|
        0 <= i < proof.proofs@.len() ==> is_mixed_message(
            #[trigger] proof.proofs@[i],
            poly,
            sparse,
            vals(proof.point@).take(i),
        )
}

/// All sparse products are in `n` variables.
pub open spec fn all_in<F: PrimeField>(sparse: Seq<SparseSupportProduct<F>>, n: nat) -> bool {
    forall|k: int| 0 <= k < sparse.len() ==> (#[trigger] sparse[k]).vars() == n
}

pub open spec fn mismatch_text(found: nat, expected: nat) -> Seq<char> {
    "sparse term num_vars mismatch: "@ + decimal(found) + " vs "@ + decimal(expected)
}

/// The error for the first sparse product that is not in `n` variables.
pub open spec fn is_mismatch_error<F: PrimeField>(
    e: PolyIOPErrors,
    sparse: Seq<SparseSupportProduct<F>>,
    n: nat,
) -> bool {
    exists|k: int|
        0 <= k < sparse.len() && (#[trigger] sparse[k]).vars() != n && all_in(sparse.take(k), n)
            && e.is_invalid_parameters(mismatch_text(sparse[k].vars(), n))
}

fn mismatch_message(found: usize, expected: usize) -> (r: String)
    ensures
        r@ == mismatch_text(found as nat, expected as nat),
{
    let text = "sparse term num_vars mismatch: ".to_string().concat(decimal_text(found).as_str());
    let text = text.concat(" vs ");
    text.concat(decimal_text(expected).as_str())
}

/// The prover's side of a running protocol. Between two messages the caller
/// hands the challenge over.
pub struct MixedProver<F: PrimeField> {
    aux_info: VPAuxInfo,
    dense_state: IOPProverState<F>,
    sparse_states: Vec<SparseSupportProduct<F>>,
    proofs: Vec<IOPProverMessage<F>>,
    polynomial: Ghost<VirtualPolynomial<F>>,
    sparse: Ghost<Seq<SparseSupportProduct<F>>>,
}

/// The sparse product `cur` is `s` with its first variables fixed to the
/// challenges.
pub open spec fn follows<F: PrimeField>(
    cur: SparseSupportProduct<F>,
    s: SparseSupportProduct<F>,
    challenges: Seq<int>,
    n: nat,
) -> bool {
    &&& cur.wf()
    &&& challenges.len() <= n
    &&& cur.vars() == n - challenges.len()
    &&& cur.coeff() == s.coeff()
    &&& eqm_tables(F::modulus(), cur.tables(), fix_all(s.tables(), challenges))
}

proof fn lemma_sparse_sized<F: PrimeField>(s: SparseSupportProduct<F>)
    requires
        s.vars() > 0,
    ensures
        all_sized(s.tables(), 2 * pow2((s.vars() - 1) as nat) as int),
{
    lemma_pow2_halves(s.vars());
}

/// A follower's round is that of the product it follows.
proof fn lemma_follower_share<F: PrimeField>(
    cur: SparseSupportProduct<F>,
    s: SparseSupportProduct<F>,
    challenges: Seq<int>,
    n: nat,
    x: int,
)
    requires
        follows(cur, s, challenges, n),
        challenges.len() < n,
    ensures
        eqm(
            F::modulus(),
            cur.round_value(x),
            sparse_share(s, challenges, pow2((n - 1 - challenges.len()) as nat) as int, x),
        ),
{
    F::lemma_modulus();
    let p = F::modulus();
    let half = pow2((n - 1 - challenges.len()) as nat) as int;
    let (ts, us) = (cur.tables(), fix_all(s.tables(), challenges));
    cur.lemma_paired_tables();
    lemma_sparse_sized(cur);
    lemma_fold_all_eqm(p, ts, us, x, x);
    assert forall|k: int| 0 <= k < ts.len() implies (#[trigger] fold_all(ts, x)[k]).len()
        == half by {
        assert(ts[k].len() == 2 * half);
    }
    lemma_product_sum_eqm(p, fold_all(ts, x), fold_all(us, x), counting(2), half);
    lemma_eqm_mul(
        p,
        cur.coeff(),
        s.coeff(),
        product_sum(fold_all(ts, x), counting(2), half),
        product_sum(fold_all(us, x), counting(2), half),
    );
}

/// Fixes the first variable of every product to `challenge`.
fn bind_products<F: PrimeField>(states: &mut Vec<SparseSupportProduct<F>>, challenge: F)
    requires
        forall|k: int|
            0 <= k < old(states)@.len() ==> (#[trigger] old(states)@[k]).wf() && old(
                states,
            )@[k].vars() > 0,
    ensures
        final(states)@.len() == old(states)@.len(),
        forall|k: int|
            0 <= k < old(states)@.len() ==> {
                &&& (#[trigger] final(states)@[k]).wf()
                &&& final(states)@[k].vars() == old(states)@[k].vars() - 1
                &&& final(states)@[k].coeff() == old(states)@[k].coeff()
                &&& final(states)@[k].tables() == bound_tables(
                    F::modulus(),
                    old(states)@[k].tables(),
                    challenge.val(),
                )
            },
{
    let ghost before = states@;
    let ghost p = F::modulus();
    let mut k: usize = 0;
    while k < states.len()
        invariant
            0 <= k <= states@.len(),
            states@.len() == before.len(),
            p == F::modulus(),
            forall|i: int|
                0 <= i < before.len() ==> (#[trigger] before[i]).wf() && before[i].vars() > 0,
            forall|i: int| k <= i < before.len() ==> #[trigger] states@[i] == before[i],
            forall|i: int|
                0 <= i < k ==> {
                    &&& (#[trigger] states@[i]).wf()
                    &&& states@[i].vars() == before[i].vars() - 1
                    &&& states@[i].coeff() == before[i].coeff()
                    &&& states@[i].tables() == bound_tables(p, before[i].tables(), challenge.val())
                },
        decreases states.len() - k,
    {
        assert(before[k as int].wf() && before[k as int].vars() > 0);
        let mut state = states[k].copy();
        let bound = state.apply_challenge(challenge);
        assert(bound is Ok);
        assert(state.tables() =~= bound_tables(p, before[k as int].tables(), challenge.val()));
        states.set(k, state);
        k = k + 1;
    }
}

/// Extends the values of a polynomial of degree at most 1 to the values at
/// `0, 1, 2`. A longer message stays as it is.
fn extended_message<F: PrimeField>(evaluations: Vec<F>) -> (r: Vec<F>)
    requires
        evaluations@.len() > 0,
    ensures
        evaluations@.len() >= 3 ==> r@ == evaluations@,
        evaluations@.len() < 3 ==> {
            &&& r@.len() == 3
            &&& forall|j: int|
                0 <= j < evaluations@.len() ==> #[trigger] r@[j] == evaluations@[j]
            &&& evaluations@.len() == 1 ==> r@[1] == r@[0]
            &&& r@[2].val() == (2 * r@[1].val() - r@[0].val()) % F::modulus()
        },
{
    let mut r = evaluations;
    let ghost p = F::modulus();
    proof {
        F::lemma_modulus();
        F::lemma_val();
    }
    if r.len() == 1 {
        let first = r[0];
        r.push(first);
    }
    if r.len() == 2 {
        let value = r[1].add(r[1]).sub(r[0]);
        proof {
            let (a, b) = (r@[0].val(), r@[1].val());
            lemma_eqm_residue(p, b + b);
            lemma_eqm_sub(p, (b + b) % p, b + b, a, a);
        }
        r.push(value);
    }
    r
}

/// Adds the shares of the sparse products to a message.
fn add_shares<F: PrimeField>(
    evaluations: Vec<F>,
    states: &Vec<SparseSupportProduct<F>>,
    max_degree: usize,
) -> (r: Vec<F>)
    requires
        max_degree < usize::MAX,
        evaluations@.len() == max_degree + 1,
        forall|k: int|
            0 <= k < states@.len() ==> (#[trigger] states@[k]).wf() && states@[k].vars() > 0,
    ensures
        r@.len() == max_degree + 1,
        forall|j: int|
            0 <= j <= max_degree ==> (#[trigger] r@[j]).val() == (evaluations@[j].val() + sum(
                |k: int| states@[k].round_value(j),
                0,
                states@.len() as int,
            )) % F::modulus(),
{
    let ghost p = F::modulus();
    proof {
        F::lemma_modulus();
        F::lemma_val();
    }
    let mut evaluations = evaluations;
    let ghost given = evaluations@;
    let mut k: usize = 0;
    while k < states.len()
        invariant
            0 <= k <= states@.len(),
            max_degree < usize::MAX,
            p == F::modulus(),
            p > u64::MAX,
            forall|i: int|
                0 <= i < states@.len() ==> (#[trigger] states@[i]).wf() && states@[i].vars() > 0,
            given.len() == max_degree + 1,
            evaluations@.len() == max_degree + 1,
            forall|j: int|
                0 <= j <= max_degree ==> eqm(
                    p,
                    (#[trigger] evaluations@[j]).val(),
                    given[j].val() + sum(|i: int| states@[i].round_value(j), 0, k as int),
                ),
        decreases states.len() - k,
    {
        assert(states@[k as int].wf());
        let share = states[k].round_evaluations(max_degree);
        let ghost before = evaluations@;
        let mut j: usize = 0;
        while j <= max_degree
            invariant
                0 <= j <= max_degree + 1,
                max_degree < usize::MAX,
                p == F::modulus(),
                p > u64::MAX,
                0 <= k < states@.len(),
                share@.len() == max_degree + 1,
                forall|i: int|
                    0 <= i <= max_degree ==> (#[trigger] share@[i]).val()
                        == states@[k as int].round_value(i) % p,
                given.len() == max_degree + 1,
                before.len() == max_degree + 1,
                evaluations@.len() == max_degree + 1,
                forall|i: int|
                    0 <= i <= max_degree ==> eqm(
                        p,
                        (#[trigger] before[i]).val(),
                        given[i].val() + sum(|m: int| states@[m].round_value(i), 0, k as int),
                    ),
                forall|i: int| j <= i <= max_degree ==> #[trigger] evaluations@[i] == before[i],
                forall|i: int|
                    0 <= i < j ==> eqm(
                        p,
                        (#[trigger] evaluations@[i]).val(),
                        given[i].val() + sum(|m: int| states@[m].round_value(i), 0, k + 1),
                    ),
            decreases max_degree + 1 - j,
        {
            let value = evaluations[j].add(share[j]);
            proof {
                let i = j as int;
                let e = states@[k as int].round_value(i);
                let f = |m: int| states@[m].round_value(i);
                assert(eqm(p, before[i].val(), given[i].val() + sum(f, 0, k as int)));
                lemma_eqm_residue(p, e);
                lemma_eqm_add(p, before[i].val(), given[i].val() + sum(f, 0, k as int), e % p, e);
                lemma_eqm_residue(p, before[i].val() + e % p);
                assert(sum(f, 0, k + 1) == sum(f, 0, k as int) + e);
            }
            evaluations[j] = value;
            j = j + 1;
        }
        k = k + 1;
    }
    proof {
        assert forall|j: int| 0 <= j <= max_degree implies (#[trigger] evaluations@[j]).val() == (
        given[j].val() + sum(|k: int| states@[k].round_value(j), 0, states@.len() as int))
            % p by {
            lemma_small_mod(evaluations@[j].val() as nat, p as nat);
        }
    }
    evaluations
}

/// The extended message holds the values of the round's polynomial.
proof fn lemma_extended_message<F: PrimeField>(
    poly: VirtualPolynomial<F>,
    challenges: Seq<int>,
    dense: Seq<F>,
    whole: Seq<F>,
    j: int,
)
    requires
        poly.wf(),
        challenges.len() < poly.aux_info.num_variables,
        dense.len() == poly.aux_info.max_degree + 1,
        forall|i: int|
            0 <= i < dense.len() ==> eqm(
                F::modulus(),
                (#[trigger] dense[i]).val(),
                round_after(
                    poly.tables(),
                    poly.terms(),
                    poly.aux_info.num_variables as nat,
                    challenges,
                    i,
                ),
            ),
        dense.len() >= 3 ==> whole == dense,
        dense.len() < 3 ==> {
            &&& whole.len() == 3
            &&& forall|i: int| 0 <= i < dense.len() ==> #[trigger] whole[i] == dense[i]
            &&& dense.len() == 1 ==> whole[1] == whole[0]
            &&& whole[2].val() == (2 * whole[1].val() - whole[0].val()) % F::modulus()
        },
        0 <= j < whole.len(),
    ensures
        eqm(
            F::modulus(),
            whole[j].val(),
            round_after(
                poly.tables(),
                poly.terms(),
                poly.aux_info.num_variables as nat,
                challenges,
                j,
            ),
        ),
{
    F::lemma_modulus();
    let p = F::modulus();
    let n = poly.aux_info.num_variables as nat;
    let degree = poly.aux_info.max_degree as int;
    let (ts, terms) = (poly.tables(), poly.terms());
    let h = |x: int| round_after(ts, terms, n, challenges, x);
    if j < dense.len() {
        assert(eqm(p, dense[j].val(), h(j)));
    } else {
        poly.lemma_shape(n);
        assert(factors_at_most(terms, 1)) by {
            assert forall|k: int| 0 <= k < terms.len() implies (#[trigger] terms[k]).factors.len()
                <= 1 by {
                assert(poly.products@[k].1@.len() <= poly.aux_info.max_degree);
            }
        }
        lemma_round_degree(ts, terms, n, 1, challenges, h);
        lemma_line(h);
        assert(eqm(p, dense[0].val(), h(0)));
        if degree == 0 {
            // No product has a multiplicand, so there is no product.
            if poly.products@.len() > 0 {
                assert(poly.products@[0].1@.len() <= poly.aux_info.max_degree);
            }
            assert(terms.len() == 0);
            assert(h(0) == 0 && h(1) == 0);
        } else {
            assert(eqm(p, dense[1].val(), h(1)));
        }
        let (a, b) = (whole[0].val(), whole[1].val());
        lemma_eqm_add(p, b, h(1), b, h(1));
        lemma_eqm_sub(p, b + b, h(1) + h(1), a, h(0));
        lemma_eqm_residue(p, 2 * b - a);
    }
}

impl<F: PrimeField> MixedProver<F> {
    /// The messages so far.
    pub closed spec fn messages(self) -> Seq<IOPProverMessage<F>> {
        self.proofs@
    }

    /// The challenges so far.
    pub closed spec fn challenges(self) -> Seq<F> {
        self.dense_state.challenges@
    }

    /// The virtual polynomial that the protocol is about.
    pub closed spec fn poly(self) -> VirtualPolynomial<F> {
        self.polynomial@
    }

    /// The sparse products that the protocol is about.
    pub closed spec fn products(self) -> Seq<SparseSupportProduct<F>> {
        self.sparse@
    }

    pub closed spec fn wf(self) -> bool {
        let p = F::modulus();
        let poly = self.polynomial@;
        let n = poly.aux_info.num_variables as nat;
        let chs = vals(self.dense_state.challenges@);
        &&& n > 0
        &&& poly.wf()
        &&& all_in(self.sparse@, n)
        &&& self.aux_info.num_variables == n
        &&& self.aux_info.max_degree == mixed_degree(poly.aux_info.max_degree as int)
        &&& self.dense_state.wf()
        &&& self.dense_state.poly.aux_info == poly.aux_info
        &&& self.dense_state.poly.terms() == poly.terms()
        &&& eqm_tables(p, self.dense_state.poly.tables(), fix_all(poly.tables(), chs))
        &&& self.sparse_states@.len() == self.sparse@.len()
        &&& forall|k: int|
            0 <= k < self.sparse@.len() ==> follows(
                #[trigger] self.sparse_states@[k],
                self.sparse@[k],
                chs,
                n,
            )
        &&& self.proofs@.len() == self.dense_state.round
        &&& forall|i: int|
            0 <= i < self.proofs@.len() ==> is_mixed_message(
                #[trigger] self.proofs@[i],
                poly,
                self.sparse@,
                chs.take(i),
            )
    }

    /// Starts the protocol.
    pub fn start(
        dense_poly: &VirtualPolynomial<F>,
        sparse_terms: &[SparseSupportProduct<F>],
    ) -> (r: Result<Self, PolyIOPErrors>)
        requires
            dense_poly.wf(),
            forall|k: int| 0 <= k < sparse_terms@.len() ==> (#[trigger] sparse_terms@[k]).wf(),
        ensures
            r is Ok <==> dense_poly.aux_info.num_variables > 0 && all_in(
                sparse_terms@,
                dense_poly.aux_info.num_variables as nat,
            ),
            r matches Err(e) ==> if dense_poly.aux_info.num_variables == 0 {
                e.is_invalid_parameters("Attempt to prove a constant."@)
            } else {
                is_mismatch_error(e, sparse_terms@, dense_poly.aux_info.num_variables as nat)
            },
            r matches Ok(prover) ==> {
                &&& prover.wf()
                &&& prover.poly() == *dense_poly
                &&& prover.products() == sparse_terms@
                &&& prover.messages() == Seq::<IOPProverMessage<F>>::empty()
                &&& prover.challenges() == Seq::<F>::empty()
            },
    {
        let ghost p = F::modulus();
        let n = dense_poly.aux_info.num_variables;
        if n == 0 {
            return Err(
                PolyIOPErrors::InvalidParameters("Attempt to prove a constant.".to_string()),
            );
        }
        let mut k: usize = 0;
        while k < sparse_terms.len()
            invariant
                0 <= k <= sparse_terms@.len(),
                n == dense_poly.aux_info.num_variables,
                n > 0,
                forall|i: int| 0 <= i < k ==> (#[trigger] sparse_terms@[i]).vars() == n,
            decreases sparse_terms.len() - k,
        {
            if sparse_terms[k].num_vars() != n {
                assert(sparse_terms@[k as int].vars() != n && all_in(
                    sparse_terms@.take(k as int),
                    n as nat,
                ));
                return Err(
                    PolyIOPErrors::InvalidParameters(
                        mismatch_message(sparse_terms[k].num_vars(), n),
                    ),
                );
            }
            k = k + 1;
        }
        let max_degree = if dense_poly.aux_info.max_degree >= 2 {
            dense_poly.aux_info.max_degree
        } else {
            2
        };
        let aux_info = VPAuxInfo { max_degree, num_variables: n };
        let dense_state = match IOPProverState::prover_init(dense_poly) {
            Ok(state) => state,
            Err(e) => {
                return Err(e);
            },
        };
        let ghost chs = vals(dense_state.challenges@);
        proof {
            dense_state.poly.lemma_same(*dense_poly, n as nat);
            assert(chs =~= Seq::<int>::empty());
            lemma_fix_all_empty(dense_poly.tables());
            lemma_eqm_tables_same(p, dense_poly.tables());
        }
        let mut sparse_states: Vec<SparseSupportProduct<F>> = Vec::with_capacity(
            sparse_terms.len(),
        );
        let mut k: usize = 0;
        while k < sparse_terms.len()
            invariant
                0 <= k <= sparse_terms@.len(),
                p == F::modulus(),
                chs == Seq::<int>::empty(),
                forall|i: int|
                    0 <= i < sparse_terms@.len() ==> (#[trigger] sparse_terms@[i]).vars() == n
                        && sparse_terms@[i].wf(),
                sparse_states@.len() == k,
                forall|i: int|
                    0 <= i < k ==> follows(
                        #[trigger] sparse_states@[i],
                        sparse_terms@[i],
                        chs,
                        n as nat,
                    ),
            decreases sparse_terms.len() - k,
        {
            proof {
                lemma_fix_all_empty(sparse_terms@[k as int].tables());
                lemma_eqm_tables_same(p, sparse_terms@[k as int].tables());
            }
            sparse_states.push(sparse_terms[k].copy());
            k = k + 1;
        }
        Ok(
            MixedProver {
                aux_info,
                dense_state,
                sparse_states,
                proofs: Vec::new(),
                polynomial: Ghost(*dense_poly),
                sparse: Ghost(sparse_terms@),
            },
        )
    }

    /// The number of variables and the degree of the round polynomials.
    pub fn aux_info(&self) -> (r: VPAuxInfo)
        requires
            self.wf(),
        ensures
            r.num_variables == self.poly().aux_info.num_variables,
            r.max_degree == mixed_degree(self.poly().aux_info.max_degree as int),
    {
        self.aux_info
    }

    /// Takes the verifier's challenge and answers with the message of the next
    /// round. There is no challenge before the first message.
    pub fn next_message(&mut self, challenge: &Option<F>) -> (r: Result<
        IOPProverMessage<F>,
        PolyIOPErrors,
    >)
        requires
            old(self).wf(),
            old(self).poly().aux_info.num_variables <= usize::BITS,
        ensures
            final(self).wf(),
            final(self).poly() == old(self).poly(),
            final(self).products() == old(self).products(),
            r is Ok <==> old(self).messages().len() < old(self).poly().aux_info.num_variables && (
            challenge is Some <==> old(self).messages().len() > 0),
            r matches Err(e) ==> {
                &&& final(self).messages() == old(self).messages()
                &&& final(self).challenges() == old(self).challenges()
                &&& if old(self).messages().len() >= old(self).poly().aux_info.num_variables {
                    e.is_invalid_prover("Prover is not active"@)
                } else if challenge is Some {
                    e.is_invalid_prover("first round should be prover first."@)
                } else {
                    e.is_invalid_prover("verifier message is empty"@)
                }
            },
            r matches Ok(message) ==> {
                &&& final(self).challenges() == match *challenge {
                    Some(c) => old(self).challenges().push(c),
                    None => old(self).challenges(),
                }
                &&& final(self).messages().len() == old(self).messages().len() + 1
                &&& final(self).messages().drop_last() == old(self).messages()
                &&& final(self).messages().last().evaluations@ == message.evaluations@
                &&& is_mixed_message(
                    message,
                    old(self).poly(),
                    old(self).products(),
                    vals(final(self).challenges()),
                )
                &&& holds_mixed_round(
                    message,
                    old(self).poly(),
                    old(self).products(),
                    vals(final(self).challenges()),
                )
            },
    {
        let ghost p = F::modulus();
        let ghost poly = self.polynomial@;
        let ghost sparse = self.sparse@;
        let ghost n = poly.aux_info.num_variables as nat;
        let ghost past = vals(self.dense_state.challenges@);
        let ghost before = self.dense_state.poly.tables();
        proof {
            F::lemma_modulus();
            F::lemma_val();
        }
        let message = match self.dense_state.prove_round_and_update_state(challenge) {
            Ok(message) => message,
            Err(e) => {
                return Err(e);
            },
        };
        let ghost dense = message.evaluations@;
        let ghost chs = vals(self.dense_state.challenges@);
        let ghost round = chs.len() as int;
        let ghost half = pow2((n - 1 - round) as nat) as int;
        match challenge {
            Some(c) => {
                let ghost states = self.sparse_states@;
                assert forall|k: int| 0 <= k < states.len() implies (#[trigger] states[k]).wf()
                    && states[k].vars() > 0 by {
                    assert(follows(states[k], sparse[k], past, n));
                }
                bind_products(&mut self.sparse_states, *c);
                proof {
                    assert(chs =~= past.push(c.val()));
                    lemma_bound_tables(p, before, poly.tables(), past, c.val());
                    assert forall|k: int| 0 <= k < sparse.len() implies follows(
                        #[trigger] self.sparse_states@[k],
                        sparse[k],
                        chs,
                        n,
                    ) by {
                        assert(follows(states[k], sparse[k], past, n));
                        lemma_bound_tables(
                            p,
                            states[k].tables(),
                            sparse[k].tables(),
                            past,
                            c.val(),
                        );
                    }
                }
            },
            None => {},
        }
        assert forall|k: int| 0 <= k < sparse.len() implies follows(
            #[trigger] self.sparse_states@[k],
            sparse[k],
            chs,
            n,
        ) by {}
        let extended = extended_message(message.evaluations);
        let ghost whole = extended@;
        proof {
            assert(dense.len() == poly.aux_info.max_degree + 1);
            assert(whole.len() == mixed_degree(poly.aux_info.max_degree as int) + 1);
        }
        let evaluations = add_shares(
            extended,
            &self.sparse_states,
            self.aux_info.max_degree,
        );
        let message = IOPProverMessage { evaluations };
        proof {
            let cur = self.dense_state.poly.tables();
            let (ts, terms) = (poly.tables(), poly.terms());
            let states = self.sparse_states@;
            let degree = poly.aux_info.max_degree as int;
            self.dense_state.poly.lemma_shape((n - round) as nat);
            lemma_pow2_halves((n - round) as nat);
            assert forall|j: int| 0 <= j < message.evaluations@.len() implies (
            #[trigger] message.evaluations@[j]).val() == (round_value(
                fix_all(ts, chs),
                terms,
                half,
                j,
            ) + sparse_shares(sparse, chs, half, j, sparse.len() as int)) % p by {
                let f = |k: int| states[k].round_value(j);
                let g = |k: int| sparse_share(sparse[k], chs, half, j);
                assert forall|k: int| 0 <= k < sparse.len() implies eqm(
                    p,
                    #[trigger] f(k),
                    g(k),
                ) by {
                    assert(follows(states[k], sparse[k], chs, n));
                    lemma_follower_share(states[k], sparse[k], chs, n, j);
                }
                lemma_sum_eqm(p, f, g, 0, sparse.len() as int);
                assert forall|i: int| 0 <= i <= degree implies eqm(
                    p,
                    (#[trigger] dense[i]).val(),
                    round_value(fix_all(ts, chs), terms, half, i),
                ) by {
                    lemma_round_value_eqm(p, cur, fix_all(ts, chs), terms, half, i);
                    lemma_eqm_residue(p, round_value(cur, terms, half, i));
                }
                lemma_extended_message(poly, chs, dense, whole, j);
                lemma_eqm_add(
                    p,
                    whole[j].val(),
                    round_value(fix_all(ts, chs), terms, half, j),
                    sum(f, 0, sparse.len() as int),
                    sum(g, 0, sparse.len() as int),
                );
            }
            assert forall|i: int| 0 <= i < self.proofs@.len() implies is_mixed_message(
                #[trigger] self.proofs@[i],
                poly,
                sparse,
                chs.take(i),
            ) by {
                assert(chs.take(i) =~= past.take(i));
            }
            assert(chs.take(round) =~= chs);
            lemma_mixed_message_holds_round(message, poly, sparse, chs);
        }
        self.proofs.push(message.copy());
        assert(self.proofs@.drop_last() =~= old(self).proofs@);
        Ok(message)
    }

    /// Ends the protocol with the challenge that follows the last message.
    pub fn finish(self, last_challenge: F) -> (r: IOPProof<F>)
        requires
            self.wf(),
            self.messages().len() == self.poly().aux_info.num_variables,
        ensures
            r.point@ == self.challenges().push(last_challenge),
            r.proofs@ == self.messages(),
            is_mixed_proof(r, self.poly(), self.products()),
            shows_mixed_sum(r, self.poly(), self.products()),
    {
        let ghost chs = vals(self.dense_state.challenges@);
        let mut point = self.dense_state.challenges;
        point.push(last_challenge);
        proof {
            assert forall|i: int| 0 <= i < self.proofs@.len() implies is_mixed_message(
                #[trigger] self.proofs@[i],
                self.polynomial@,
                self.sparse@,
                vals(point@).take(i),
            ) by {
                assert(vals(point@).take(i) =~= chs.take(i));
            }
        }
        let proof = IOPProof { point, proofs: self.proofs };
        proof {
            lemma_mixed_proof_convinces(proof, self.polynomial@, self.sparse@);
        }
        proof
    }
}

/// The outcome of proving under the given challenges.
pub open spec fn is_mixed_outcome<F: PrimeField>(
    poly: VirtualPolynomial<F>,
    sparse: Seq<SparseSupportProduct<F>>,
    challenges: Seq<F>,
    r: Result<IOPProof<F>, PolyIOPErrors>,
) -> bool {
    match r {
        Ok(proof) => {
            &&& poly.aux_info.num_variables > 0
            &&& all_in(sparse, poly.aux_info.num_variables as nat)
            &&& proof.point@ == challenges
            &&& is_mixed_proof(proof, poly, sparse)
        },
        Err(e) => if poly.aux_info.num_variables == 0 {
            e.is_invalid_parameters("Attempt to prove a constant."@)
        } else {
            is_mismatch_error(e, sparse, poly.aux_info.num_variables as nat)
        },
    }
}

/// The proof that the given challenges lead to, about the sum over the
/// hypercube of a virtual polynomial and of products of sparse polynomials.
pub fn prove_mixed_sparse_products<F: PrimeField>(
    dense_poly: &VirtualPolynomial<F>,
    sparse_terms: &[SparseSupportProduct<F>],
    challenges: &[F],
) -> (r: Result<IOPProof<F>, PolyIOPErrors>)
    requires
        dense_poly.wf(),
        forall|k: int| 0 <= k < sparse_terms@.len() ==> (#[trigger] sparse_terms@[k]).wf(),
        all_in(sparse_terms@, dense_poly.aux_info.num_variables as nat)
            ==> dense_poly.aux_info.num_variables <= usize::BITS,
        challenges@.len() == dense_poly.aux_info.num_variables,
    ensures
        r is Ok <==> dense_poly.aux_info.num_variables > 0 && all_in(
            sparse_terms@,
            dense_poly.aux_info.num_variables as nat,
        ),
        r matches Err(e) ==> if dense_poly.aux_info.num_variables == 0 {
            e.is_invalid_parameters("Attempt to prove a constant."@)
        } else {
            is_mismatch_error(e, sparse_terms@, dense_poly.aux_info.num_variables as nat)
        },
        r matches Ok(proof) ==> {
            &&& proof.point@ == challenges@
            &&& is_mixed_proof(proof, *dense_poly, sparse_terms@)
            &&& shows_mixed_sum(proof, *dense_poly, sparse_terms@)
        },
        is_mixed_outcome(*dense_poly, sparse_terms@, challenges@, r),
{
    let mut prover = match MixedProver::start(dense_poly, sparse_terms) {
        Ok(prover) => prover,
        Err(e) => {
            return Err(e);
        },
    };
    let n = challenges.len();
    let mut i: usize = 0;
    assert(challenges@.take(0) =~= Seq::<F>::empty());
    while i < n
        invariant
            0 <= i <= n,
            n == challenges@.len(),
            0 < n <= usize::BITS,
            n == dense_poly.aux_info.num_variables,
            all_in(sparse_terms@, n as nat),
            prover.wf(),
            prover.poly() == *dense_poly,
            prover.products() == sparse_terms@,
            prover.messages().len() == i,
            prover.challenges() == challenges@.take(if i > 0 {
                i - 1
            } else {
                0
            }),
        decreases n - i,
    {
        let challenge = if i > 0 {
            Some(challenges[i - 1])
        } else {
            None
        };
        match prover.next_message(&challenge) {
            Ok(_) => {},
            Err(e) => {
                return Err(e);
            },
        }
        proof {
            if i > 0 {
                assert(challenges@.take(i - 1).push(challenges@[i - 1]) =~= challenges@.take(
                    i as int,
                ));
            }
        }
        i = i + 1;
    }
    assert(challenges@.take(n - 1).push(challenges@[n - 1]) =~= challenges@);
    Ok(prover.finish(challenges[n - 1]))
}

} // verus!
