//! What ties the messages of a sum-check proof together, and what a proof with
//! sparse products has in common with one without.

use crate::arithmetic::virtual_polynomial::VirtualPolynomial;
use crate::field::{vals, PrimeField};
use crate::math::boolean::bits;
use crate::math::interpolation::{
    degree_below, lemma_degree_add, lemma_degree_monotone, lemma_degree_scale, lemma_degree_zero,
    lemma_polynomial_unique,
};
use crate::math::modular::{eqm, eqm_seq, lemma_eqm_add, lemma_eqm_residue};
use crate::math::multilinear::{lemma_fix_len, lemma_pow2_halves};
use crate::math::sums::{
    counting, lemma_product_ext, lemma_sum_add, lemma_sum_ext, lemma_sum_pairs, lemma_sum_shift,
    lemma_sum_split, sum,
};
use crate::math::terms::{
    all_sized, cube_sum, cube_sum_below, factors_below, fix_all, fold_all, lemma_fix_all_empty,
    lemma_fix_all_push, lemma_product_sum_degree, lemma_round_sums, lemma_round_value_eqm,
    product_at, product_sum, round_value, terms_value, Term,
};
use crate::poly_iop::structs::{
    is_message, is_proof, is_round, same_proof, IOPProof, IOPProverMessage, IOPProverState,
};
use crate::poly_iop::sum_check::mixed_prover::{
    is_mixed_message, is_mixed_proof, mixed_degree, sparse_share, sparse_shares,
};
use crate::poly_iop::sum_check::sparse_product::SparseSupportProduct;
use vstd::arithmetic::power2::{lemma2_to64, pow2};
use vstd::prelude::*;

verus! {

/// The polynomial of the round that follows `challenges`, at `x`.
pub open spec fn round_after(
    ts: Seq<Seq<int>>,
    terms: Seq<Term>,
    n: nat,
    challenges: Seq<int>,
    x: int,
) -> int {
    round_value(
        fix_all(ts, challenges),
        terms,
        pow2((n - 1 - challenges.len()) as nat) as int,
        x,
    )
}

/// Every term has at most `d` factors.
pub open spec fn factors_at_most(terms: Seq<Term>, d: int) -> bool {
    forall|k: int| 0 <= k < terms.len() ==> (#[trigger] terms[k]).factors.len() <= d
}

proof fn lemma_fixed_sizes(ts: Seq<Seq<int>>, n: nat, challenges: Seq<int>)
    requires
        all_sized(ts, pow2(n) as int),
        challenges.len() <= n,
    ensures
        all_sized(fix_all(ts, challenges), pow2((n - challenges.len()) as nat) as int),
{
    let us = fix_all(ts, challenges);
    assert forall|k: int| 0 <= k < us.len() implies (#[trigger] us[k]).len() == pow2(
        (n - challenges.len()) as nat,
    ) by {
        assert(ts[k].len() == pow2(n));
        lemma_fix_len(ts[k], challenges, n);
    }
}

/// The two ends of a message add up to the sum over the hypercube of the
/// polynomial with its first variables fixed.
proof fn lemma_message_ends<F: PrimeField>(
    message: IOPProverMessage<F>,
    ts: Seq<Seq<int>>,
    terms: Seq<Term>,
    n: nat,
    max_degree: int,
    challenges: Seq<int>,
)
    requires
        challenges.len() < n,
        max_degree >= 1,
        all_sized(ts, pow2(n) as int),
        factors_below(terms, ts.len() as int),
        is_message(message, ts, terms, n, max_degree, challenges),
    ensures
        eqm(
            F::modulus(),
            message.evaluations@[0].val() + message.evaluations@[1].val(),
            cube_sum(
                fix_all(ts, challenges),
                terms,
                pow2((n - challenges.len()) as nat) as int,
            ),
        ),
{
    F::lemma_modulus();
    let p = F::modulus();
    let us = fix_all(ts, challenges);
    let half = pow2((n - 1 - challenges.len()) as nat) as int;
    lemma_fixed_sizes(ts, n, challenges);
    lemma_pow2_halves((n - challenges.len()) as nat);
    lemma_round_sums(us, terms, half);
    let (a, b) = (round_value(us, terms, half, 0), round_value(us, terms, half, 1));
    assert(message.evaluations@[0].val() == a % p);
    assert(message.evaluations@[1].val() == b % p);
    lemma_eqm_residue(p, a);
    lemma_eqm_residue(p, b);
    lemma_eqm_add(p, a % p, a, b % p, b);
}

/// The first message adds up, at 0 and 1, to the sum that the proof is about.
pub proof fn lemma_first_message_sum<F: PrimeField>(
    proof: IOPProof<F>,
    ts: Seq<Seq<int>>,
    terms: Seq<Term>,
    n: nat,
    max_degree: int,
)
    requires
        n > 0,
        max_degree >= 1,
        all_sized(ts, pow2(n) as int),
        factors_below(terms, ts.len() as int),
        is_proof(proof, ts, terms, n, max_degree),
    ensures
        eqm(
            F::modulus(),
            proof.proofs@[0].evaluations@[0].val() + proof.proofs@[0].evaluations@[1].val(),
            cube_sum(ts, terms, pow2(n) as int),
        ),
{
    let none = vals(proof.point@).take(0);
    assert(none =~= Seq::<int>::empty());
    assert(is_message(proof.proofs@[0], ts, terms, n, max_degree, none));
    lemma_message_ends(proof.proofs@[0], ts, terms, n, max_degree, none);
    lemma_fix_all_empty(ts);
}

/// Each later message adds up, at 0 and 1, to the value of the polynomial of
/// the round before it at that round's challenge.
pub proof fn lemma_next_message_sum<F: PrimeField>(
    proof: IOPProof<F>,
    ts: Seq<Seq<int>>,
    terms: Seq<Term>,
    n: nat,
    max_degree: int,
    i: int,
)
    requires
        0 <= i,
        i + 1 < n,
        max_degree >= 1,
        all_sized(ts, pow2(n) as int),
        factors_below(terms, ts.len() as int),
        is_proof(proof, ts, terms, n, max_degree),
    ensures
        eqm(
            F::modulus(),
            proof.proofs@[i + 1].evaluations@[0].val() + proof.proofs@[i + 1].evaluations@[1].val(),
            round_after(ts, terms, n, vals(proof.point@).take(i), proof.point@[i].val()),
        ),
{
    let point = vals(proof.point@);
    let next = point.take(i + 1);
    assert(next =~= point.take(i).push(point[i]));
    assert(is_message(proof.proofs@[i + 1], ts, terms, n, max_degree, next));
    lemma_message_ends(proof.proofs@[i + 1], ts, terms, n, max_degree, next);
    lemma_fix_all_push(ts, point.take(i), point[i]);
}

/// The polynomial of the last round takes, at the last challenge, the value of
/// the sum of the terms at the point of all challenges.
pub proof fn lemma_last_round_value(
    ts: Seq<Seq<int>>,
    terms: Seq<Term>,
    n: nat,
    point: Seq<int>,
)
    requires
        n > 0,
        point.len() == n,
    ensures
        round_after(ts, terms, n, point.drop_last(), point.last()) == terms_value(
            ts,
            terms,
            point,
        ),
{
    assert(point =~= point.drop_last().push(point.last()));
    lemma_fix_all_push(ts, point.drop_last(), point.last());
    lemma2_to64();
}

/// A round's polynomial has at most the degree that its message can hold: its
/// values at `0, ..., max_degree` determine it.
pub proof fn lemma_round_degree(
    ts: Seq<Seq<int>>,
    terms: Seq<Term>,
    n: nat,
    max_degree: int,
    challenges: Seq<int>,
    h: spec_fn(int) -> int,
)
    requires
        challenges.len() < n,
        max_degree >= 0,
        all_sized(ts, pow2(n) as int),
        factors_below(terms, ts.len() as int),
        factors_at_most(terms, max_degree),
        forall|x: int| #[trigger] h(x) == round_after(ts, terms, n, challenges, x),
    ensures
        degree_below(h, (max_degree + 1) as nat),
{
    lemma_fixed_sizes(ts, n, challenges);
    lemma_pow2_halves((n - challenges.len()) as nat);
    lemma_terms_degree(
        fix_all(ts, challenges),
        terms,
        pow2((n - 1 - challenges.len()) as nat) as int,
        max_degree,
        terms.len() as int,
        h,
    );
}

proof fn lemma_terms_degree(
    us: Seq<Seq<int>>,
    terms: Seq<Term>,
    half: int,
    max_degree: int,
    m: int,
    h: spec_fn(int) -> int,
)
    requires
        0 <= m <= terms.len(),
        half >= 0,
        max_degree >= 0,
        all_sized(us, 2 * half),
        factors_below(terms, us.len() as int),
        factors_at_most(terms, max_degree),
        forall|x: int| #[trigger] h(x) == cube_sum_below(fold_all(us, x), terms, half, m),
    ensures
        degree_below(h, (max_degree + 1) as nat),
    decreases m,
{
    let d = (max_degree + 1) as nat;
    if m == 0 {
        lemma_degree_zero(h, d);
    } else {
        let g = |x: int| cube_sum_below(fold_all(us, x), terms, half, m - 1);
        lemma_terms_degree(us, terms, half, max_degree, m - 1, g);
        let (c, factors) = (terms[m - 1].coeff, terms[m - 1].factors);
        let e = |x: int| product_sum(fold_all(us, x), factors, half);
        assert forall|j: int| 0 <= j < factors.len() implies 0 <= #[trigger] factors[j]
            < us.len() by {
            assert(0 <= terms[m - 1].factors[j] < us.len());
        }
        lemma_product_sum_degree(us, factors, half, e);
        lemma_degree_monotone(e, factors.len() + 1, d);
        let f = |x: int| c * e(x);
        lemma_degree_scale(c, e, f, d);
        lemma_degree_add(g, f, h, d);
    }
}

/// `q` is a polynomial of degree at most `degree` with the message's values at
/// `0, ..., degree`.
pub open spec fn reads_as<F: PrimeField>(
    message: IOPProverMessage<F>,
    q: spec_fn(int) -> int,
    degree: int,
) -> bool {
    &&& message.evaluations@.len() == degree + 1
    &&& degree_below(q, (degree + 1) as nat)
    &&& forall|j: int|
        0 <= j <= degree ==> eqm(F::modulus(), #[trigger] q(j), message.evaluations@[j].val())
}

/// The sum of a message's values at 0 and 1.
pub open spec fn ends<F: PrimeField>(message: IOPProverMessage<F>) -> int {
    message.evaluations@[0].val() + message.evaluations@[1].val()
}

/// What a verifier checks of a sum-check proof: it claims the sum `sum`, each
/// message goes on where the polynomial of the one before it leads, and the last
/// one leads to `value`.
pub open spec fn convinces<F: PrimeField>(
    proof: IOPProof<F>,
    sum: int,
    degree: int,
    n: nat,
    value: int,
) -> bool {
    &&& proof.point@.len() == n
    &&& proof.proofs@.len() == n
    &&& forall|i: int|
        0 <= i < n ==> (#[trigger] proof.proofs@[i]).evaluations@.len() == degree + 1
    &&& eqm(F::modulus(), ends(proof.proofs@[0]), sum)
    &&& forall|i: int, q: spec_fn(int) -> int|
        0 <= i < n && #[trigger] reads_as(proof.proofs@[i], q, degree) ==> eqm(
            F::modulus(),
            q(proof.point@[i].val()),
            if i + 1 < n {
                ends(proof.proofs@[i + 1])
            } else {
                value
            },
        )
}

/// Any polynomial that reads a round's message is congruent to the round's
/// polynomial.
proof fn lemma_reading<F: PrimeField>(
    message: IOPProverMessage<F>,
    us: Seq<Seq<int>>,
    terms: Seq<Term>,
    half: int,
    degree: int,
    q: spec_fn(int) -> int,
    x: int,
)
    requires
        half >= 0,
        degree >= 0,
        all_sized(us, 2 * half),
        factors_below(terms, us.len() as int),
        factors_at_most(terms, degree),
        reads_as(message, q, degree),
        forall|j: int|
            0 <= j <= degree ==> (#[trigger] message.evaluations@[j]).val() == round_value(
                us,
                terms,
                half,
                j,
            ) % F::modulus(),
    ensures
        eqm(F::modulus(), q(x), round_value(us, terms, half, x)),
{
    F::lemma_modulus();
    let p = F::modulus();
    let h = |y: int| round_value(us, terms, half, y);
    lemma_terms_degree(us, terms, half, degree, terms.len() as int, h);
    assert forall|j: int| 0 <= j < degree + 1 implies eqm(p, #[trigger] q(j), h(j)) by {
        assert(message.evaluations@[j].val() == h(j) % p);
        lemma_eqm_residue(p, h(j));
    }
    lemma_polynomial_unique(p, (degree + 1) as nat, q, h, x);
}

/// A proof about a sum of terms convinces: of their sum over the hypercube, with
/// their value at the point of all challenges at its end.
pub proof fn lemma_proof_convinces<F: PrimeField>(
    proof: IOPProof<F>,
    ts: Seq<Seq<int>>,
    terms: Seq<Term>,
    n: nat,
    max_degree: int,
)
    requires
        n > 0,
        max_degree >= 1,
        all_sized(ts, pow2(n) as int),
        factors_below(terms, ts.len() as int),
        factors_at_most(terms, max_degree),
        is_proof(proof, ts, terms, n, max_degree),
    ensures
        convinces(
            proof,
            cube_sum(ts, terms, pow2(n) as int),
            max_degree,
            n,
            terms_value(ts, terms, vals(proof.point@)),
        ),
{
    let p = F::modulus();
    let point = vals(proof.point@);
    lemma_first_message_sum(proof, ts, terms, n, max_degree);
    assert forall|i: int| 0 <= i < n implies (#[trigger] proof.proofs@[i]).evaluations@.len()
        == max_degree + 1 by {
        assert(is_message(proof.proofs@[i], ts, terms, n, max_degree, point.take(i)));
    }
    assert forall|i: int, q: spec_fn(int) -> int|
        0 <= i < n && #[trigger] reads_as(proof.proofs@[i], q, max_degree) implies eqm(
        p,
        q(proof.point@[i].val()),
        if i + 1 < n {
            ends(proof.proofs@[i + 1])
        } else {
            terms_value(ts, terms, point)
        },
    ) by {
        let challenges = point.take(i);
        let half = pow2((n - 1 - i) as nat) as int;
        assert(is_message(proof.proofs@[i], ts, terms, n, max_degree, challenges));
        lemma_fixed_sizes(ts, n, challenges);
        lemma_pow2_halves((n - i) as nat);
        lemma_reading(
            proof.proofs@[i],
            fix_all(ts, challenges),
            terms,
            half,
            max_degree,
            q,
            point[i],
        );
        if i + 1 < n {
            lemma_next_message_sum(proof, ts, terms, n, max_degree, i);
        } else {
            lemma_last_round_value(ts, terms, n, point);
            assert(point.drop_last() =~= challenges);
        }
    }
}

/// The first message of a prover adds up, at 0 and 1, to the sum of its
/// polynomial over the hypercube.
pub proof fn lemma_first_round<F: PrimeField>(
    polynomial: VirtualPolynomial<F>,
    before: IOPProverState<F>,
    after: IOPProverState<F>,
    message: IOPProverMessage<F>,
)
    requires
        polynomial.wf(),
        polynomial.aux_info.num_variables > 0,
        polynomial.aux_info.max_degree >= 1,
        before.wf(),
        before.round == 0,
        before.poly.same(polynomial),
        is_round(before, after, None, message),
    ensures
        eqm(
            F::modulus(),
            ends(message),
            cube_sum(
                polynomial.tables(),
                polynomial.terms(),
                pow2(polynomial.aux_info.num_variables as nat) as int,
            ),
        ),
{
    F::lemma_modulus();
    let p = F::modulus();
    let n = polynomial.aux_info.num_variables as nat;
    before.poly.lemma_same(polynomial, n);
    polynomial.lemma_shape(n);
    lemma_pow2_halves(n);
    let (ts, terms) = (polynomial.tables(), polynomial.terms());
    let half = pow2((n - 1) as nat) as int;
    lemma_round_sums(ts, terms, half);
    let (a, b) = (round_value(ts, terms, half, 0), round_value(ts, terms, half, 1));
    assert(message.evaluations@[0].val() == a % p);
    assert(message.evaluations@[1].val() == b % p);
    lemma_eqm_residue(p, a);
    lemma_eqm_residue(p, b);
    lemma_eqm_add(p, a % p, a, b % p, b);
}

/// Each later message of a prover adds up, at 0 and 1, to the value at the
/// challenge of the polynomial that the message before it holds.
pub proof fn lemma_consecutive_rounds<F: PrimeField>(
    first: IOPProverState<F>,
    second: IOPProverState<F>,
    third: IOPProverState<F>,
    challenge: Option<F>,
    message: IOPProverMessage<F>,
    next_challenge: F,
    next_message: IOPProverMessage<F>,
    q: spec_fn(int) -> int,
)
    requires
        first.wf(),
        first.poly.aux_info.max_degree >= 1,
        is_round(first, second, challenge, message),
        is_round(second, third, Some(next_challenge), next_message),
        reads_as(message, q, first.poly.aux_info.max_degree as int),
    ensures
        eqm(F::modulus(), ends(next_message), q(next_challenge.val())),
{
    F::lemma_modulus();
    let p = F::modulus();
    let n = first.poly.aux_info.num_variables as nat;
    let d = first.poly.aux_info.max_degree as int;
    let r = next_challenge.val();
    let (us, vs, terms) = (second.poly.tables(), third.poly.tables(), first.poly.terms());
    let vars = (n - second.fixed()) as nat;
    let half = pow2((vars - 1) as nat) as int;
    let quarter = pow2((vars - 2) as nat) as int;
    second.poly.lemma_shape(vars);
    third.poly.lemma_shape((vars - 1) as nat);
    lemma_pow2_halves(vars);
    lemma_pow2_halves((vars - 1) as nat);
    assert(factors_at_most(terms, d)) by {
        assert forall|k: int| 0 <= k < terms.len() implies (#[trigger] terms[k]).factors.len()
            <= d by {
            assert(first.poly.products@[k].1@.len() <= d);
        }
    }
    lemma_reading(message, us, terms, half, d, q, r);
    let ws = fold_all(us, r);
    assert forall|k: int| 0 <= k < vs.len() implies eqm_seq(p, #[trigger] vs[k], ws[k]) by {
        assert forall|i: int| 0 <= i < vs[k].len() implies eqm(
            p,
            #[trigger] vs[k][i],
            ws[k][i],
        ) by {
            lemma_eqm_residue(p, ws[k][i]);
        }
    }
    lemma_round_value_eqm(p, vs, ws, terms, quarter, 0);
    lemma_round_value_eqm(p, vs, ws, terms, quarter, 1);
    assert(all_sized(ws, 2 * quarter)) by {
        assert forall|k: int| 0 <= k < ws.len() implies (#[trigger] ws[k]).len() == 2 * quarter by {
            assert(us[k].len() == 2 * half);
        }
    }
    lemma_round_sums(ws, terms, quarter);
    let (a, b) = (round_value(vs, terms, quarter, 0), round_value(vs, terms, quarter, 1));
    assert(next_message.evaluations@[0].val() == a % p);
    assert(next_message.evaluations@[1].val() == b % p);
    lemma_eqm_residue(p, a);
    lemma_eqm_residue(p, b);
    lemma_eqm_add(
        p,
        a % p,
        round_value(ws, terms, quarter, 0),
        b % p,
        round_value(ws, terms, quarter, 1),
    );
}

/// The sum of the terms over the hypercube, with the first variables fixed, is
/// the sum of their values at its vertices.
pub proof fn lemma_sum_of_values(
    ts: Seq<Seq<int>>,
    terms: Seq<Term>,
    n: nat,
    fixed: Seq<int>,
)
    requires
        fixed.len() <= n,
        all_sized(ts, pow2(n) as int),
        factors_below(terms, ts.len() as int),
    ensures
        cube_sum(fix_all(ts, fixed), terms, pow2((n - fixed.len()) as nat) as int) == sum(
            |x: int| terms_value(ts, terms, fixed + bits(x, (n - fixed.len()) as nat)),
            0,
            pow2((n - fixed.len()) as nat) as int,
        ),
    decreases n - fixed.len(),
{
    let vars = (n - fixed.len()) as nat;
    let f = |x: int| terms_value(ts, terms, fixed + bits(x, vars));
    if vars == 0 {
        lemma2_to64();
        assert(fixed + bits(0, 0) =~= fixed);
        assert(sum(f, 0, 1) == sum(f, 0, 0) + f(0));
    } else {
        let rest = (vars - 1) as nat;
        let half = pow2(rest) as int;
        lemma_pow2_halves(vars);
        lemma_fixed_sizes(ts, n, fixed);
        lemma_round_sums(fix_all(ts, fixed), terms, half);
        lemma_fix_all_push(ts, fixed, 0);
        lemma_fix_all_push(ts, fixed, 1);
        lemma_sum_of_values(ts, terms, n, fixed.push(0));
        lemma_sum_of_values(ts, terms, n, fixed.push(1));
        let a = |y: int| terms_value(ts, terms, fixed.push(0) + bits(y, rest));
        let b = |y: int| terms_value(ts, terms, fixed.push(1) + bits(y, rest));
        let pairs = |y: int| f(2 * y) + f(2 * y + 1);
        let both = |y: int| a(y) + b(y);
        assert forall|y: int| 0 <= y < half implies #[trigger] pairs(y) == both(y) by {
            assert((2 * y) % 2 == 0 && (2 * y) / 2 == y);
            assert((2 * y + 1) % 2 == 1 && (2 * y + 1) / 2 == y);
            assert(fixed + bits(2 * y, vars) =~= fixed.push(0) + bits(y, rest));
            assert(fixed + bits(2 * y + 1, vars) =~= fixed.push(1) + bits(y, rest));
        }
        lemma_sum_pairs(f, half);
        lemma_sum_ext(pairs, both, 0, half);
        lemma_sum_add(a, b, 0, half);
    }
}

/// Sums of terms that are congruent at every point have congruent sums over the
/// hypercube, whatever their first variables are fixed to.
pub proof fn lemma_values_determine_sums(
    p: int,
    ts: Seq<Seq<int>>,
    terms: Seq<Term>,
    us: Seq<Seq<int>>,
    others: Seq<Term>,
    n: nat,
    fixed: Seq<int>,
)
    requires
        p > 0,
        fixed.len() <= n,
        all_sized(ts, pow2(n) as int),
        factors_below(terms, ts.len() as int),
        all_sized(us, pow2(n) as int),
        factors_below(others, us.len() as int),
        forall|at: Seq<int>|
            at.len() == n ==> eqm(
                p,
                #[trigger] terms_value(ts, terms, at),
                terms_value(us, others, at),
            ),
    ensures
        eqm(
            p,
            cube_sum(fix_all(ts, fixed), terms, pow2((n - fixed.len()) as nat) as int),
            cube_sum(fix_all(us, fixed), others, pow2((n - fixed.len()) as nat) as int),
        ),
    decreases n - fixed.len(),
{
    if fixed.len() == n {
        lemma2_to64();
        assert(eqm(p, terms_value(ts, terms, fixed), terms_value(us, others, fixed)));
    } else {
        let vars = (n - fixed.len()) as nat;
        let half = pow2((vars - 1) as nat) as int;
        lemma_pow2_halves(vars);
        lemma_fixed_sizes(ts, n, fixed);
        lemma_fixed_sizes(us, n, fixed);
        let (a, b) = (fix_all(ts, fixed), fix_all(us, fixed));
        lemma_round_sums(a, terms, half);
        lemma_round_sums(b, others, half);
        lemma_fix_all_push(ts, fixed, 0);
        lemma_fix_all_push(us, fixed, 0);
        lemma_fix_all_push(ts, fixed, 1);
        lemma_fix_all_push(us, fixed, 1);
        lemma_values_determine_sums(p, ts, terms, us, others, n, fixed.push(0));
        lemma_values_determine_sums(p, ts, terms, us, others, n, fixed.push(1));
        lemma_eqm_add(
            p,
            round_value(a, terms, half, 0),
            round_value(b, others, half, 0),
            round_value(a, terms, half, 1),
            round_value(b, others, half, 1),
        );
    }
}

/// Messages about sums of terms that are congruent at every point hold the same
/// values, after the same challenges.
pub proof fn lemma_values_determine_message<F: PrimeField>(
    message: IOPProverMessage<F>,
    ts: Seq<Seq<int>>,
    terms: Seq<Term>,
    other: IOPProverMessage<F>,
    us: Seq<Seq<int>>,
    others: Seq<Term>,
    n: nat,
    max_degree: int,
    challenges: Seq<int>,
)
    requires
        challenges.len() < n,
        all_sized(ts, pow2(n) as int),
        factors_below(terms, ts.len() as int),
        all_sized(us, pow2(n) as int),
        factors_below(others, us.len() as int),
        is_message(message, ts, terms, n, max_degree, challenges),
        is_message(other, us, others, n, max_degree, challenges),
        forall|at: Seq<int>|
            at.len() == n ==> eqm(
                F::modulus(),
                #[trigger] terms_value(ts, terms, at),
                terms_value(us, others, at),
            ),
    ensures
        vals(message.evaluations@) == vals(other.evaluations@),
{
    F::lemma_modulus();
    let (x, y) = (vals(message.evaluations@), vals(other.evaluations@));
    assert forall|j: int| 0 <= j < x.len() implies x[j] == y[j] by {
        lemma_fix_all_push(ts, challenges, j);
        lemma_fix_all_push(us, challenges, j);
        lemma_values_determine_sums(
            F::modulus(),
            ts,
            terms,
            us,
            others,
            n,
            challenges.push(j),
        );
        assert(message.evaluations@[j].val() == x[j] && other.evaluations@[j].val() == y[j]);
    }
    assert(x =~= y);
}

/// Two terms with the same coefficient and the same factors.
pub open spec fn same_term(
    ts: Seq<Seq<int>>,
    a: Term,
    us: Seq<Seq<int>>,
    b: Term,
) -> bool {
    &&& a.coeff == b.coeff
    &&& a.factors.len() == b.factors.len()
    &&& forall|i: int|
        0 <= i < a.factors.len() ==> 0 <= #[trigger] a.factors[i] < ts.len() && 0 <= b.factors[i]
            < us.len() && ts[a.factors[i]] == us[b.factors[i]]
}

/// The sparse product as a term over its own two tables.
pub open spec fn sparse_term<F: PrimeField>(s: SparseSupportProduct<F>) -> Term {
    Term { coeff: s.coeff(), factors: counting(2) }
}

/// `whole` is the sum of `poly` and the sparse products.
pub open spec fn is_sum<F: PrimeField>(
    whole: VirtualPolynomial<F>,
    poly: VirtualPolynomial<F>,
    sparse: Seq<SparseSupportProduct<F>>,
) -> bool {
    &&& whole.aux_info.num_variables == poly.aux_info.num_variables
    &&& whole.aux_info.max_degree == mixed_degree(poly.aux_info.max_degree as int)
    &&& whole.terms().len() == poly.terms().len() + sparse.len()
    &&& forall|k: int|
        0 <= k < poly.terms().len() ==> same_term(
            whole.tables(),
            #[trigger] whole.terms()[k],
            poly.tables(),
            poly.terms()[k],
        )
    &&& forall|k: int|
        0 <= k < sparse.len() ==> same_term(
            whole.tables(),
            whole.terms()[poly.terms().len() + k],
            (#[trigger] sparse[k]).tables(),
            sparse_term(sparse[k]),
        )
}

/// Equal factors make equal products.
proof fn lemma_same_term_sum(
    ts: Seq<Seq<int>>,
    a: Term,
    us: Seq<Seq<int>>,
    b: Term,
    challenges: Seq<int>,
    half: int,
    x: int,
)
    requires
        same_term(ts, a, us, b),
    ensures
        product_sum(fold_all(fix_all(ts, challenges), x), a.factors, half) == product_sum(
            fold_all(fix_all(us, challenges), x),
            b.factors,
            half,
        ),
{
    let v = fold_all(fix_all(ts, challenges), x);
    let w = fold_all(fix_all(us, challenges), x);
    let f = |y: int| product_at(v, a.factors, y);
    let g = |y: int| product_at(w, b.factors, y);
    assert forall|y: int| 0 <= y < half implies #[trigger] f(y) == g(y) by {
        let s = |k: int| v[a.factors[k]][y];
        let t = |k: int| w[b.factors[k]][y];
        assert forall|k: int| 0 <= k < a.factors.len() implies #[trigger] s(k) == t(k) by {
            assert(0 <= a.factors[k] < ts.len());
        }
        lemma_product_ext(s, t, 0, a.factors.len() as int);
    }
    lemma_sum_ext(f, g, 0, half);
}

/// A round of the sum of `poly` and the sparse products is the sum of their
/// rounds.
pub proof fn lemma_round_of_sum<F: PrimeField>(
    whole: VirtualPolynomial<F>,
    poly: VirtualPolynomial<F>,
    sparse: Seq<SparseSupportProduct<F>>,
    challenges: Seq<int>,
    half: int,
    x: int,
)
    requires
        is_sum(whole, poly, sparse),
    ensures
        round_value(fix_all(whole.tables(), challenges), whole.terms(), half, x) == round_value(
            fix_all(poly.tables(), challenges),
            poly.terms(),
            half,
            x,
        ) + sparse_shares(sparse, challenges, half, x, sparse.len() as int),
{
    let (ts, us) = (whole.tables(), poly.tables());
    let (terms, small) = (whole.terms(), poly.terms());
    let v = fold_all(fix_all(ts, challenges), x);
    let w = fold_all(fix_all(us, challenges), x);
    let m = small.len() as int;
    let f = |k: int| terms[k].coeff * product_sum(v, terms[k].factors, half);
    let g = |k: int| small[k].coeff * product_sum(w, small[k].factors, half);
    assert forall|k: int| 0 <= k < m implies #[trigger] f(k) == g(k) by {
        assert(same_term(ts, terms[k], us, small[k]));
        lemma_same_term_sum(ts, terms[k], us, small[k], challenges, half, x);
    }
    lemma_sum_ext(f, g, 0, m);
    lemma_sum_split(f, 0, m, terms.len() as int);
    let shifted = |k: int| f(m + k);
    let h = |k: int| sparse_share(sparse[k], challenges, half, x);
    lemma_sum_shift(f, m, sparse.len() as int);
    assert forall|k: int| 0 <= k < sparse.len() implies #[trigger] shifted(k) == h(k) by {
        let s = sparse[k];
        assert(same_term(ts, terms[m + k], s.tables(), sparse_term(s)));
        lemma_same_term_sum(ts, terms[m + k], s.tables(), sparse_term(s), challenges, half, x);
    }
    lemma_sum_ext(shifted, h, 0, sparse.len() as int);
}

/// A message about a virtual polynomial and sparse products holds what a
/// message about their sum holds.
pub proof fn lemma_mixed_evaluation_matches<F: PrimeField>(
    mixed: IOPProof<F>,
    dense: IOPProof<F>,
    whole: VirtualPolynomial<F>,
    poly: VirtualPolynomial<F>,
    sparse: Seq<SparseSupportProduct<F>>,
    i: int,
    j: int,
)
    requires
        poly.wf(),
        is_sum(whole, poly, sparse),
        is_mixed_proof(mixed, poly, sparse),
        is_proof(
            dense,
            whole.tables(),
            whole.terms(),
            whole.aux_info.num_variables as nat,
            whole.aux_info.max_degree as int,
        ),
        vals(mixed.point@) == vals(dense.point@),
        0 <= i < poly.aux_info.num_variables,
        0 <= j <= whole.aux_info.max_degree,
    ensures
        mixed.proofs@[i].evaluations@.len() == dense.proofs@[i].evaluations@.len(),
        mixed.proofs@[i].evaluations@[j].val() == dense.proofs@[i].evaluations@[j].val(),
{
    let challenges = vals(mixed.point@).take(i);
    let n = poly.aux_info.num_variables as nat;
    let half = pow2((n - 1 - i) as nat) as int;
    assert(is_mixed_message(mixed.proofs@[i], poly, sparse, challenges));
    assert(is_message(
        dense.proofs@[i],
        whole.tables(),
        whole.terms(),
        n,
        whole.aux_info.max_degree as int,
        challenges,
    ));
    assert(mixed.proofs@[i].evaluations@[j].val() >= 0) by {
        F::lemma_val();
    }
    assert(dense.proofs@[i].evaluations@[j].val() >= 0) by {
        F::lemma_val();
    }
    lemma_round_of_sum(whole, poly, sparse, challenges, half, j);
}

/// A proof about a virtual polynomial and sparse products is the proof about
/// their sum as one virtual polynomial, under the same challenges.
pub proof fn lemma_mixed_proof_matches<F: PrimeField>(
    mixed: IOPProof<F>,
    dense: IOPProof<F>,
    whole: VirtualPolynomial<F>,
    poly: VirtualPolynomial<F>,
    sparse: Seq<SparseSupportProduct<F>>,
)
    requires
        poly.wf(),
        is_sum(whole, poly, sparse),
        is_mixed_proof(mixed, poly, sparse),
        is_proof(
            dense,
            whole.tables(),
            whole.terms(),
            whole.aux_info.num_variables as nat,
            whole.aux_info.max_degree as int,
        ),
        vals(mixed.point@) == vals(dense.point@),
    ensures
        same_proof(mixed, dense),
{
    assert forall|i: int| 0 <= i < mixed.proofs@.len() implies vals(
        (#[trigger] mixed.proofs@[i]).evaluations@,
    ) == vals(dense.proofs@[i].evaluations@) by {
        let a = vals(mixed.proofs@[i].evaluations@);
        let b = vals(dense.proofs@[i].evaluations@);
        lemma_mixed_evaluation_matches(mixed, dense, whole, poly, sparse, i, 0);
        assert forall|j: int| 0 <= j < a.len() implies a[j] == b[j] by {
            lemma_mixed_evaluation_matches(mixed, dense, whole, poly, sparse, i, j);
        }
        assert(a =~= b);
    }
}

} // verus!
