//! Structured reference strings for the multilinear commitment scheme.

use crate::arithmetic::dense::{
    copy_slice, lemma_power_below_word, lemma_vars_below_word, power_of_two,
};
use crate::bls12_381::draw::{
    draw_g1, draw_g2, draw_scalars, is_g1_draw, is_g2_draw, is_place, is_scalar_draw,
};
use crate::bls12_381::group::{
    are_multiples, g1_batch_mul, g1_multiple, g1_views, g2_batch_mul, g2_multiple, is_g1, G1Affine,
    G2Affine,
};
use crate::bls12_381::scalar::Fr;
use crate::errors::PCSError;
use crate::field::{vals, PrimeField};
use crate::math::boolean::{bits, lemma_bits_len};
use crate::math::modular::{eqm, eqm_seq, lemma_eqm_add, lemma_eqm_mul, lemma_eqm_residue, residues};
use crate::math::multilinear::{eq_at, eq_points, eq_table, lemma_pow2_halves};
use crate::math::sums::{
    lemma_sum_eqm, lemma_sum_ext, lemma_sum_pairs, lemma_sum_scale, product, sum,
};
use crate::pcs::multilinear_kzg::util::lemma_ceil_log2_unique;
use crate::text::{decimal, decimal_text};
use vstd::arithmetic::div_mod::{lemma_mod_twice, lemma_small_mod};
use vstd::arithmetic::power2::{lemma2_to64, lemma_pow2_adds, lemma_pow2_pos, pow2};
use vstd::prelude::*;

verus! {

/// Values on the Boolean hypercube, in one of the two groups.
#[derive(Clone, Debug, PartialEq, Eq)]
pub struct Evaluations<C> {
    pub evals: Vec<C>,
}

/// The universal parameters.
#[derive(Clone, Debug, PartialEq, Eq)]
pub struct MultilinearUniversalParams<G1, G2> {
    pub prover_param: MultilinearProverParam<G1, G2>,
    /// `h` times each of the secrets `t_0, t_1, ...`.
    pub h_mask: Vec<G2>,
}

/// The prover's parameters.
#[derive(Clone, Debug, PartialEq, Eq)]
pub struct MultilinearProverParam<G1, G2> {
    pub num_vars: usize,
    /// `powers_of_g[i]` is `g` times the equality table of the secrets from
    /// `t_i` on; the last is `g` itself.
    pub powers_of_g: Vec<Evaluations<G1>>,
    /// The generator of the first group.
    pub g: G1,
    /// The generator of the second group.
    pub h: G2,
}

/// The verifier's parameters.
#[derive(Clone, Debug, PartialEq, Eq)]
pub struct MultilinearVerifierParam<G1, G2> {
    pub num_vars: usize,
    pub g: G1,
    pub h: G2,
    /// `h` times each of the secrets.
    pub h_mask: Vec<G2>,
}

/// A table, extended by a new first variable: each value times `1 - t` and
/// times `t`.
pub open spec fn extended(prev: Seq<int>, t: int) -> Seq<int> {
    Seq::new(
        2 * prev.len(),
        |x: int|
            prev[x / 2] * (if x % 2 == 0 {
                1 - t
            } else {
                t
            }),
    )
}

/// Extends an equality table by a new first variable.
pub fn extend_eq_suffix_table<F: PrimeField>(prev: &[F], ti: F) -> (r: Vec<F>)
    requires
        2 * prev@.len() <= usize::MAX,
    ensures
        vals(r@) == residues(F::modulus(), extended(vals(prev@), ti.val())),
{
    let ghost p = F::modulus();
    let ghost t = ti.val();
    let ghost whole = extended(vals(prev@), t);
    proof {
        F::lemma_modulus();
        F::lemma_val();
    }
    let mut next: Vec<F> = Vec::with_capacity(2 * prev.len());
    let at_zero = F::one().sub(ti);
    let mut b: usize = 0;
    while b < prev.len()
        invariant
            0 <= b <= prev@.len(),
            p == F::modulus(),
            p > u64::MAX,
            t == ti.val(),
            at_zero.val() == (1 - t) % p,
            whole == extended(vals(prev@), t),
            next@.len() == 2 * b,
            forall|x: int| 0 <= x < 2 * b ==> (#[trigger] next@[x]).val() == whole[x] % p,
        decreases prev.len() - b,
    {
        let value = prev[b];
        next.push(value.mul(at_zero));
        next.push(value.mul(ti));
        proof {
            let v = value.val();
            lemma_eqm_residue(p, 1 - t);
            lemma_eqm_mul(p, v, v, (1 - t) % p, 1 - t);
            assert((2 * b) / 2 == b as int && (2 * b) % 2 == 0);
            assert((2 * b + 1) / 2 == b as int && (2 * b + 1) % 2 == 1);
            assert(whole[2 * b] == v * (1 - t));
            assert(whole[2 * b + 1] == v * t);
        }
        b = b + 1;
    }
    assert(vals(next@) =~= residues(p, whole));
    next
}

/// Extending the equality table of a point, up to congruence, gives that of
/// the point with a new first coordinate.
pub proof fn lemma_extended_eq_table(p: int, prev: Seq<int>, rest: Seq<int>, t: int)
    requires
        p > 0,
        eqm_seq(p, prev, eq_table(rest)),
    ensures
        eqm_seq(p, extended(prev, t), eq_table(seq![t] + rest)),
{
    let point = seq![t] + rest;
    assert(point.drop_first() =~= rest);
    lemma_pow2_halves(point.len());
    let (a, b) = (extended(prev, t), eq_table(point));
    assert forall|x: int| 0 <= x < a.len() implies eqm(p, #[trigger] a[x], b[x]) by {
        let f = if x % 2 == 0 {
            1 - t
        } else {
            t
        };
        let (u, v) = (prev[x / 2], eq_at(rest, x / 2));
        assert(eqm(p, prev[x / 2], eq_table(rest)[x / 2]));
        lemma_eqm_mul(p, u, v, f, f);
        assert(v * f == f * v) by (nonlinear_arith);
    }
}

/// What extending starts from: the equality table of one coordinate.
pub open spec fn first_table(t: int) -> Seq<int> {
    seq![1 - t, t]
}

/// The table after the last coordinate of `t` was extended by those before it,
/// down to the one at place `k`, each time modulo `p`.
pub open spec fn extended_down_to(p: int, t: Seq<int>, k: int) -> Seq<int>
    decreases t.len() - k,
{
    if k >= t.len() - 1 {
        residues(p, first_table(t.last()))
    } else {
        residues(p, extended(extended_down_to(p, t, k + 1), t[k]))
    }
}

/// Extending down to place `k` gives the equality table of the coordinates from
/// there on.
pub proof fn lemma_extended_down_to(p: int, t: Seq<int>, k: int)
    requires
        p > 0,
        0 <= k < t.len(),
    ensures
        extended_down_to(p, t, k).len() == pow2((t.len() - k) as nat),
        extended_down_to(p, t, k) == residues(p, eq_table(t.skip(k))),
    decreases t.len() - k,
{
    let table = extended_down_to(p, t, k);
    let point = t.skip(k);
    if k == t.len() - 1 {
        lemma2_to64();
        assert(point =~= seq![t.last()]);
        assert(point.drop_first() =~= Seq::<int>::empty());
        let eq = eq_table(point);
        assert forall|x: int| 0 <= x < eq.len() implies eq[x] == first_table(t.last())[x] by {
            assert(eq_at(point.drop_first(), x / 2) == 1);
            let y = t.last();
            assert((1 - y) * 1 == 1 - y && y * 1 == y);
        }
        assert(eq =~= first_table(t.last()));
    } else {
        lemma_extended_down_to(p, t, k + 1);
        let rest = t.skip(k + 1);
        let prev = extended_down_to(p, t, k + 1);
        assert forall|x: int| 0 <= x < prev.len() implies eqm(
            p,
            #[trigger] prev[x],
            eq_table(rest)[x],
        ) by {
            lemma_eqm_residue(p, eq_table(rest)[x]);
        }
        assert(point =~= seq![t[k]] + rest);
        lemma_extended_eq_table(p, prev, rest, t[k]);
        let (a, b) = (extended(prev, t[k]), eq_table(point));
        assert forall|x: int| 0 <= x < a.len() implies table[x] == residues(p, b)[x] by {
            assert(eqm(p, a[x], b[x]));
        }
        assert(table =~= residues(p, b));
    }
}

/// The two values that extending makes of one add up to it.
pub proof fn lemma_extended_sums(p: int, prev: Seq<int>, t: int, j: int)
    requires
        p > 0,
        0 <= j < prev.len(),
    ensures
        residues(p, extended(prev, t)).len() == 2 * prev.len(),
        eqm(
            p,
            residues(p, extended(prev, t))[2 * j] + residues(p, extended(prev, t))[2 * j + 1],
            prev[j],
        ),
{
    let a = extended(prev, t);
    let v = prev[j];
    assert((2 * j) % 2 == 0 && (2 * j) / 2 == j);
    assert((2 * j + 1) % 2 == 1 && (2 * j + 1) / 2 == j);
    assert(v * (1 - t) + v * t == v) by (nonlinear_arith);
    lemma_eqm_residue(p, a[2 * j]);
    lemma_eqm_residue(p, a[2 * j + 1]);
    lemma_eqm_add(p, a[2 * j] % p, a[2 * j], a[2 * j + 1] % p, a[2 * j + 1]);
}

/// A value of an equality table is the product over the coordinates of `t[j]`
/// where bit `j` is set, and of `1 - t[j]` where it is not.
pub proof fn lemma_eq_at_product(t: Seq<int>, x: int)
    ensures
        eq_at(t, x) == product(
            |j: int|
                if bits(x, t.len())[j] == 1 {
                    t[j]
                } else {
                    1 - t[j]
                },
            0,
            t.len() as int,
        ),
    decreases t.len(),
{
    let n = t.len() as int;
    let b = bits(x, t.len());
    let f = |j: int|
        if b[j] == 1 {
            t[j]
        } else {
            1 - t[j]
        };
    if n > 0 {
        let rest = t.drop_first();
        let c = bits(x / 2, rest.len());
        let g = |j: int|
            if c[j] == 1 {
                rest[j]
            } else {
                1 - rest[j]
            };
        lemma_bits_len(x / 2, rest.len());
        lemma_eq_at_product(rest, x / 2);
        lemma_product_first(f, g, n);
    }
}

/// The first factor, split off.
proof fn lemma_product_first(
    f: spec_fn(int) -> int,
    g: spec_fn(int) -> int,
    n: int,
)
    requires
        n >= 1,
        forall|j: int| 0 <= j < n - 1 ==> #[trigger] g(j) == f(j + 1),
    ensures
        product(f, 0, n) == f(0) * product(g, 0, n - 1),
    decreases n,
{
    if n == 1 {
        assert(product(f, 0, 1) == product(f, 0, 0) * f(0));
        assert(1 * f(0) == f(0) * 1);
    } else {
        lemma_product_first(f, g, n - 1);
        let (a, b, c) = (f(0), product(g, 0, n - 2), f(n - 1));
        assert(g(n - 2) == f(n - 2 + 1));
        assert(product(f, 0, n) == product(f, 0, n - 1) * c);
        assert(product(g, 0, n - 1) == b * g(n - 2));
        assert((a * b) * c == a * (b * c)) by (nonlinear_arith);
    }
}

/// The equality of a point with zero is its first equality value.
pub proof fn lemma_eq_with_zero(t: Seq<int>)
    ensures
        eq_points(Seq::new(t.len(), |i: int| 0int), t) == eq_at(t, 0),
    decreases t.len(),
{
    if t.len() > 0 {
        let zeros = Seq::new(t.len(), |i: int| 0int);
        let rest = t.drop_first();
        assert(zeros.drop_first() =~= Seq::new(rest.len(), |i: int| 0int));
        lemma_eq_with_zero(rest);
        let x = t[0];
        assert(0 * x + (1 - 0) * (1 - x) == 1 - x) by (nonlinear_arith);
    }
}

pub open spec fn unsupported_text(num_vars: nat) -> Seq<char> {
    "SRS does not support target number of vars "@ + decimal(num_vars)
}

/// The entries of `r` are those of `s` from place `skip` on.
pub open spec fn is_tail<C>(
    r: Seq<Evaluations<C>>,
    s: Seq<Evaluations<C>>,
    skip: int,
) -> bool {
    &&& r.len() == s.len() - skip
    &&& forall|i: int| 0 <= i < r.len() ==> (#[trigger] r[i]).evals@ == s[i + skip].evals@
}

fn copy_points<C: Copy>(s: &[C]) -> (r: Vec<C>)
    ensures
        r@ == s@,
{
    let mut r: Vec<C> = Vec::with_capacity(s.len());
    let mut i: usize = 0;
    while i < s.len()
        invariant
            0 <= i <= s@.len(),
            r@ == s@.subrange(0, i as int),
        decreases s.len() - i,
    {
        r.push(s[i]);
        i = i + 1;
    }
    assert(s@.subrange(0, i as int) =~= s@);
    r
}

fn copy_tail<C: Copy>(s: &[Evaluations<C>], skip: usize) -> (r: Vec<Evaluations<C>>)
    requires
        skip <= s@.len(),
    ensures
        is_tail(r@, s@, skip as int),
{
    let mut r: Vec<Evaluations<C>> = Vec::with_capacity(s.len() - skip);
    let mut i: usize = skip;
    while i < s.len()
        invariant
            skip <= i <= s@.len(),
            r@.len() == i - skip,
            forall|k: int| 0 <= k < r@.len() ==> (#[trigger] r@[k]).evals@ == s@[k + skip].evals@,
        decreases s.len() - i,
    {
        r.push(Evaluations { evals: copy_points(s[i].evals.as_slice()) });
        i = i + 1;
    }
    r
}

impl<G1: Copy, G2: Copy> MultilinearUniversalParams<G1, G2> {
    /// The prover's parameters for `supported_num_vars` variables.
    pub open spec fn is_prover_part(
        self,
        r: MultilinearProverParam<G1, G2>,
        supported_num_vars: int,
    ) -> bool {
        &&& r.num_vars == supported_num_vars
        &&& r.g == self.prover_param.g
        &&& r.h == self.prover_param.h
        &&& is_tail(
            r.powers_of_g@,
            self.prover_param.powers_of_g@,
            self.prover_param.num_vars - supported_num_vars,
        )
    }

    /// The verifier's parameters for `supported_num_vars` variables.
    pub open spec fn is_verifier_part(
        self,
        r: MultilinearVerifierParam<G1, G2>,
        supported_num_vars: int,
    ) -> bool {
        &&& r.num_vars == supported_num_vars
        &&& r.g == self.prover_param.g
        &&& r.h == self.prover_param.h
        &&& r.h_mask@ == self.h_mask@.skip(self.prover_param.num_vars - supported_num_vars)
    }

    /// The outcome of trimming to `supported_num_vars` variables.
    pub open spec fn is_trim_outcome(
        self,
        supported_num_vars: int,
        r: Result<(MultilinearProverParam<G1, G2>, MultilinearVerifierParam<G1, G2>), PCSError>,
    ) -> bool {
        match r {
            Ok(keys) => {
                &&& supported_num_vars <= self.prover_param.num_vars
                &&& self.is_prover_part(keys.0, supported_num_vars)
                &&& self.is_verifier_part(keys.1, supported_num_vars)
            },
            Err(e) => {
                &&& supported_num_vars > self.prover_param.num_vars
                &&& e.is_invalid_parameters(unsupported_text(supported_num_vars as nat))
            },
        }
    }

    /// Extracts the prover's parameters.
    pub fn extract_prover_param(
        &self,
        supported_num_vars: usize,
    ) -> (r: MultilinearProverParam<G1, G2>)
        requires
            supported_num_vars <= self.prover_param.num_vars,
            self.prover_param.num_vars - supported_num_vars
                <= self.prover_param.powers_of_g@.len(),
        ensures
            self.is_prover_part(r, supported_num_vars as int),
    {
        let to_reduce = self.prover_param.num_vars - supported_num_vars;
        MultilinearProverParam {
            powers_of_g: copy_tail(self.prover_param.powers_of_g.as_slice(), to_reduce),
            g: self.prover_param.g,
            h: self.prover_param.h,
            num_vars: supported_num_vars,
        }
    }

    /// Extracts the verifier's parameters.
    pub fn extract_verifier_param(
        &self,
        supported_num_vars: usize,
    ) -> (r: MultilinearVerifierParam<G1, G2>)
        requires
            supported_num_vars <= self.prover_param.num_vars,
            self.prover_param.num_vars - supported_num_vars <= self.h_mask@.len(),
        ensures
            self.is_verifier_part(r, supported_num_vars as int),
    {
        let to_reduce = self.prover_param.num_vars - supported_num_vars;
        let h_mask = copy_points(&self.h_mask[to_reduce..self.h_mask.len()]);
        assert(h_mask@ =~= self.h_mask@.skip(to_reduce as int));
        MultilinearVerifierParam {
            num_vars: supported_num_vars,
            g: self.prover_param.g,
            h: self.prover_param.h,
            h_mask,
        }
    }

    /// Trims the parameters to polynomials in `supported_num_vars` variables.
    pub fn trim(&self, supported_num_vars: usize) -> (r: Result<
        (MultilinearProverParam<G1, G2>, MultilinearVerifierParam<G1, G2>),
        PCSError,
    >)
        requires
            supported_num_vars <= self.prover_param.num_vars ==> {
                &&& self.prover_param.num_vars - supported_num_vars
                    <= self.prover_param.powers_of_g@.len()
                &&& self.prover_param.num_vars - supported_num_vars <= self.h_mask@.len()
            },
        ensures
            r is Err <==> supported_num_vars > self.prover_param.num_vars,
            r matches Err(e) ==> e.is_invalid_parameters(unsupported_text(supported_num_vars as nat)),
            r matches Ok(keys) ==> {
                &&& self.is_prover_part(keys.0, supported_num_vars as int)
                &&& self.is_verifier_part(keys.1, supported_num_vars as int)
            },
            self.is_trim_outcome(supported_num_vars as int, r),
    {
        if supported_num_vars > self.prover_param.num_vars {
            let text = "SRS does not support target number of vars ".to_string();
            return Err(
                PCSError::InvalidParameters(text.concat(decimal_text(supported_num_vars).as_str())),
            );
        }
        Ok(
            (
                self.extract_prover_param(supported_num_vars),
                self.extract_verifier_param(supported_num_vars),
            ),
        )
    }
}

/// The prover's parameters that belong to the generators and the secrets.
pub open spec fn is_prover_param(
    param: MultilinearProverParam<G1Affine, G2Affine>,
    g: G1Affine,
    h: G2Affine,
    secrets: Seq<int>,
) -> bool {
    &&& is_g1(g@)
    &&& param.num_vars == secrets.len()
    &&& param.g == g
    &&& param.h == h
    &&& param.powers_of_g@.len() == secrets.len() + 1
    &&& forall|i: int|
        0 <= i < secrets.len() ==> is_power_table(
            #[trigger] param.powers_of_g@[i],
            g@,
            secrets.skip(i),
        )
    &&& param.powers_of_g@[secrets.len() as int].evals@ == seq![g]
}

/// `g` times the equality table of the secrets.
pub open spec fn is_power_table(
    table: Evaluations<G1Affine>,
    g: (int, int, bool),
    secrets: Seq<int>,
) -> bool {
    &&& table.evals@.len() == pow2(secrets.len())
    &&& forall|x: int|
        0 <= x < table.evals@.len() ==> (#[trigger] table.evals@[x])@ == g1_multiple(
            g,
            eq_at(secrets, x) % Fr::modulus(),
        )
}

/// `h` times each of the secrets.
pub open spec fn are_masks(
    masks: Seq<G2Affine>,
    h: (int, int, int, int, bool),
    secrets: Seq<int>,
) -> bool {
    &&& masks.len() == secrets.len()
    &&& forall|i: int| 0 <= i < masks.len() ==> (#[trigger] masks[i])@ == g2_multiple(h, secrets[i])
}

/// The reference string that belongs to the generators and the secrets.
pub open spec fn is_srs(
    srs: MultilinearUniversalParams<G1Affine, G2Affine>,
    g: G1Affine,
    h: G2Affine,
    secrets: Seq<int>,
) -> bool {
    &&& is_prover_param(srs.prover_param, g, h, secrets)
    &&& are_masks(srs.h_mask@, h@, secrets)
}

/// A reference string that belongs to its generators and to some `n` secrets.
pub open spec fn is_srs_of_size(
    srs: MultilinearUniversalParams<G1Affine, G2Affine>,
    n: nat,
) -> bool {
    exists|secrets: Seq<int>|
        secrets.len() == n && (forall|i: int| 0 <= i < n ==> 0 <= #[trigger] secrets[i]
            < Fr::modulus()) && #[trigger] is_srs(
            srs,
            srs.prover_param.g,
            srs.prover_param.h,
            secrets,
        )
}

/// A reference string in the making. Its levels are made from the last to the
/// first: level `i` holds the table of the secrets from place `i` on.
pub struct SrsBuilder {
    g: G1Affine,
    h: G2Affine,
    t: Vec<Fr>,
    current: usize,
    current_eq: Vec<Fr>,
    tables: Vec<Evaluations<G1Affine>>,
}

impl SrsBuilder {
    /// The generator of the first group.
    pub closed spec fn g(self) -> G1Affine {
        self.g
    }

    /// The generator of the second group.
    pub closed spec fn h(self) -> G2Affine {
        self.h
    }

    pub closed spec fn secrets(self) -> Seq<int> {
        vals(self.t@)
    }

    /// The level that is made now.
    pub closed spec fn level(self) -> int {
        self.current as int
    }

    /// The tables so far, that of the last level first.
    pub closed spec fn made(self) -> Seq<Evaluations<G1Affine>> {
        self.tables@
    }

    pub closed spec fn wf(self) -> bool {
        let n = self.t@.len();
        let secrets = vals(self.t@);
        &&& n < usize::BITS
        &&& self.current < n
        &&& self.current_eq@.len() == pow2((n - self.current) as nat)
        &&& eqm_seq(
            Fr::modulus(),
            vals(self.current_eq@),
            eq_table(secrets.skip(self.current as int)),
        )
        &&& n - 1 - self.current <= self.tables@.len() <= n - self.current
        &&& forall|k: int|
            0 <= k < self.tables@.len() ==> is_power_table(
                #[trigger] self.tables@[k],
                self.g@,
                secrets.skip(n - 1 - k),
            )
    }

    /// Starts with the last level.
    pub fn start(g: G1Affine, h: G2Affine, t: &[Fr]) -> (r: Self)
        requires
            0 < t@.len() < usize::BITS,
        ensures
            r.wf(),
            r.g() == g,
            r.h() == h,
            r.secrets() == vals(t@),
            r.level() == t@.len() - 1,
            r.made() == Seq::<Evaluations<G1Affine>>::empty(),
    {
        let ghost p = Fr::modulus();
        let ghost secrets = vals(t@);
        let num_vars = t.len();
        let ghost n = num_vars as nat;
        proof {
            Fr::lemma_modulus();
            Fr::lemma_val();
        }
        let last = t[num_vars - 1];
        let mut current_eq: Vec<Fr> = Vec::with_capacity(2);
        current_eq.push(Fr::one().sub(last));
        current_eq.push(last);
        proof {
            broadcast use lemma_mod_twice;

            lemma2_to64();
            let point = secrets.skip(n - 1);
            let x = secrets[n - 1];
            assert(point.drop_first() =~= Seq::<int>::empty());
            assert forall|i: int| 0 <= i < 2 implies eqm(
                p,
                #[trigger] vals(current_eq@)[i],
                eq_table(point)[i],
            ) by {
                assert(eq_at(point.drop_first(), i / 2) == 1);
                assert((1 - x) * 1 == 1 - x && x * 1 == x);
            }
            assert(eqm_seq(p, vals(current_eq@), eq_table(point)));
        }
        SrsBuilder {
            g,
            h,
            t: copy_slice(t),
            current: num_vars - 1,
            current_eq,
            tables: Vec::with_capacity(num_vars),
        }
    }

    /// The number of points of the level that is made now.
    pub fn suffix_len(&self) -> (r: usize)
        requires
            self.wf(),
        ensures
            r == pow2((self.secrets().len() - self.level()) as nat),
    {
        self.current_eq.len()
    }

    /// The tables so far, that of the last level first.
    pub fn tables(&self) -> (r: &[Evaluations<G1Affine>])
        ensures
            r@ == self.made(),
    {
        self.tables.as_slice()
    }

    /// The table of the level that is made now.
    pub fn level_table(&self) -> (r: Evaluations<G1Affine>)
        requires
            self.wf(),
        ensures
            is_power_table(r, self.g()@, self.secrets().skip(self.level())),
    {
        power_table(
            self.g,
            &self.current_eq,
            Ghost(vals(self.t@).skip(self.current as int)),
        )
    }

    /// Adds the table of the level that is made now.
    pub fn push(&mut self, table: Evaluations<G1Affine>)
        requires
            old(self).wf(),
            old(self).made().len() == old(self).secrets().len() - 1 - old(self).level(),
            is_power_table(table, old(self).g()@, old(self).secrets().skip(old(self).level())),
        ensures
            final(self).wf(),
            final(self).g() == old(self).g(),
            final(self).h() == old(self).h(),
            final(self).secrets() == old(self).secrets(),
            final(self).level() == old(self).level(),
            final(self).made() == old(self).made().push(table),
    {
        self.tables.push(table);
    }

    /// Goes on to the level before, if there is one.
    pub fn extend(&mut self) -> (r: bool)
        requires
            old(self).wf(),
            old(self).made().len() == old(self).secrets().len() - old(self).level(),
        ensures
            final(self).wf(),
            final(self).g() == old(self).g(),
            final(self).h() == old(self).h(),
            final(self).secrets() == old(self).secrets(),
            final(self).made() == old(self).made(),
            r == (old(self).level() > 0),
            final(self).level() == if r {
                old(self).level() - 1
            } else {
                old(self).level()
            },
    {
        if self.current == 0 {
            return false;
        }
        let ghost p = Fr::modulus();
        let ghost n = self.t@.len();
        let ghost secrets = vals(self.t@);
        let ghost rest = secrets.skip(self.current as int);
        let ghost before = vals(self.current_eq@);
        let next = self.current - 1;
        let ghost first = secrets[next as int];
        let ghost point = secrets.skip(next as int);
        proof {
            Fr::lemma_modulus();
            lemma_power_below_word((n - next) as nat);
            lemma_pow2_halves((n - next) as nat);
            assert(point =~= seq![first] + rest);
        }
        self.current_eq = extend_eq_suffix_table(self.current_eq.as_slice(), self.t[next]);
        self.current = next;
        proof {
            lemma_extended_eq_table(p, before, rest, first);
            let now = vals(self.current_eq@);
            assert(now.len() == self.current_eq@.len());
            assert forall|x: int| 0 <= x < now.len() implies eqm(
                p,
                #[trigger] now[x],
                eq_table(point)[x],
            ) by {
                assert(eqm(p, extended(before, first)[x], eq_table(point)[x]));
                lemma_eqm_residue(p, extended(before, first)[x]);
            }
        }
        true
    }

    /// The reference string, once all levels are made.
    pub fn finish(self) -> (r: MultilinearUniversalParams<G1Affine, G2Affine>)
        requires
            self.wf(),
            self.made().len() == self.secrets().len(),
        ensures
            is_srs(r, self.g(), self.h(), self.secrets()),
    {
        let g = self.g;
        let h = self.h;
        let num_vars = self.t.len();
        let ghost n = num_vars as nat;
        let ghost secrets = vals(self.t@);
        let mut powers_of_g: Vec<Evaluations<G1Affine>> = Vec::with_capacity(num_vars + 1);
        let mut i: usize = 0;
        while i < num_vars
            invariant
                0 <= i <= num_vars,
                n == num_vars,
                g == self.g,
                num_vars < usize::BITS,
                self.tables@.len() == num_vars,
                forall|k: int|
                    0 <= k < num_vars ==> is_power_table(
                        #[trigger] self.tables@[k],
                        g@,
                        secrets.skip(n - 1 - k),
                    ),
                powers_of_g@.len() == i,
                forall|k: int|
                    0 <= k < i ==> is_power_table(#[trigger] powers_of_g@[k], g@, secrets.skip(k)),
            decreases num_vars - i,
        {
            let table = &self.tables[num_vars - 1 - i];
            assert(is_power_table(self.tables@[n - 1 - i], g@, secrets.skip(i as int)));
            powers_of_g.push(Evaluations { evals: copy_points(table.evals.as_slice()) });
            i = i + 1;
        }
        let mut generator: Vec<G1Affine> = Vec::with_capacity(1);
        generator.push(g);
        powers_of_g.push(Evaluations { evals: generator });
        let h_mask = g2_batch_mul(h, self.t.as_slice());
        proof {
            use_type_invariant(g);
        }
        MultilinearUniversalParams {
            prover_param: MultilinearProverParam { num_vars, g, h, powers_of_g },
            h_mask,
        }
    }
}

/// Builds the reference string from the generators and the secrets.
pub fn srs_from_secrets(
    g: G1Affine,
    h: G2Affine,
    t: &[Fr],
) -> (r: MultilinearUniversalParams<G1Affine, G2Affine>)
    requires
        0 < t@.len() < usize::BITS,
    ensures
        is_srs(r, g, h, vals(t@)),
{
    let mut builder = SrsBuilder::start(g, h, t);
    let mut more = true;
    while more
        invariant
            builder.wf(),
            builder.g() == g,
            builder.h() == h,
            builder.secrets() == vals(t@),
            0 <= builder.level() < t@.len(),
            builder.made().len() == if more {
                t@.len() - 1 - builder.level()
            } else {
                t@.len() - builder.level()
            },
            !more ==> builder.level() == 0,
        decreases t@.len() - builder.made().len(),
    {
        let table = builder.level_table();
        builder.push(table);
        more = builder.extend();
    }
    builder.finish()
}

/// `g` times an equality table.
fn power_table(
    g: G1Affine,
    table: &Vec<Fr>,
    Ghost(point): Ghost<Seq<int>>,
) -> (r: Evaluations<G1Affine>)
    requires
        table@.len() == pow2(point.len()),
        eqm_seq(Fr::modulus(), vals(table@), eq_table(point)),
    ensures
        is_power_table(r, g@, point),
{
    let evals = g1_batch_mul(g, table.as_slice());
    proof {
        Fr::lemma_modulus();
        Fr::lemma_val();
        let p = Fr::modulus();
        assert forall|x: int| 0 <= x < evals@.len() implies (#[trigger] evals@[x])@ == g1_multiple(
            g@,
            eq_at(point, x) % p,
        ) by {
            assert(eqm(p, vals(table@)[x], eq_table(point)[x]));
            lemma_small_mod(table@[x].val() as nat, p as nat);
        }
    }
    Evaluations { evals }
}

impl MultilinearUniversalParams<G1Affine, G2Affine> {
    /// Builds a reference string from random generators and secrets. For tests
    /// only: who runs this knows the secrets. The generators are the first two
    /// draws, and each secret is a draw of its own, from the state that the draw
    /// before it left.
    pub fn gen_srs_for_testing(
        rng: &mut ark_std::rand::rngs::StdRng,
        num_vars: usize,
    ) -> (r: Result<Self, PCSError>)
        requires
            num_vars < usize::BITS,
        ensures
            r is Err <==> num_vars == 0,
            r matches Err(e) ==> e.is_invalid_parameters("constant polynomial not supported"@),
            r is Err ==> *final(rng) == *old(rng),
            r matches Ok(srs) ==> is_srs_of_size(srs, num_vars as nat),
            is_generation_outcome(num_vars as nat, r),
            r matches Ok(srs) ==> exists|
                states: Seq<ark_std::rand::rngs::StdRng>,
                t: Seq<Fr>,
            |
                {
                    &&& states.len() == num_vars + 3
                    &&& #[trigger] states[0] == *old(rng)
                    &&& states[num_vars + 2] == *final(rng)
                    &&& exists|m: &mut ark_std::rand::rngs::StdRng| #[trigger]
                        is_g1_draw(m, srs.prover_param.g) && *m == states[0] && *final(m)
                            == states[1]
                    &&& exists|m: &mut ark_std::rand::rngs::StdRng| #[trigger]
                        is_g2_draw(m, srs.prover_param.h) && *m == states[1] && *final(m)
                            == states[2]
                    &&& t.len() == num_vars
                    &&& forall|i: int| #[trigger]
                        is_place(i, num_vars as int) ==> exists|
                            m: &mut ark_std::rand::rngs::StdRng,
                        | #[trigger]
                            is_scalar_draw(m, t[i]) && *m == states[i + 2] && *final(m) == states[i
                                + 3]
                    &&& #[trigger] is_srs(
                        srs,
                        srs.prover_param.g,
                        srs.prover_param.h,
                        vals(t),
                    )
                },
    {
        if num_vars == 0 {
            return Err(
                PCSError::InvalidParameters("constant polynomial not supported".to_string()),
            );
        }
        let ghost start = *rng;
        let g = draw_g1(rng);
        let ghost second = *rng;
        let h = draw_g2(rng);
        let ghost third = *rng;
        let t = draw_scalars(rng, num_vars);
        let ghost end = *rng;
        let srs = srs_from_secrets(g, h, t.as_slice());
        proof {
            Fr::lemma_val();
            assert(is_srs(srs, srs.prover_param.g, srs.prover_param.h, vals(t@)));
            let later = choose|states: Seq<ark_std::rand::rngs::StdRng>|
                {
                    &&& states.len() == num_vars + 1
                    &&& #[trigger] states[0] == third
                    &&& states[num_vars as int] == end
                    &&& forall|i: int| #[trigger]
                        is_place(i, num_vars as int) ==> exists|
                            m: &mut ark_std::rand::rngs::StdRng,
                        | #[trigger]
                            is_scalar_draw(m, t@[i]) && *m == states[i] && *final(m) == states[i
                                + 1]
                };
            let states = seq![start, second] + later;
            assert(states[0] == start && states[1] == second && states[2] == third);
            assert(states[num_vars + 2] == end);
            assert forall|i: int| #[trigger] is_place(i, num_vars as int) implies exists|
                m: &mut ark_std::rand::rngs::StdRng,
            | #[trigger]
                is_scalar_draw(m, t@[i]) && *m == states[i + 2] && *final(m) == states[i + 3] by {
                assert(states[i + 2] == later[i] && states[i + 3] == later[i + 1]);
                assert(exists|m: &mut ark_std::rand::rngs::StdRng| #[trigger]
                    is_scalar_draw(m, t@[i]) && *m == later[i] && *final(m) == later[i + 1]);
            }
        }
        Ok(srs)
    }
}

/// The scalars of level `i` of a reference string: the equality table of the
/// secrets from place `i` on.
pub open spec fn level_scalars(secrets: Seq<int>, i: int) -> Seq<int> {
    residues(Fr::modulus(), eq_table(secrets.skip(i)))
}

/// The values of an equality table add up to 1.
pub proof fn lemma_eq_table_total(t: Seq<int>)
    ensures
        sum(|x: int| eq_at(t, x), 0, pow2(t.len()) as int) == 1,
    decreases t.len(),
{
    let f = |x: int| eq_at(t, x);
    if t.len() == 0 {
        lemma2_to64();
        assert(sum(f, 0, 1) == sum(f, 0, 0) + f(0));
    } else {
        let rest = t.drop_first();
        let half = pow2(rest.len()) as int;
        let g = |y: int| eq_at(rest, y);
        let pairs = |y: int| f(2 * y) + f(2 * y + 1);
        lemma_pow2_halves(t.len());
        assert forall|y: int| 0 <= y < half implies #[trigger] pairs(y) == g(y) by {
            assert((2 * y) % 2 == 0 && (2 * y) / 2 == y);
            assert((2 * y + 1) % 2 == 1 && (2 * y + 1) / 2 == y);
            let (a, e) = (t[0], eq_at(rest, y));
            assert((1 - a) * e + a * e == e) by (nonlinear_arith);
        }
        lemma_sum_pairs(f, half);
        lemma_sum_ext(pairs, g, 0, half);
        lemma_eq_table_total(rest);
    }
}

/// Every level of a reference string holds multiples of the generator by its
/// scalars. They add up to 1, and each two of them to one of the next level.
pub proof fn lemma_level_scalars(
    srs: MultilinearUniversalParams<G1Affine, G2Affine>,
    g: G1Affine,
    h: G2Affine,
    secrets: Seq<int>,
    i: int,
)
    requires
        is_srs(srs, g, h, secrets),
        0 <= i < secrets.len(),
    ensures
        level_scalars(secrets, i).len() == 2 * level_scalars(secrets, i + 1).len(),
        are_multiples(
            g1_views(srs.prover_param.powers_of_g@[i].evals@),
            g@,
            level_scalars(secrets, i),
        ),
        eqm(
            Fr::modulus(),
            sum(
                |x: int| level_scalars(secrets, i)[x],
                0,
                level_scalars(secrets, i).len() as int,
            ),
            1,
        ),
        forall|j: int|
            0 <= j < level_scalars(secrets, i + 1).len() ==> eqm(
                Fr::modulus(),
                level_scalars(secrets, i)[2 * j] + level_scalars(secrets, i)[2 * j + 1],
                #[trigger] level_scalars(secrets, i + 1)[j],
            ),
{
    Fr::lemma_modulus();
    let p = Fr::modulus();
    let point = secrets.skip(i);
    let rest = secrets.skip(i + 1);
    let (a, b) = (level_scalars(secrets, i), level_scalars(secrets, i + 1));
    let size = a.len() as int;
    assert(point.drop_first() =~= rest);
    lemma_pow2_halves(point.len());
    assert(is_power_table(srs.prover_param.powers_of_g@[i], g@, point));
    let f = |x: int| a[x];
    let e = |x: int| eq_at(point, x);
    assert forall|x: int| 0 <= x < size implies eqm(p, #[trigger] f(x), e(x)) by {
        lemma_eqm_residue(p, eq_at(point, x));
    }
    lemma_sum_eqm(p, f, e, 0, size);
    lemma_eq_table_total(point);
    assert forall|j: int| 0 <= j < b.len() implies eqm(
        p,
        a[2 * j] + a[2 * j + 1],
        #[trigger] b[j],
    ) by {
        assert((2 * j) % 2 == 0 && (2 * j) / 2 == j);
        assert((2 * j + 1) % 2 == 1 && (2 * j + 1) / 2 == j);
        let (y, v) = (point[0], eq_at(rest, j));
        let (l, r) = (eq_at(point, 2 * j), eq_at(point, 2 * j + 1));
        assert((1 - y) * v + y * v == v) by (nonlinear_arith);
        lemma_eqm_residue(p, l);
        lemma_eqm_residue(p, r);
        lemma_eqm_add(p, l % p, l, r % p, r);
        lemma_eqm_residue(p, v);
    }
}

/// Trimming a reference string gives the parameters that belong to the last of
/// its secrets.
pub proof fn lemma_trimmed_secrets(
    srs: MultilinearUniversalParams<G1Affine, G2Affine>,
    ck: MultilinearProverParam<G1Affine, G2Affine>,
    vk: MultilinearVerifierParam<G1Affine, G2Affine>,
    g: G1Affine,
    h: G2Affine,
    secrets: Seq<int>,
    supported_num_vars: nat,
)
    requires
        is_srs(srs, g, h, secrets),
        supported_num_vars <= secrets.len(),
        srs.is_prover_part(ck, supported_num_vars as int),
        srs.is_verifier_part(vk, supported_num_vars as int),
    ensures
        is_prover_param(ck, g, h, secrets.skip(secrets.len() - supported_num_vars)),
        vk.num_vars == supported_num_vars,
        vk.g == g,
        vk.h == h,
        are_masks(vk.h_mask@, h@, secrets.skip(secrets.len() - supported_num_vars)),
{
    let skip = secrets.len() - supported_num_vars;
    let rest = secrets.skip(skip);
    let tables = srs.prover_param.powers_of_g@;
    assert forall|i: int| 0 <= i < rest.len() implies is_power_table(
        #[trigger] ck.powers_of_g@[i],
        g@,
        rest.skip(i),
    ) by {
        assert(rest.skip(i) =~= secrets.skip(i + skip));
        assert(is_power_table(tables[i + skip], g@, secrets.skip(i + skip)));
        assert(ck.powers_of_g@[i].evals@ == tables[i + skip].evals@);
    }
    assert(ck.powers_of_g@[rest.len() as int].evals@ == tables[secrets.len() as int].evals@);
}

/// The outcome of generating a reference string for `n` variables.
pub open spec fn is_generation_outcome(
    n: nat,
    r: Result<MultilinearUniversalParams<G1Affine, G2Affine>, PCSError>,
) -> bool {
    match r {
        Ok(srs) => n > 0 && is_srs_of_size(srs, n),
        Err(e) => n == 0 && e.is_invalid_parameters("constant polynomial not supported"@),
    }
}

/// The parts of a reference string for `n` secrets: a table for each number of
/// variables up to `n`, each twice as long as the next, the generator alone at
/// the end, and a mask for each secret.
pub proof fn lemma_srs_shape(
    srs: MultilinearUniversalParams<G1Affine, G2Affine>,
    g: G1Affine,
    h: G2Affine,
    secrets: Seq<int>,
)
    requires
        is_srs(srs, g, h, secrets),
    ensures
        srs.prover_param.num_vars == secrets.len(),
        srs.prover_param.g == g,
        srs.prover_param.h == h,
        srs.prover_param.powers_of_g@.len() == secrets.len() + 1,
        forall|i: int|
            0 <= i <= secrets.len() ==> (#[trigger] srs.prover_param.powers_of_g@[i]).evals@.len()
                == pow2((secrets.len() - i) as nat),
        srs.prover_param.powers_of_g@.last().evals@ == seq![g],
        srs.h_mask@.len() == secrets.len(),
{
    lemma2_to64();
    assert forall|i: int| 0 <= i <= secrets.len() implies (
    #[trigger] srs.prover_param.powers_of_g@[i]).evals@.len() == pow2(
        (secrets.len() - i) as nat,
    ) by {
        if i < secrets.len() {
            assert(is_power_table(srs.prover_param.powers_of_g@[i], g@, secrets.skip(i)));
        }
    }
}

/// Generating succeeds for every number of variables but 0, and the parts fit
/// together.
pub proof fn lemma_generation(
    n: nat,
    r: Result<MultilinearUniversalParams<G1Affine, G2Affine>, PCSError>,
)
    requires
        is_generation_outcome(n, r),
    ensures
        r is Ok <==> n > 0,
        r matches Ok(srs) ==> {
            &&& srs.prover_param.num_vars == n
            &&& srs.prover_param.powers_of_g@.len() == n + 1
            &&& forall|i: int|
                0 <= i <= n ==> (#[trigger] srs.prover_param.powers_of_g@[i]).evals@.len() == pow2(
                    (n - i) as nat,
                )
            &&& srs.prover_param.powers_of_g@.last().evals@ == seq![srs.prover_param.g]
            &&& srs.h_mask@.len() == n
        },
{
    if r is Ok {
        let srs = r->Ok_0;
        let secrets = choose|secrets: Seq<int>|
            secrets.len() == n && (forall|i: int| 0 <= i < n ==> 0 <= #[trigger] secrets[i]
                < Fr::modulus()) && #[trigger] is_srs(
                srs,
                srs.prover_param.g,
                srs.prover_param.h,
                secrets,
            );
        lemma_srs_shape(srs, srs.prover_param.g, srs.prover_param.h, secrets);
    }
}

/// The masks belong to the tables: mask `i` is `h` times the sum of the scalars
/// at the odd places of level `i`, those where the first coordinate is 1.
pub proof fn lemma_masks_match_levels(
    srs: MultilinearUniversalParams<G1Affine, G2Affine>,
    g: G1Affine,
    h: G2Affine,
    secrets: Seq<int>,
    i: int,
)
    requires
        is_srs(srs, g, h, secrets),
        0 <= i < secrets.len(),
        0 <= secrets[i] < Fr::modulus(),
    ensures
        srs.h_mask@[i]@ == g2_multiple(
            h@,
            sum(
                |j: int| level_scalars(secrets, i)[2 * j + 1],
                0,
                level_scalars(secrets, i + 1).len() as int,
            ) % Fr::modulus(),
        ),
{
    Fr::lemma_modulus();
    let p = Fr::modulus();
    let point = secrets.skip(i);
    let rest = secrets.skip(i + 1);
    let a = level_scalars(secrets, i);
    let half = level_scalars(secrets, i + 1).len() as int;
    let s = secrets[i];
    assert(point.drop_first() =~= rest);
    lemma_pow2_halves(point.len());
    let f = |j: int| a[2 * j + 1];
    let e = |j: int| eq_at(rest, j);
    let scaled = |j: int| s * e(j);
    assert forall|j: int| 0 <= j < half implies eqm(p, #[trigger] f(j), scaled(j)) by {
        assert((2 * j + 1) % 2 == 1 && (2 * j + 1) / 2 == j);
        assert(eq_at(point, 2 * j + 1) == s * eq_at(rest, j));
        lemma_eqm_residue(p, eq_at(point, 2 * j + 1));
    }
    lemma_sum_eqm(p, f, scaled, 0, half);
    lemma_sum_scale(s, e, 0, half);
    lemma_eq_table_total(rest);
    assert(s * 1 == s);
    lemma_small_mod(s as nat, p as nat);
    assert(srs.h_mask@[i]@ == g2_multiple(h@, secrets[i]));
}

/// Trimming a reference string succeeds for every number of variables that it
/// supports, and for no other, and gives the parameters that belong to the last
/// of its secrets.
pub proof fn lemma_trimming(
    srs: MultilinearUniversalParams<G1Affine, G2Affine>,
    g: G1Affine,
    h: G2Affine,
    secrets: Seq<int>,
    supported_num_vars: nat,
    r: Result<
        (
            MultilinearProverParam<G1Affine, G2Affine>,
            MultilinearVerifierParam<G1Affine, G2Affine>,
        ),
        PCSError,
    >,
)
    requires
        is_srs(srs, g, h, secrets),
        srs.is_trim_outcome(supported_num_vars as int, r),
    ensures
        r is Ok <==> supported_num_vars <= secrets.len(),
        r matches Ok(keys) ==> {
            &&& is_prover_param(keys.0, g, h, secrets.skip(secrets.len() - supported_num_vars))
            &&& keys.1.num_vars == supported_num_vars
            &&& keys.1.g == g
            &&& keys.1.h == h
            &&& are_masks(keys.1.h_mask@, h@, secrets.skip(secrets.len() - supported_num_vars))
        },
{
    if r is Ok {
        let keys = r->Ok_0;
        lemma_trimmed_secrets(srs, keys.0, keys.1, g, h, secrets, supported_num_vars);
    }
}

/// The first entry of every table is `g` times the equality of the secrets
/// with zero.
pub proof fn lemma_first_power(
    param: MultilinearProverParam<G1Affine, G2Affine>,
    g: G1Affine,
    h: G2Affine,
    secrets: Seq<int>,
    i: int,
)
    requires
        is_prover_param(param, g, h, secrets),
        0 <= i < secrets.len(),
    ensures
        param.powers_of_g@[i].evals@[0]@ == g1_multiple(
            g@,
            eq_points(Seq::new((secrets.len() - i) as nat, |k: int| 0int), secrets.skip(i))
                % Fr::modulus(),
        ),
{
    let rest = secrets.skip(i);
    lemma_eq_with_zero(rest);
    lemma_pow2_pos(rest.len());
    assert(is_power_table(param.powers_of_g@[i], g@, rest));
}

/// Fixes the first `pad` variables of a polynomial, given by its table, to
/// zero.
pub fn remove_dummy_variable<F: PrimeField>(
    poly: &[F],
    pad: usize,
) -> (r: Result<Vec<F>, PCSError>)
    requires
        forall|n: nat| pad > 0 && poly@.len() == #[trigger] pow2(n) ==> pad <= n,
    ensures
        r is Err <==> pad > 0 && forall|n: nat| poly@.len() != #[trigger] pow2(n),
        r matches Err(e) ==> e.is_invalid_parameters(
            "Size of polynomial should be power of two."@,
        ),
        r matches Ok(v) ==> {
            &&& v@.len() * pow2(pad as nat) == poly@.len()
            &&& forall|x: int|
                0 <= x < v@.len() ==> #[trigger] v@[x] == poly@[x * pow2(pad as nat)]
        },
{
    if pad == 0 {
        let r = copy_slice(poly);
        proof {
            lemma2_to64();
            assert(forall|x: int| #[trigger] (x * 1) == x);
        }
        return Ok(r);
    }
    let log = ark_std::log2(poly.len()) as usize;
    let is_power = if log < usize::BITS as usize {
        proof {
            lemma_power_below_word(log as nat);
        }
        poly.len() == power_of_two(log)
    } else {
        false
    };
    if !is_power {
        proof {
            assert forall|n: nat| poly@.len() != #[trigger] pow2(n) by {
                if poly@.len() == pow2(n) {
                    lemma_ceil_log2_unique(poly@.len(), log as nat, n);
                    lemma_vars_below_word(n);
                }
            }
        }
        return Err(
            PCSError::InvalidParameters("Size of polynomial should be power of two.".to_string()),
        );
    }
    assert(poly@.len() == pow2(log as nat));
    let nv = log - pad;
    proof {
        lemma_pow2_adds(nv as nat, pad as nat);
        lemma_power_below_word(nv as nat);
        lemma_power_below_word(pad as nat);
        lemma_pow2_pos(pad as nat);
    }
    let size = power_of_two(nv);
    let stride = power_of_two(pad);
    let ghost q = stride as int;
    let mut r: Vec<F> = Vec::with_capacity(size);
    let mut x: usize = 0;
    while x < size
        invariant
            0 <= x <= size,
            q == stride,
            q == pow2(pad as nat),
            size * q == poly@.len(),
            q > 0,
            poly@.len() <= usize::MAX,
            r@.len() == x,
            forall|y: int| 0 <= y < x ==> #[trigger] r@[y] == poly@[y * pow2(pad as nat)],
        decreases size - x,
    {
        assert(0 <= x * q < size * q) by (nonlinear_arith)
            requires
                0 <= x < size,
                q > 0,
        ;
        r.push(poly[x * stride]);
        x = x + 1;
    }
    Ok(r)
}

} // verus!
