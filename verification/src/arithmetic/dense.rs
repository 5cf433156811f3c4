//! Multilinear polynomials as tables of their values on the Boolean hypercube.

use crate::field::{vals, PrimeField};
use vstd::arithmetic::power2::{lemma_pow2_strictly_increases, pow2};
use vstd::prelude::*;

verus! {

/// A copy of the elements of a slice.
pub fn copy_slice<F: PrimeField>(s: &[F]) -> (r: Vec<F>)
    ensures
        r@ == s@,
{
    let mut r: Vec<F> = Vec::with_capacity(s.len());
    let mut i: usize = 0;
    while i < s.len()
        invariant
            0 <= i <= s@.len(),
            r@ == s@.subrange(0, i as int),
        decreases s.len() - i,
    {
        r.push(s[i]);
        i = i + 1;
    }
    assert(s@.subrange(0, s@.len() as int) =~= s@);
    r
}

/// `n` times the element `x`.
pub fn repeated<F: PrimeField>(x: F, n: usize) -> (r: Vec<F>)
    ensures
        r@ == Seq::new(n as nat, |i: int| x),
{
    let mut r: Vec<F> = Vec::with_capacity(n);
    let mut i: usize = 0;
    while i < n
        invariant
            0 <= i <= n,
            r@ == Seq::new(i as nat, |k: int| x),
        decreases n - i,
    {
        r.push(x);
        i = i + 1;
    }
    r
}

/// Whether two points have the same coordinates.
pub fn same_elements<F: PrimeField>(a: &[F], b: &[F]) -> (r: bool)
    ensures
        r == (vals(a@) == vals(b@)),
{
    if a.len() != b.len() {
        assert(vals(a@).len() != vals(b@).len());
        return false;
    }
    let mut i: usize = 0;
    while i < a.len()
        invariant
            0 <= i <= a@.len(),
            a@.len() == b@.len(),
            forall|k: int| 0 <= k < i ==> (#[trigger] a@[k]).val() == b@[k].val(),
        decreases a.len() - i,
    {
        if !a[i].equals(b[i]) {
            assert(vals(a@)[i as int] != vals(b@)[i as int]);
            return false;
        }
        i = i + 1;
    }
    assert(vals(a@) =~= vals(b@));
    true
}

/// A table length that fits in `usize` has a logarithm below the word size.
pub proof fn lemma_vars_below_word(n: nat)
    requires
        pow2(n) <= usize::MAX,
    ensures
        n < usize::BITS,
{
    if n >= usize::BITS {
        vstd::arithmetic::power2::lemma2_to64();
        vstd::arithmetic::power2::lemma2_to64_rest();
        if n > usize::BITS {
            lemma_pow2_strictly_increases(usize::BITS as nat, n);
        }
        assert(pow2(usize::BITS as nat) > usize::MAX);
    }
}

pub proof fn lemma_power_below_word(n: nat)
    requires
        n < usize::BITS,
    ensures
        pow2(n) <= usize::MAX,
        2 * pow2(n) <= usize::MAX + 1,
{
    vstd::arithmetic::power2::lemma2_to64();
    vstd::arithmetic::power2::lemma2_to64_rest();
    if n < usize::BITS - 1 {
        lemma_pow2_strictly_increases(n, (usize::BITS - 1) as nat);
    }
}

/// The number of bits of an index into a table in `num_vars` variables. It is
/// taken modulo `2^32`, as the width of a shift is.
pub open spec fn index_bits(num_vars: usize) -> nat {
    (num_vars as u32) as nat
}

/// `2^n`, for an `n` whose power fits in a word.
pub fn power_of_two(n: usize) -> (r: usize)
    requires
        pow2(n as nat) <= usize::MAX,
    ensures
        r == pow2(n as nat),
{
    proof {
        lemma_vars_below_word(n as nat);
        vstd::bits::lemma_usize_shl_is_mul(1, n);
    }
    1usize << n
}

/// A multilinear polynomial in `num_vars` variables, given by its values on
/// the Boolean hypercube: `evaluations[x]` is the value at the point whose
/// coordinate `i` is bit `i` of `x`.
#[derive(Clone, Debug, PartialEq, Eq)]
pub struct DenseMultilinearExtension<F: PrimeField> {
    pub num_vars: usize,
    pub evaluations: Vec<F>,
}

impl<F: PrimeField> DenseMultilinearExtension<F> {
    pub open spec fn wf(&self) -> bool {
        self.evaluations@.len() == pow2(self.num_vars as nat)
    }

    /// The table of values.
    pub open spec fn table(&self) -> Seq<int> {
        vals(self.evaluations@)
    }

    /// The polynomial with the given values.
    pub fn from_evaluations_vec(num_vars: usize, evaluations: Vec<F>) -> (r: Self)
        requires
            evaluations@.len() == pow2(num_vars as nat),
        ensures
            r.wf(),
            r.num_vars == num_vars,
            r.evaluations == evaluations,
    {
        DenseMultilinearExtension { num_vars, evaluations }
    }

    /// Whether there is a value for each vertex of the hypercube.
    pub fn is_well_formed(&self) -> (r: bool)
        ensures
            r == self.wf(),
    {
        let len = self.evaluations.len();
        if self.num_vars >= usize::BITS as usize {
            proof {
                if self.wf() {
                    lemma_vars_below_word(self.num_vars as nat);
                }
            }
            return false;
        }
        proof {
            lemma_power_below_word(self.num_vars as nat);
        }
        len == power_of_two(self.num_vars)
    }

    /// An equal polynomial.
    pub fn copy(&self) -> (r: Self)
        ensures
            r.num_vars == self.num_vars,
            r.evaluations@ == self.evaluations@,
    {
        DenseMultilinearExtension {
            num_vars: self.num_vars,
            evaluations: copy_slice(self.evaluations.as_slice()),
        }
    }
}

} // verus!
