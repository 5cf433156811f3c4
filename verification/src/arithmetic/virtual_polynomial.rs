//! Sums of products of multilinear polynomials.

use crate::arithmetic::dense::DenseMultilinearExtension;
use crate::errors::ArithErrors;
use crate::field::PrimeField;
use crate::math::terms::{all_sized, factors_below, Term};
use crate::text::decimal;
use std::sync::Arc;
use vstd::arithmetic::power2::pow2;
use vstd::prelude::*;

verus! {

/// The size of a virtual polynomial: the largest number of multiplicands of
/// one product, and the number of variables.
#[derive(Clone, Copy, Debug, PartialEq, Eq)]
pub struct VPAuxInfo {
    pub max_degree: usize,
    pub num_variables: usize,
}

/// A sum of products of multilinear polynomials. `products[k]` is a
/// coefficient and the places of its multiplicands in
/// `flattened_ml_extensions`.
#[derive(Clone, Debug, PartialEq, Eq)]
pub struct VirtualPolynomial<F: PrimeField> {
    pub aux_info: VPAuxInfo,
    pub products: Vec<(F, Vec<usize>)>,
    pub flattened_ml_extensions: Vec<Arc<DenseMultilinearExtension<F>>>,
}

/// The tables of a list of polynomials.
pub open spec fn tables_of<F: PrimeField>(
    mles: Seq<Arc<DenseMultilinearExtension<F>>>,
) -> Seq<Seq<int>> {
    Seq::new(mles.len(), |k: int| mles[k].table())
}

/// The indices as integers.
pub open spec fn indices(s: Seq<usize>) -> Seq<int> {
    Seq::new(s.len(), |j: int| s[j] as int)
}

/// The products of a virtual polynomial as terms.
pub open spec fn terms_of<F: PrimeField>(products: Seq<(F, Vec<usize>)>) -> Seq<Term> {
    Seq::new(
        products.len(),
        |k: int| (Term { coeff: products[k].0.val(), factors: indices(products[k].1@) }),
    )
}

/// The text of the error for a multiplicand in the wrong number of variables.
pub open spec fn wrong_multiplicand_text(found: nat, expected: nat) -> Seq<char> {
    "product has a multiplicand with wrong number of variables "@ + decimal(found) + " vs "@
        + decimal(expected)
}

/// Whether two shared pointers point to one allocation, by `std::sync::Arc::ptr_eq`.
/// Claims that pointers to one allocation point to one value; that two
/// allocations are distinct says nothing of the values.
#[verifier::external_body]
pub(crate) fn same_allocation<F: PrimeField>(
    a: &Arc<DenseMultilinearExtension<F>>,
    b: &Arc<DenseMultilinearExtension<F>>,
) -> (r: bool)
    ensures
        r ==> *a == *b,
{
    Arc::ptr_eq(a, b)
}

fn copy_indices(s: &Vec<usize>) -> (r: Vec<usize>)
    ensures
        r@ == s@,
{
    let mut r: Vec<usize> = Vec::with_capacity(s.len());
    let mut i: usize = 0;
    while i < s.len()
        invariant
            0 <= i <= s@.len(),
            r@ == s@.subrange(0, i as int),
        decreases s.len() - i,
    {
        r.push(s[i]);
        i = i + 1;
    }
    assert(s@.subrange(0, i as int) =~= s@);
    r
}

impl<F: PrimeField> VirtualPolynomial<F> {
    pub open spec fn terms(self) -> Seq<Term> {
        terms_of(self.products@)
    }

    pub open spec fn tables(self) -> Seq<Seq<int>> {
        tables_of(self.flattened_ml_extensions@)
    }

    /// The polynomials are all in `vars` variables, each product has between
    /// one and `max_degree` multiplicands, and those are all in the list.
    pub open spec fn shaped(self, vars: nat) -> bool {
        &&& self.aux_info.max_degree < usize::MAX
        &&& forall|k: int|
            0 <= k < self.flattened_ml_extensions@.len() ==> {
                &&& (#[trigger] self.flattened_ml_extensions@[k]).wf()
                &&& self.flattened_ml_extensions@[k].num_vars == vars
            }
        &&& forall|k: int|
            0 <= k < self.products@.len() ==> 0 < (#[trigger] self.products@[k]).1@.len()
                <= self.aux_info.max_degree
        &&& forall|k: int, j: int|
            0 <= k < self.products@.len() && 0 <= j < self.products@[k].1@.len() ==> (
            #[trigger] self.products@[k].1@[j]) < self.flattened_ml_extensions@.len()
    }

    pub open spec fn wf(self) -> bool {
        self.shaped(self.aux_info.num_variables as nat)
    }

    /// The polynomial without products, which is zero everywhere.
    pub fn new(num_variables: usize) -> (r: Self)
        ensures
            r.wf(),
            r.aux_info.max_degree == 0,
            r.aux_info.num_variables == num_variables,
            r.products@.len() == 0,
            r.flattened_ml_extensions@.len() == 0,
    {
        VirtualPolynomial {
            aux_info: VPAuxInfo { max_degree: 0, num_variables },
            products: Vec::new(),
            flattened_ml_extensions: Vec::new(),
        }
    }

    pub proof fn lemma_shape(self, vars: nat)
        requires
            self.shaped(vars),
        ensures
            all_sized(self.tables(), pow2(vars) as int),
            factors_below(self.terms(), self.tables().len() as int),
            self.tables().len() == self.flattened_ml_extensions@.len(),
            self.terms().len() == self.products@.len(),
    {
        assert forall|k: int| 0 <= k < self.tables().len() implies (
        #[trigger] self.tables()[k]).len() == pow2(vars) by {
            assert(self.flattened_ml_extensions@[k].wf());
        }
        let terms = self.terms();
        assert forall|k: int, j: int|
            0 <= k < terms.len() && 0 <= j < terms[k].factors.len() implies 0
            <= #[trigger] terms[k].factors[j] < self.tables().len() by {
            assert(self.products@[k].1@[j] < self.flattened_ml_extensions@.len());
        }
    }

    /// Whether the products and the list are as they should be.
    pub fn is_well_formed(&self) -> (r: bool)
        ensures
            r == self.wf(),
    {
        if self.aux_info.max_degree == usize::MAX {
            return false;
        }
        let mut k: usize = 0;
        while k < self.flattened_ml_extensions.len()
            invariant
                0 <= k <= self.flattened_ml_extensions@.len(),
                forall|i: int|
                    0 <= i < k ==> (#[trigger] self.flattened_ml_extensions@[i]).wf()
                        && self.flattened_ml_extensions@[i].num_vars
                        == self.aux_info.num_variables,
            decreases self.flattened_ml_extensions.len() - k,
        {
            let mle = &self.flattened_ml_extensions[k];
            if !mle.is_well_formed() || mle.num_vars != self.aux_info.num_variables {
                assert(!(self.flattened_ml_extensions@[k as int].wf()
                    && self.flattened_ml_extensions@[k as int].num_vars
                    == self.aux_info.num_variables));
                return false;
            }
            k = k + 1;
        }
        let mut k: usize = 0;
        while k < self.products.len()
            invariant
                0 <= k <= self.products@.len(),
                forall|i: int|
                    0 <= i < k ==> 0 < (#[trigger] self.products@[i]).1@.len()
                        <= self.aux_info.max_degree,
                forall|i: int, j: int|
                    0 <= i < k && 0 <= j < self.products@[i].1@.len() ==> (
                    #[trigger] self.products@[i].1@[j]) < self.flattened_ml_extensions@.len(),
            decreases self.products.len() - k,
        {
            let factors = &self.products[k].1;
            if factors.len() == 0 || factors.len() > self.aux_info.max_degree {
                assert(!(0 < self.products@[k as int].1@.len() <= self.aux_info.max_degree));
                return false;
            }
            let mut j: usize = 0;
            while j < factors.len()
                invariant
                    0 <= j <= factors@.len(),
                    0 <= k < self.products@.len(),
                    factors@ == self.products@[k as int].1@,
                    forall|i: int|
                        0 <= i < j ==> (#[trigger] self.products@[k as int].1@[i])
                            < self.flattened_ml_extensions@.len(),
                decreases factors.len() - j,
            {
                if factors[j] >= self.flattened_ml_extensions.len() {
                    assert(self.products@[k as int].1@[j as int]
                        >= self.flattened_ml_extensions@.len());
                    return false;
                }
                j = j + 1;
            }
            k = k + 1;
        }
        true
    }

    /// The same polynomial: the same sizes, products and list.
    pub open spec fn same(self, other: Self) -> bool {
        &&& self.aux_info == other.aux_info
        &&& self.products@.len() == other.products@.len()
        &&& forall|k: int|
            0 <= k < self.products@.len() ==> (#[trigger] self.products@[k]).0
                == other.products@[k].0 && self.products@[k].1@ == other.products@[k].1@
        &&& self.flattened_ml_extensions@ == other.flattened_ml_extensions@
    }

    pub proof fn lemma_same(self, other: Self, vars: nat)
        requires
            self.same(other),
        ensures
            self.shaped(vars) == other.shaped(vars),
            self.terms() == other.terms(),
            self.tables() == other.tables(),
    {
        assert(self.terms() =~= other.terms());
        assert(forall|k: int|
            0 <= k < self.products@.len() ==> (#[trigger] other.products@[k]).1@
                == self.products@[k].1@);
        if self.shaped(vars) {
            assert forall|k: int, j: int|
                0 <= k < other.products@.len() && 0 <= j < other.products@[k].1@.len() implies (
            #[trigger] other.products@[k].1@[j]) < other.flattened_ml_extensions@.len() by {
                assert(self.products@[k].1@[j] < self.flattened_ml_extensions@.len());
            }
        }
        if other.shaped(vars) {
            assert forall|k: int, j: int|
                0 <= k < self.products@.len() && 0 <= j < self.products@[k].1@.len() implies (
            #[trigger] self.products@[k].1@[j]) < self.flattened_ml_extensions@.len() by {
                assert(other.products@[k].1@[j] < other.flattened_ml_extensions@.len());
            }
        }
    }

    /// An equal polynomial that shares the list's entries.
    pub fn copy(&self) -> (r: Self)
        ensures
            r.same(*self),
    {
        let mut products: Vec<(F, Vec<usize>)> = Vec::with_capacity(self.products.len());
        let mut k: usize = 0;
        while k < self.products.len()
            invariant
                0 <= k <= self.products@.len(),
                products@.len() == k,
                forall|i: int|
                    0 <= i < k ==> (#[trigger] products@[i]).0 == self.products@[i].0
                        && products@[i].1@ == self.products@[i].1@,
            decreases self.products.len() - k,
        {
            products.push((self.products[k].0, copy_indices(&self.products[k].1)));
            k = k + 1;
        }
        let mut list: Vec<Arc<DenseMultilinearExtension<F>>> = Vec::with_capacity(
            self.flattened_ml_extensions.len(),
        );
        let mut k: usize = 0;
        while k < self.flattened_ml_extensions.len()
            invariant
                0 <= k <= self.flattened_ml_extensions@.len(),
                list@ == self.flattened_ml_extensions@.subrange(0, k as int),
            decreases self.flattened_ml_extensions.len() - k,
        {
            list.push(self.flattened_ml_extensions[k].clone());
            k = k + 1;
        }
        assert(self.flattened_ml_extensions@.subrange(0, k as int)
            =~= self.flattened_ml_extensions@);
        VirtualPolynomial { aux_info: self.aux_info, products, flattened_ml_extensions: list }
    }

    /// `after` is this polynomial with one more product, of the listed
    /// polynomials.
    pub open spec fn is_added(
        self,
        after: Self,
        mle_list: Seq<Arc<DenseMultilinearExtension<F>>>,
        coefficient: F,
    ) -> bool {
        let n = self.flattened_ml_extensions@.len() as int;
        &&& after.wf()
        &&& after.aux_info.num_variables == self.aux_info.num_variables
        &&& n <= after.flattened_ml_extensions@.len()
        &&& after.flattened_ml_extensions@.subrange(0, n) == self.flattened_ml_extensions@
        &&& after.products@.len() == self.products@.len() + 1
        &&& after.products@.drop_last() == self.products@
        &&& after.products@.last().0 == coefficient
        &&& after.products@.last().1@.len() == mle_list.len()
        &&& forall|j: int|
            0 <= j < mle_list.len() ==> *after.flattened_ml_extensions@[(
            #[trigger] after.products@.last().1@[j]) as int] == *mle_list[j]
    }

    /// Adds `coefficient` times the product of the listed polynomials. A
    /// polynomial that is in the list already, as the same allocation, is not
    /// stored again.
    pub fn add_mle_list(
        &mut self,
        mle_list: &[Arc<DenseMultilinearExtension<F>>],
        coefficient: F,
    ) -> (r: Result<(), ArithErrors>)
        requires
            old(self).wf(),
            mle_list@.len() < usize::MAX,
            forall|j: int| 0 <= j < mle_list@.len() ==> (#[trigger] mle_list@[j]).wf(),
        ensures
            r is Ok <==> {
                &&& mle_list@.len() > 0
                &&& forall|j: int|
                    0 <= j < mle_list@.len() ==> (#[trigger] mle_list@[j]).num_vars == old(
                        self,
                    ).aux_info.num_variables
            },
            r matches Err(e) ==> *final(self) == *old(self) && (if mle_list@.len() == 0 {
                e.is_invalid_parameters("input mle_list is empty"@)
            } else {
                exists|j: int|
                    0 <= j < mle_list@.len() && (#[trigger] mle_list@[j]).num_vars != old(
                        self,
                    ).aux_info.num_variables && e.is_invalid_parameters(
                        wrong_multiplicand_text(
                            mle_list@[j].num_vars as nat,
                            old(self).aux_info.num_variables as nat,
                        ),
                    ) && (forall|i: int|
                        0 <= i < j ==> (#[trigger] mle_list@[i]).num_vars == old(
                            self,
                        ).aux_info.num_variables)
            }),
            r is Ok ==> final(self).wf(),
            r is Ok ==> final(self).aux_info.num_variables == old(self).aux_info.num_variables,
            r is Ok ==> final(self).aux_info.max_degree == if old(self).aux_info.max_degree
                >= mle_list@.len() {
                old(self).aux_info.max_degree as int
            } else {
                mle_list@.len() as int
            },
            r is Ok ==> old(self).flattened_ml_extensions@.len()
                <= final(self).flattened_ml_extensions@.len()
                && final(self).flattened_ml_extensions@.subrange(
                0,
                old(self).flattened_ml_extensions@.len() as int,
            ) == old(self).flattened_ml_extensions@,
            r is Ok ==> final(self).products@.len() == old(self).products@.len() + 1
                && final(self).products@.drop_last() == old(self).products@
                && final(self).products@.last().0 == coefficient
                && final(self).products@.last().1@.len() == mle_list@.len(),
            r is Ok ==> forall|j: int|
                0 <= j < mle_list@.len() ==> *final(self).flattened_ml_extensions@[(
                #[trigger] final(self).products@.last().1@[j]) as int] == *mle_list@[j],
            r is Ok ==> old(self).is_added(*final(self), mle_list@, coefficient),
    {
        if mle_list.len() == 0 {
            return Err(ArithErrors::InvalidParameters("input mle_list is empty".to_string()));
        }
        let mut j: usize = 0;
        while j < mle_list.len()
            invariant
                0 <= j <= mle_list@.len(),
                *self == *old(self),
                forall|i: int|
                    0 <= i < j ==> (#[trigger] mle_list@[i]).num_vars
                        == self.aux_info.num_variables,
            decreases mle_list.len() - j,
        {
            if mle_list[j].num_vars != self.aux_info.num_variables {
                return Err(
                    ArithErrors::InvalidParameters(
                        wrong_multiplicand(mle_list[j].num_vars, self.aux_info.num_variables),
                    ),
                );
            }
            j = j + 1;
        }
        if self.aux_info.max_degree < mle_list.len() {
            self.aux_info.max_degree = mle_list.len();
        }
        let ghost before = self.flattened_ml_extensions@;
        let ghost products = self.products@;
        let ghost n = self.aux_info.num_variables;
        let mut product: Vec<usize> = Vec::with_capacity(mle_list.len());
        let mut k: usize = 0;
        while k < mle_list.len()
            invariant
                0 <= k <= mle_list@.len(),
                product@.len() == k,
                self.products@ == products,
                self.aux_info.num_variables == n,
                self.aux_info.max_degree == old(self).aux_info.max_degree
                    || self.aux_info.max_degree == mle_list@.len(),
                self.aux_info.max_degree >= old(self).aux_info.max_degree,
                self.aux_info.max_degree >= mle_list@.len(),
                self.shaped(n as nat),
                before.len() <= self.flattened_ml_extensions@.len(),
                self.flattened_ml_extensions@.subrange(0, before.len() as int) == before,
                forall|i: int|
                    0 <= i < mle_list@.len() ==> (#[trigger] mle_list@[i]).wf()
                        && mle_list@[i].num_vars == n,
                forall|i: int|
                    0 <= i < k ==> (#[trigger] product@[i]) < self.flattened_ml_extensions@.len()
                        && *self.flattened_ml_extensions@[product@[i] as int] == *mle_list@[i],
            decreases mle_list.len() - k,
        {
            let mle = &mle_list[k];
            let index = self.position_of(mle);
            if index == self.flattened_ml_extensions.len() {
                let ghost list = self.flattened_ml_extensions@;
                self.flattened_ml_extensions.push(mle.clone());
                assert(self.flattened_ml_extensions@.subrange(0, before.len() as int)
                    =~= list.subrange(0, before.len() as int));
                assert(forall|i: int| 0 <= i < list.len() ==> self.flattened_ml_extensions@[i]
                    == list[i]);
            }
            product.push(index);
            k = k + 1;
        }
        let ghost factors = product@;
        self.products.push((coefficient, product));
        assert(self.products@.drop_last() =~= products);
        Ok(())
    }

    /// The place of a polynomial that is the same allocation as `mle`, or the
    /// number of polynomials if there is none.
    fn position_of(&self, mle: &Arc<DenseMultilinearExtension<F>>) -> (r: usize)
        ensures
            r <= self.flattened_ml_extensions@.len(),
            r < self.flattened_ml_extensions@.len() ==> *self.flattened_ml_extensions@[r as int]
                == **mle,
    {
        let mut i: usize = 0;
        while i < self.flattened_ml_extensions.len()
            invariant
                0 <= i <= self.flattened_ml_extensions@.len(),
            decreases self.flattened_ml_extensions.len() - i,
        {
            if same_allocation(&self.flattened_ml_extensions[i], mle) {
                return i;
            }
            i = i + 1;
        }
        i
    }
}

/// The text of the error for a multiplicand in the wrong number of variables.
fn wrong_multiplicand(found: usize, expected: usize) -> (r: String)
    ensures
        r@ == wrong_multiplicand_text(found as nat, expected as nat),
{
    let head = "product has a multiplicand with wrong number of variables ".to_string();
    let text = head.concat(crate::text::decimal_text(found).as_str());
    let text = text.concat(" vs ");
    text.concat(crate::text::decimal_text(expected).as_str())
}

} // verus!
