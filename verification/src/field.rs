//! Prime fields as the provers see them.

use crate::math::modular::is_inverse;
use vstd::prelude::*;

verus! {

/// The integers modulo a prime that exceeds every `u64`, such as the scalar
/// field of a pairing-friendly curve. An element stands for the integer
/// `val()` in the range `0..modulus()`.
pub trait PrimeField: Sized + Copy {
    spec fn modulus() -> int;

    spec fn val(self) -> int;

    /// The modulus exceeds every `u64`, so `from_u64` is one to one.
    proof fn lemma_modulus()
        ensures
            Self::modulus() > u64::MAX,
    ;

    proof fn lemma_val()
        ensures
            forall|x: Self| 0 <= #[trigger] x.val() < Self::modulus(),
    ;

    fn zero() -> (r: Self)
        ensures
            r.val() == 0,
    ;

    fn one() -> (r: Self)
        ensures
            r.val() == 1,
    ;

    fn from_u64(value: u64) -> (r: Self)
        ensures
            r.val() == value,
    ;

    fn add(self, other: Self) -> (r: Self)
        ensures
            r.val() == (self.val() + other.val()) % Self::modulus(),
    ;

    fn sub(self, other: Self) -> (r: Self)
        ensures
            r.val() == (self.val() - other.val()) % Self::modulus(),
    ;

    /// The product, which is zero only if one of the two is.
    fn mul(self, other: Self) -> (r: Self)
        ensures
            r.val() == (self.val() * other.val()) % Self::modulus(),
            r.val() == 0 ==> self.val() == 0 || other.val() == 0,
    ;

    fn is_zero(self) -> (r: bool)
        ensures
            r == (self.val() == 0),
    ;

    fn is_one(self) -> (r: bool)
        ensures
            r == (self.val() == 1),
    ;

    fn equals(self, other: Self) -> (r: bool)
        ensures
            r == (self.val() == other.val()),
    ;

    /// The multiplicative inverse; `None` for zero.
    fn inverse(self) -> (r: Option<Self>)
        ensures
            r is None <==> self.val() == 0,
            r matches Some(x) ==> is_inverse(Self::modulus(), x.val(), self.val()),
    ;

    /// Replaces every element by its inverse; zeros stay.
    fn batch_inversion(elements: &mut Vec<Self>)
        ensures
            final(elements)@.len() == old(elements)@.len(),
            forall|i: int|
                0 <= i < old(elements)@.len() ==> is_inverse(
                    Self::modulus(),
                    (#[trigger] final(elements)@[i]).val(),
                    old(elements)@[i].val(),
                ),
    ;
}

/// The integers that a sequence of field elements stands for.
pub open spec fn vals<F: PrimeField>(s: Seq<F>) -> Seq<int> {
    Seq::new(s.len(), |i: int| s[i].val())
}

} // verus!
