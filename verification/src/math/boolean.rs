//! Points with coordinates 0 and 1.

use crate::math::multilinear::{eq_at, lemma_pow2_halves};
use vstd::arithmetic::div_mod::*;
use vstd::arithmetic::power2::{lemma2_to64, pow2};
use vstd::prelude::*;

verus! {

pub open spec fn is_bit(x: int) -> bool {
    x == 0 || x == 1
}

pub open spec fn all_bits(point: Seq<int>) -> bool {
    forall|i: int| 0 <= i < point.len() ==> is_bit(#[trigger] point[i])
}

/// The number of coordinates before the first that is neither 0 nor 1.
pub open spec fn bit_prefix(point: Seq<int>) -> nat
    decreases point.len(),
{
    if point.len() > 0 && is_bit(point[0]) {
        1 + bit_prefix(point.drop_first())
    } else {
        0
    }
}

/// The vertex whose bits are the coordinates, the first the lowest.
pub open spec fn decode(point: Seq<int>) -> int
    decreases point.len(),
{
    if point.len() == 0 {
        0
    } else {
        point[0] + 2 * decode(point.drop_first())
    }
}

/// The `m` lowest bits of `x`, the lowest first: the coordinates of a vertex.
pub open spec fn bits(x: int, m: nat) -> Seq<int>
    decreases m,
{
    if m == 0 {
        Seq::<int>::empty()
    } else {
        seq![x % 2] + bits(x / 2, (m - 1) as nat)
    }
}

pub proof fn lemma_bits_len(x: int, m: nat)
    ensures
        bits(x, m).len() == m,
    decreases m,
{
    if m > 0 {
        lemma_bits_len(x / 2, (m - 1) as nat);
    }
}

pub proof fn lemma_bit_prefix(point: Seq<int>, k: int)
    requires
        0 <= k <= point.len(),
        all_bits(point.take(k)),
        k < point.len() ==> !is_bit(point[k]),
    ensures
        bit_prefix(point) == k,
    decreases k,
{
    if k > 0 {
        let rest = point.drop_first();
        assert(is_bit(point.take(k)[0]));
        assert forall|i: int| 0 <= i < rest.take(k - 1).len() implies is_bit(
            #[trigger] rest.take(k - 1)[i],
        ) by {
            assert(point.take(k)[i + 1] == rest.take(k - 1)[i]);
        }
        lemma_bit_prefix(rest, k - 1);
    }
}

pub proof fn lemma_decode_bound(point: Seq<int>)
    requires
        all_bits(point),
    ensures
        0 <= decode(point) < pow2(point.len()),
    decreases point.len(),
{
    lemma2_to64();
    if point.len() > 0 {
        let rest = point.drop_first();
        assert forall|i: int| 0 <= i < rest.len() implies is_bit(#[trigger] rest[i]) by {
            assert(is_bit(point[i + 1]));
        }
        lemma_decode_bound(rest);
        lemma_pow2_halves(point.len());
        assert(is_bit(point[0]));
    }
}

/// One more coordinate is one more bit on top.
pub proof fn lemma_decode_push(point: Seq<int>, b: int)
    ensures
        decode(point.push(b)) == decode(point) + b * pow2(point.len()),
    decreases point.len(),
{
    lemma2_to64();
    let longer = point.push(b);
    if point.len() == 0 {
        assert(longer.drop_first() =~= Seq::<int>::empty());
        assert(decode(longer.drop_first()) == 0);
        assert(b * 1 == b);
    } else {
        assert(longer.drop_first() =~= point.drop_first().push(b));
        lemma_decode_push(point.drop_first(), b);
        lemma_pow2_halves(point.len());
        let q = pow2((point.len() - 1) as nat) as int;
        assert(2 * (b * q) == b * (2 * q)) by (nonlinear_arith);
    }
}

/// An equality value with a point whose first `k` coordinates are bits: zero
/// at the vertices with other low bits, and elsewhere the equality value of
/// the rest.
pub proof fn lemma_eq_at_prefix(point: Seq<int>, k: int, x: int)
    requires
        0 <= k <= point.len(),
        x >= 0,
        all_bits(point.take(k)),
    ensures
        eq_at(point, x) == if x % (pow2(k as nat) as int) == decode(point.take(k)) {
            eq_at(point.skip(k), x / (pow2(k as nat) as int))
        } else {
            0
        },
    decreases k,
{
    lemma2_to64();
    if k == 0 {
        assert(point.skip(0) =~= point);
        assert(point.take(0) =~= Seq::<int>::empty());
        assert(x % 1 == 0 && x / 1 == x);
    } else {
        let rest = point.drop_first();
        let b = point[0];
        let head = point.take(k);
        assert(is_bit(head[0]));
        assert forall|i: int| 0 <= i < rest.take(k - 1).len() implies is_bit(
            #[trigger] rest.take(k - 1)[i],
        ) by {
            assert(head[i + 1] == rest.take(k - 1)[i]);
        }
        assert(head.drop_first() =~= rest.take(k - 1));
        assert(point.skip(k) =~= rest.skip(k - 1));
        lemma_eq_at_prefix(rest, k - 1, x / 2);
        lemma_pow2_halves(k as nat);
        let q = pow2((k - 1) as nat) as int;
        assert(x / (2 * q) == (x / 2) / q) by {
            lemma_div_denominator(x, 2, q);
        }
        assert(x % (2 * q) == 2 * ((x / 2) % q) + x % 2) by {
            lemma_fundamental_div_mod(x, 2 * q);
            lemma_fundamental_div_mod(x / 2, q);
            lemma_fundamental_div_mod(x, 2);
            let y = x / (2 * q);
            assert((2 * q) * y == 2 * (q * y)) by (nonlinear_arith);
        }
        let e = eq_at(rest, x / 2);
        let factor = if x % 2 == 0 {
            1 - b
        } else {
            b
        };
        assert(eq_at(point, x) == factor * e);
        assert(0 * e == 0 && 1 * e == e);
        assert(factor == 0 || factor == 1);
        if x % 2 != b {
            assert(factor == 0);
        }
    }
}

} // verus!
