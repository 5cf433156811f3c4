//! Batch openings by the sum-check protocol.

use crate::arithmetic::dense::{
    index_bits, lemma_power_below_word, power_of_two, repeated, DenseMultilinearExtension,
};
use crate::arithmetic::eq::build_eq_x_r_vec;
use crate::errors::PCSError;
use crate::field::{vals, PrimeField};
use crate::math::boolean::{
    all_bits, bit_prefix, decode, is_bit, lemma_bit_prefix, lemma_decode_bound, lemma_decode_push,
    lemma_eq_at_prefix,
};
use crate::math::modular::{eqm, lemma_eqm_add, lemma_eqm_mul, lemma_eqm_residue, residues};
use crate::math::multilinear::{
    eq_at, eq_points, eq_table, lemma_mle_eq_table, lemma_mle_weighted_sum, mle,
};
use crate::math::sums::{lemma_sum_ext, sum};
use crate::math::terms::lemma_weighted_table;
use std::sync::Arc;
use vstd::arithmetic::div_mod::{lemma_mod_twice, lemma_small_mod};
use vstd::arithmetic::power2::{
    lemma_pow2_adds, lemma_pow2_pos, lemma_pow2_strictly_increases, pow2,
};
use vstd::prelude::*;

verus! {

/// The vertex whose bits are the first `prefix_len` coordinates.
pub fn decode_boolean_prefix_index<F: PrimeField>(point: &[F], prefix_len: usize) -> (r: usize)
    requires
        prefix_len <= point@.len() ==> prefix_len <= usize::BITS && all_bits(
            vals(point@).take(prefix_len as int),
        ),
        prefix_len > point@.len() ==> point@.len() <= usize::BITS && all_bits(vals(point@)),
    ensures
        prefix_len <= point@.len() ==> r == decode(vals(point@).take(prefix_len as int)),
        prefix_len > point@.len() ==> r == decode(vals(point@)),
{
    let ghost xs = vals(point@);
    let count = if prefix_len < point.len() {
        prefix_len
    } else {
        point.len()
    };
    let ghost head = xs.take(count as int);
    proof {
        if prefix_len > point@.len() {
            assert(head =~= xs);
        }
    }
    let mut index: usize = 0;
    let mut bit: usize = 0;
    assert(head.take(0) =~= Seq::<int>::empty());
    while bit < count
        invariant
            0 <= bit <= count,
            count <= point@.len(),
            count <= usize::BITS,
            xs == vals(point@),
            head == xs.take(count as int),
            all_bits(head),
            index == decode(head.take(bit as int)),
        decreases count - bit,
    {
        proof {
            let before = head.take(bit as int);
            assert(head.take(bit + 1) =~= before.push(head[bit as int]));
            assert forall|i: int| 0 <= i < before.len() implies is_bit(#[trigger] before[i]) by {
                assert(is_bit(head[i]));
            }
            lemma_decode_bound(before);
            lemma_decode_push(before, head[bit as int]);
            lemma_power_below_word(bit as nat);
            assert(is_bit(head[bit as int]));
            vstd::arithmetic::power2::lemma2_to64();
            vstd::arithmetic::power2::lemma2_to64_rest();
            if bit < usize::BITS - 1 {
                lemma_pow2_strictly_increases(bit as nat, (usize::BITS - 1) as nat);
            }
        }
        if point[bit].is_one() {
            index = index + power_of_two(bit);
        }
        bit = bit + 1;
    }
    assert(head.take(count as int) =~= head);
    index
}

/// The number of coordinates before the first that is neither 0 nor 1.
pub fn leading_boolean_prefix_len<F: PrimeField>(point: &[F]) -> (r: usize)
    ensures
        r == bit_prefix(vals(point@)),
        r <= point@.len(),
        all_bits(vals(point@).take(r as int)),
{
    let ghost xs = vals(point@);
    let mut i: usize = 0;
    while i < point.len() && (point[i].is_zero() || point[i].is_one())
        invariant
            0 <= i <= point@.len(),
            xs == vals(point@),
            forall|k: int| 0 <= k < i ==> is_bit(#[trigger] xs[k]),
        decreases point.len() - i,
    {
        i = i + 1;
    }
    proof {
        let head = xs.take(i as int);
        assert forall|k: int| 0 <= k < head.len() implies is_bit(#[trigger] head[k]) by {
            assert(is_bit(xs[k]));
        }
        lemma_bit_prefix(xs, i as int);
    }
    i
}

/// What a point adds, for a coefficient of one, to the table of equality
/// values in `num_var` variables at the vertex `x`. A point in `num_var`
/// coordinates adds its equality value. Of a longer one whose first `num_var`
/// coordinates are bits only those count; a shorter one adds nothing beyond
/// its own table.
pub open spec fn weight_at(num_var: nat, point: Seq<int>, x: int) -> int {
    if bit_prefix(point) == num_var {
        eq_at(point.take(num_var as int), x)
    } else if x < pow2(point.len()) {
        eq_at(point, x)
    } else {
        0
    }
}

/// A point without an equality table: its coordinates are all bits and they
/// are not `num_var` in number.
pub open spec fn has_no_table(num_var: nat, point: Seq<int>) -> bool {
    point.len() != num_var && bit_prefix(point) == point.len()
}

/// A point whose table fits in the table of `num_var` variables, and in a
/// word.
pub open spec fn table_fits(num_var: nat, point: Seq<int>) -> bool {
    ||| bit_prefix(point) == num_var
    ||| point.len() <= num_var
    ||| bit_prefix(point) == 0 && pow2(point.len()) <= usize::MAX
}

/// The weight of a list's point `i`.
pub open spec fn coefficient_of<F: PrimeField>(weighted: Seq<(F, &[F])>, i: int) -> int {
    weighted[i].0.val()
}

/// The coordinates of a list's point `i`.
pub open spec fn point_of<F: PrimeField>(weighted: Seq<(F, &[F])>, i: int) -> Seq<int> {
    vals(weighted[i].1@)
}

/// Point `i` counts and has no table.
pub open spec fn is_bad<F: PrimeField>(
    num_var: nat,
    weighted: Seq<(F, &[F])>,
    i: int,
) -> bool {
    0 <= i < weighted.len() && coefficient_of(weighted, i) != 0 && has_no_table(
        num_var,
        point_of(weighted, i),
    )
}

/// The sum of what the first `m` points add at the vertex `x`.
pub open spec fn weights_at<F: PrimeField>(
    num_var: nat,
    weighted: Seq<(F, &[F])>,
    x: int,
    m: int,
) -> int {
    sum(|i: int| coefficient_of(weighted, i) * weight_at(num_var, point_of(weighted, i), x), 0, m)
}

/// Adds `coeff` times what a point adds to every value of a table.
fn add_weighted_point<F: PrimeField>(
    evaluations: &mut Vec<F>,
    num_var: usize,
    coeff: F,
    point: &[F],
) -> (r: Result<(), PCSError>)
    requires
        num_var < usize::BITS,
        old(evaluations)@.len() == pow2(num_var as nat),
        !has_no_table(num_var as nat, vals(point@)) ==> table_fits(num_var as nat, vals(point@)),
    ensures
        r is Err <==> has_no_table(num_var as nat, vals(point@)),
        r matches Err(e) ==> e.is_invalid_parameters("Invalid parameters: r length is 0"@),
        final(evaluations)@.len() == old(evaluations)@.len(),
        r is Ok ==> forall|x: int|
            0 <= x < old(evaluations)@.len() ==> (#[trigger] final(evaluations)@[x]).val() == (old(
                evaluations,
            )@[x].val() + coeff.val() * weight_at(num_var as nat, vals(point@), x)) % F::modulus(),
{
    let ghost p = F::modulus();
    let ghost xs = vals(point@);
    let ghost n = num_var as nat;
    let ghost c = coeff.val();
    let ghost before = evaluations@;
    let ghost size = pow2(n) as int;
    proof {
        F::lemma_modulus();
        F::lemma_val();
        lemma_power_below_word(n);
    }
    let prefix_len = leading_boolean_prefix_len(point);
    let ghost k = prefix_len as int;
    let ghost head = xs.take(k);
    proof {
        lemma_decode_bound(head);
    }
    if prefix_len == num_var {
        let index = decode_boolean_prefix_index(point, prefix_len);
        let value = evaluations[index].add(coeff);
        evaluations.set(index, value);
        proof {
            assert forall|x: int| 0 <= x < size implies (#[trigger] evaluations@[x]).val() == (
            before[x].val() + c * weight_at(n, xs, x)) % p by {
                assert(head.take(k) =~= head);
                lemma_eq_at_prefix(head, k, x);
                lemma_small_mod(x as nat, size as nat);
                assert(head.skip(k) =~= Seq::<int>::empty());
                assert(c * 1 == c && c * 0 == 0);
                lemma_small_mod(before[x].val() as nat, p as nat);
            }
        }
        return Ok(());
    }
    let suffix = &point[prefix_len..point.len()];
    let ghost ss = xs.skip(k);
    assert(vals(suffix@) =~= ss);
    proof {
        if prefix_len < point@.len() {
            if point@.len() <= num_var {
                if ss.len() < n {
                    lemma_pow2_strictly_increases(ss.len(), n);
                }
            }
        } else {
            vstd::arithmetic::power2::lemma2_to64();
        }
    }
    let table = match build_eq_x_r_vec(suffix) {
        Ok(table) => table,
        Err(_) => {
            return Err(
                PCSError::InvalidParameters("Invalid parameters: r length is 0".to_string()),
            );
        },
    };
    proof {
        if prefix_len > 0 {
            if k < n {
                lemma_pow2_strictly_increases(k as nat, n);
            }
            lemma_power_below_word(k as nat);
        }
        lemma_pow2_pos(k as nat);
        lemma_pow2_pos(n);
        vstd::arithmetic::power2::lemma2_to64();
        lemma_pow2_adds(k as nat, ss.len());
        lemma_pow2_pos(ss.len());
    }
    let prefix_index = decode_boolean_prefix_index(point, prefix_len);
    let stride = power_of_two(prefix_len);
    let domain_size = evaluations.len();
    let ghost q = stride as int;
    let ghost d = prefix_index as int;
    assert(vals(table@).len() == pow2(ss.len()));
    proof {
        assert forall|x: int| 0 <= x < size implies (#[trigger] before[x]).val() == before[x].val()
            % p && x / q >= 0 by {
            lemma_small_mod(before[x].val() as nat, p as nat);
            vstd::arithmetic::div_mod::lemma_div_pos_is_pos(x, q);
        }
    }
    let mut position: usize = prefix_index;
    let mut s: usize = 0;
    while s < table.len() && position < domain_size
        invariant
            0 <= s <= table@.len(),
            p == F::modulus(),
            p > u64::MAX,
            forall|x: F| 0 <= #[trigger] x.val() < p,
            xs == vals(point@),
            0 <= k <= xs.len(),
            c == coeff.val(),
            head == xs.take(k),
            all_bits(head),
            ss == xs.skip(k),
            q == stride,
            q == pow2(k as nat),
            d == decode(head),
            0 <= d < q,
            q <= size,
            domain_size == size,
            2 * size <= usize::MAX + 1,
            vals(table@) == residues(p, eq_table(ss)),
            position == d + s * q,
            position < size + q,
            evaluations@.len() == size,
            before.len() == size,
            forall|x: int|
                0 <= x < size ==> (#[trigger] evaluations@[x]).val() == (before[x].val() + (if x % q
                    == d && x / q < s {
                    c * eq_at(xs, x)
                } else {
                    0
                })) % p,
        decreases table.len() - s,
    {
        let value = evaluations[position].add(coeff.mul(table[s]));
        proof {
            broadcast use lemma_mod_twice;

            let y = position as int;
            lemma_place(d, s as int, q, y);
            lemma_eq_at_prefix(xs, k, y);
            let e = eq_at(ss, s as int);
            assert(vals(table@).len() == eq_table(ss).len());
            assert(vals(table@)[s as int] == eq_table(ss)[s as int] % p);
            lemma_eqm_mul(p, c, c, e % p, e);
            let b = before[y].val();
            lemma_small_mod(b as nat, p as nat);
            lemma_eqm_add(p, b, b, (c * (e % p)) % p, c * e);
            assert(value.val() == (b + c * eq_at(xs, y)) % p);
            assert forall|x: int| 0 <= x < size implies (#[trigger] evaluations@.update(
                y,
                value,
            )[x]).val() == (before[x].val() + (if x % q == d && x / q < s + 1 {
                c * eq_at(xs, x)
            } else {
                0
            })) % p by {
                assert(evaluations@[x].val() == (before[x].val() + (if x % q == d && x / q < s {
                    c * eq_at(xs, x)
                } else {
                    0
                })) % p);
                if x != y && x % q == d && x / q == s {
                    vstd::arithmetic::div_mod::lemma_fundamental_div_mod(x, q);
                    assert(q * (s as int) == s as int * q) by (nonlinear_arith);
                }
            }
            assert((s + 1) * q == s * q + q) by (nonlinear_arith);
        }
        evaluations.set(position, value);
        position = position + stride;
        s = s + 1;
    }
    proof {
        assert forall|x: int| 0 <= x < size implies (#[trigger] evaluations@[x]).val() == (
        before[x].val() + c * weight_at(n, xs, x)) % p by {
            lemma_eq_at_prefix(xs, k, x);
            assert(c * 0 == 0);
            if x % q == d {
                lemma_reached(x, q, d, s as int, table@.len() as int, position as int, size);
            }
        }
    }
    Ok(())
}

/// The place `d + s * q` has the low part `d` and the high part `s`.
proof fn lemma_place(d: int, s: int, q: int, x: int)
    requires
        0 <= d < q,
        0 <= s,
        x == d + s * q,
    ensures
        x % q == d,
        x / q == s,
        x >= 0,
{
    assert(s * q >= 0) by (nonlinear_arith)
        requires
            s >= 0,
            q > 0,
    ;
    vstd::arithmetic::div_mod::lemma_fundamental_div_mod_converse(x, q, s, d);
}

/// Where the walk over the places ended, every place of the table has been
/// reached.
proof fn lemma_reached(x: int, q: int, d: int, s: int, len: int, position: int, size: int)
    requires
        0 <= d < q,
        0 <= s <= len,
        0 <= x < size,
        x % q == d,
        position == d + s * q,
        s >= len || position >= size,
    ensures
        x / q < s <==> x < q * len,
{
    vstd::arithmetic::div_mod::lemma_fundamental_div_mod(x, q);
    let h = x / q;
    assert(x == q * h + d);
    if h < s {
        assert(q * h + d < q * len) by (nonlinear_arith)
            requires
                h < s,
                s <= len,
                0 <= d < q,
        ;
    } else {
        if s >= len {
            assert(q * h >= q * len) by (nonlinear_arith)
                requires
                    h >= len,
                    q > 0,
            ;
        } else {
            assert(q * h >= s * q) by (nonlinear_arith)
                requires
                    h >= s,
                    q > 0,
            ;
        }
    }
}

/// The table of the weighted sum of the points' equality polynomials.
pub fn build_weighted_eq_mle<F: PrimeField>(
    num_var: usize,
    weighted_points: &[(F, &[F])],
) -> (r: Result<Arc<DenseMultilinearExtension<F>>, PCSError>)
    requires
        index_bits(num_var) < usize::BITS ==> num_var < usize::BITS,
        forall|i: int|
            0 <= i < weighted_points@.len() && #[trigger] coefficient_of(weighted_points@, i) != 0
                && (forall|j: int| 0 <= j <= i ==> !#[trigger] is_bad(
                num_var as nat,
                weighted_points@,
                j,
            )) ==> table_fits(num_var as nat, point_of(weighted_points@, i)),
    ensures
        r is Ok <==> index_bits(num_var) < usize::BITS && forall|i: int| !#[trigger] is_bad(
            num_var as nat,
            weighted_points@,
            i,
        ),
        r matches Err(e) ==> if index_bits(num_var) >= usize::BITS {
            e.is_invalid_parameters("too many variables for equality table"@)
        } else {
            e.is_invalid_parameters("Invalid parameters: r length is 0"@)
        },
        r matches Ok(mle) ==> {
            &&& mle.wf()
            &&& mle.num_vars == num_var
            &&& forall|x: int|
                0 <= x < pow2(num_var as nat) ==> (#[trigger] mle.table()[x]) == weights_at(
                    num_var as nat,
                    weighted_points@,
                    x,
                    weighted_points@.len() as int,
                ) % F::modulus()
        },
{
    #[verifier::truncate]
    let bits = num_var as u32;
    if bits >= usize::BITS {
        return Err(
            PCSError::InvalidParameters("too many variables for equality table".to_string()),
        );
    }
    let ghost p = F::modulus();
    let ghost n = num_var as nat;
    proof {
        F::lemma_modulus();
        F::lemma_val();
        lemma_power_below_word(n);
        lemma_small_mod(0, p as nat);
    }
    let domain_size = power_of_two(num_var);
    let mut evaluations = repeated(F::zero(), domain_size);
    let mut i: usize = 0;
    while i < weighted_points.len()
        invariant
            0 <= i <= weighted_points@.len(),
            p == F::modulus(),
            p > u64::MAX,
            forall|x: F| 0 <= #[trigger] x.val() < p,
            n == num_var,
            n < usize::BITS,
            index_bits(num_var) < usize::BITS,
            forall|k: int|
                0 <= k < weighted_points@.len() && #[trigger] coefficient_of(weighted_points@, k)
                    != 0 && (forall|j: int| 0 <= j <= k ==> !#[trigger] is_bad(
                    n,
                    weighted_points@,
                    j,
                )) ==> table_fits(n, point_of(weighted_points@, k)),
            forall|j: int| 0 <= j < i ==> !#[trigger] is_bad(n, weighted_points@, j),
            evaluations@.len() == pow2(n),
            forall|x: int|
                0 <= x < pow2(n) ==> (#[trigger] evaluations@[x]).val() == weights_at(
                    n,
                    weighted_points@,
                    x,
                    i as int,
                ) % p,
        decreases weighted_points.len() - i,
    {
        let (coeff, point) = weighted_points[i];
        let ghost before = evaluations@;
        let ghost (c, xs) = (coeff.val(), vals(point@));
        assert(c == coefficient_of(weighted_points@, i as int));
        assert(xs == point_of(weighted_points@, i as int));
        if !coeff.is_zero() {
            proof {
                if !has_no_table(n, xs) {
                    assert(!is_bad(n, weighted_points@, i as int));
                    assert(forall|j: int| 0 <= j <= i ==> !#[trigger] is_bad(
                        n,
                        weighted_points@,
                        j,
                    ));
                }
            }
            match add_weighted_point(&mut evaluations, num_var, coeff, point) {
                Ok(_) => {},
                Err(e) => {
                    assert(is_bad(n, weighted_points@, i as int));
                    return Err(e);
                },
            }
        }
        proof {
            assert forall|x: int| 0 <= x < pow2(n) implies (#[trigger] evaluations@[x]).val()
                == weights_at(n, weighted_points@, x, i + 1) % p by {
                let w = weights_at(n, weighted_points@, x, i as int);
                let e = c * weight_at(n, xs, x);
                assert(before[x].val() == w % p);
                assert(weights_at(n, weighted_points@, x, i + 1) == w + e);
                if c == 0 {
                    assert(0 * weight_at(n, xs, x) == 0);
                } else {
                    lemma_eqm_residue(p, w);
                    lemma_eqm_add(p, w % p, w, e, e);
                }
            }
        }
        i = i + 1;
    }
    Ok(Arc::new(DenseMultilinearExtension::from_evaluations_vec(num_var, evaluations)))
}

/// The sum of the first `m` polynomials, each times its coefficient, at the
/// vertex `x`.
pub open spec fn scaled_sum_at<F: PrimeField>(
    terms: Seq<(F, &DenseMultilinearExtension<F>)>,
    x: int,
    m: int,
) -> int {
    sum(|i: int| terms[i].0.val() * terms[i].1.table()[x], 0, m)
}

/// The sum of polynomials, each times its coefficient.
pub fn fused_scaled_sum_dense_mles<F: PrimeField>(
    num_var: usize,
    terms: &[(F, &DenseMultilinearExtension<F>)],
) -> (r: Arc<DenseMultilinearExtension<F>>)
    requires
        pow2(num_var as nat) <= usize::MAX,
        forall|i: int|
            0 <= i < terms@.len() ==> (#[trigger] terms@[i]).1.wf() && terms@[i].1.num_vars
                == num_var,
    ensures
        r.wf(),
        r.num_vars == num_var,
        forall|x: int|
            0 <= x < pow2(num_var as nat) ==> (#[trigger] r.table()[x]) == scaled_sum_at(
                terms@,
                x,
                terms@.len() as int,
            ) % F::modulus(),
{
    let ghost p = F::modulus();
    let ghost n = num_var as nat;
    proof {
        F::lemma_modulus();
        F::lemma_val();
        lemma_small_mod(0, p as nat);
    }
    let size = power_of_two(num_var);
    let mut evaluations = repeated(F::zero(), size);
    let mut i: usize = 0;
    while i < terms.len()
        invariant
            0 <= i <= terms@.len(),
            p == F::modulus(),
            p > u64::MAX,
            n == num_var,
            size == pow2(n),
            forall|k: int|
                0 <= k < terms@.len() ==> (#[trigger] terms@[k]).1.wf() && terms@[k].1.num_vars
                    == num_var,
            evaluations@.len() == size,
            forall|x: int|
                0 <= x < size ==> (#[trigger] evaluations@[x]).val() == scaled_sum_at(
                    terms@,
                    x,
                    i as int,
                ) % p,
        decreases terms.len() - i,
    {
        let (coeff, poly) = terms[i];
        let ghost c = coeff.val();
        let ghost before = evaluations@;
        assert(terms@[i as int].1.wf());
        if !coeff.is_zero() {
            let mut x: usize = 0;
            while x < size
                invariant
                    0 <= x <= size,
                    p == F::modulus(),
                    p > u64::MAX,
                    i < terms@.len(),
                    c == coeff.val(),
                    c == terms@[i as int].0.val(),
                    *poly == *terms@[i as int].1,
                    poly.evaluations@.len() == size,
                    before.len() == size,
                    evaluations@.len() == size,
                    forall|y: int|
                        0 <= y < size ==> (#[trigger] before[y]).val() == scaled_sum_at(
                            terms@,
                            y,
                            i as int,
                        ) % p,
                    forall|y: int| x <= y < size ==> #[trigger] evaluations@[y] == before[y],
                    forall|y: int|
                        0 <= y < x ==> (#[trigger] evaluations@[y]).val() == scaled_sum_at(
                            terms@,
                            y,
                            i + 1,
                        ) % p,
                decreases size - x,
            {
                let value = evaluations[x].add(poly.evaluations[x].mul(coeff));
                proof {
                    broadcast use lemma_mod_twice;

                    let y = x as int;
                    let v = poly.evaluations@[y].val();
                    let w = scaled_sum_at(terms@, y, i as int);
                    assert(before[y].val() == w % p);
                    lemma_eqm_add(p, w % p, w, (v * c) % p, v * c);
                    assert(v * c == c * v) by (nonlinear_arith);
                    assert(terms@[i as int].1.table()[y] == v);
                }
                evaluations.set(x, value);
                x = x + 1;
            }
        } else {
            proof {
                assert forall|y: int| 0 <= y < size implies (#[trigger] evaluations@[y]).val()
                    == scaled_sum_at(terms@, y, i + 1) % p by {
                    assert(0 * terms@[i as int].1.table()[y] == 0);
                    assert(before[y].val() == scaled_sum_at(terms@, y, i as int) % p);
                }
            }
        }
        i = i + 1;
    }
    Arc::new(DenseMultilinearExtension::from_evaluations_vec(num_var, evaluations))
}

/// The scaled sum of polynomials is a sum of polynomials: at every point it has
/// the scaled sum of their values.
pub proof fn lemma_scaled_sum_value<F: PrimeField>(
    terms: Seq<(F, &DenseMultilinearExtension<F>)>,
    e: Seq<int>,
    point: Seq<int>,
)
    requires
        e.len() == pow2(point.len()),
        forall|i: int|
            0 <= i < terms.len() ==> (#[trigger] terms[i]).1.wf() && terms[i].1.num_vars
                == point.len(),
        forall|x: int|
            0 <= x < e.len() ==> (#[trigger] e[x]) == scaled_sum_at(terms, x, terms.len() as int)
                % F::modulus(),
    ensures
        eqm(
            F::modulus(),
            mle(e, point),
            sum(
                |i: int| terms[i].0.val() * mle(terms[i].1.table(), point),
                0,
                terms.len() as int,
            ),
        ),
{
    F::lemma_modulus();
    let p = F::modulus();
    let m = terms.len() as int;
    let size = e.len() as int;
    let row = Seq::new(terms.len(), |i: int| (i, terms[i].0.val()));
    let w = |i: int, x: int| terms[i].1.table()[x];
    let q = |x: int| eq_at(point, x);
    assert forall|x: int| 0 <= x < size implies eqm(
        p,
        #[trigger] e[x],
        sum(|j: int| row[j].1 * w(row[j].0, x), 0, row.len() as int),
    ) by {
        let f = |i: int| terms[i].0.val() * terms[i].1.table()[x];
        let g = |j: int| row[j].1 * w(row[j].0, x);
        lemma_sum_ext(f, g, 0, m);
        lemma_eqm_residue(p, sum(f, 0, m));
    }
    lemma_weighted_table(p, row, w, e, q, size);
    lemma_mle_weighted_sum(e, point);
    lemma_sum_ext(|x: int| e[x] * eq_at(point, x), |x: int| e[x] * q(x), 0, size);
    let a = |j: int| row[j].1 * sum(|x: int| w(row[j].0, x) * q(x), 0, size);
    let b = |i: int| terms[i].0.val() * mle(terms[i].1.table(), point);
    assert forall|i: int| 0 <= i < m implies #[trigger] a(i) == b(i) by {
        let t = terms[i].1.table();
        assert(terms[i].1.wf());
        lemma_mle_weighted_sum(t, point);
        lemma_sum_ext(|x: int| w(row[i].0, x) * q(x), |x: int| t[x] * eq_at(point, x), 0, size);
    }
    lemma_sum_ext(a, b, 0, m);
}

/// The weighted equality table of points in all variables is the scaled sum of
/// their equality polynomials: at every point it has the scaled sum of theirs.
pub proof fn lemma_weighted_eq_value<F: PrimeField>(
    weighted: Seq<(F, &[F])>,
    e: Seq<int>,
    at: Seq<int>,
)
    requires
        e.len() == pow2(at.len()),
        forall|i: int| 0 <= i < weighted.len() ==> (#[trigger] weighted[i]).1@.len() == at.len(),
        forall|x: int|
            0 <= x < e.len() ==> (#[trigger] e[x]) == weights_at(
                at.len(),
                weighted,
                x,
                weighted.len() as int,
            ) % F::modulus(),
    ensures
        eqm(
            F::modulus(),
            mle(e, at),
            sum(
                |i: int| weighted[i].0.val() * eq_points(at, vals(weighted[i].1@)),
                0,
                weighted.len() as int,
            ),
        ),
{
    F::lemma_modulus();
    let p = F::modulus();
    let n = at.len();
    let m = weighted.len() as int;
    let size = e.len() as int;
    let row = Seq::new(weighted.len(), |i: int| (i, weighted[i].0.val()));
    let w = |i: int, x: int| eq_at(vals(weighted[i].1@), x);
    let q = |x: int| eq_at(at, x);
    assert forall|x: int| 0 <= x < size implies eqm(
        p,
        #[trigger] e[x],
        sum(|j: int| row[j].1 * w(row[j].0, x), 0, row.len() as int),
    ) by {
        let f = |i: int|
            coefficient_of(weighted, i) * weight_at(n, point_of(weighted, i), x);
        let g = |j: int| row[j].1 * w(row[j].0, x);
        assert forall|i: int| 0 <= i < m implies #[trigger] f(i) == g(i) by {
            let xs = vals(weighted[i].1@);
            assert(weighted[i].1@.len() == n);
            assert(xs.take(n as int) =~= xs);
        }
        lemma_sum_ext(f, g, 0, m);
        lemma_eqm_residue(p, sum(f, 0, m));
    }
    lemma_weighted_table(p, row, w, e, q, size);
    lemma_mle_weighted_sum(e, at);
    lemma_sum_ext(|x: int| e[x] * eq_at(at, x), |x: int| e[x] * q(x), 0, size);
    let a = |j: int| row[j].1 * sum(|x: int| w(row[j].0, x) * q(x), 0, size);
    let b = |i: int| weighted[i].0.val() * eq_points(at, vals(weighted[i].1@));
    assert forall|i: int| 0 <= i < m implies #[trigger] a(i) == b(i) by {
        let xs = vals(weighted[i].1@);
        assert(weighted[i].1@.len() == n);
        let t = eq_table(xs);
        lemma_mle_weighted_sum(t, at);
        lemma_mle_eq_table(at, xs);
        lemma_sum_ext(|x: int| w(row[i].0, x) * q(x), |x: int| t[x] * eq_at(at, x), 0, size);
    }
    lemma_sum_ext(a, b, 0, m);
}

} // verus!
