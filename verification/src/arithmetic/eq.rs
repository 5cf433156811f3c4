//! The equality polynomial's table.

use crate::errors::ArithErrors;
use crate::field::{vals, PrimeField};
use crate::math::modular::{eqm, eqm_seq, lemma_eqm_mul, lemma_eqm_sub, residues};
use crate::math::multilinear::{eq_table, lemma_pow2_halves};
use vstd::arithmetic::div_mod::{lemma_mod_twice, lemma_small_mod};
use vstd::arithmetic::power2::{lemma_pow2_strictly_increases, pow2};
use vstd::prelude::*;

verus! {

/// A table of equality values, extended by a new first coordinate `r`.
pub proof fn lemma_eq_table_extended(r: int, rest: Seq<int>)
    ensures
        eq_table(seq![r] + rest).len() == 2 * eq_table(rest).len(),
        forall|b: int|
            0 <= b < eq_table(rest).len() ==> #[trigger] eq_table(seq![r] + rest)[2 * b] == (1 - r)
                * eq_table(rest)[b],
        forall|b: int|
            0 <= b < eq_table(rest).len() ==> #[trigger] eq_table(seq![r] + rest)[2 * b + 1] == r
                * eq_table(rest)[b],
{
    let point = seq![r] + rest;
    assert(point.drop_first() =~= rest);
    lemma_pow2_halves(point.len());
    assert forall|b: int| 0 <= b < eq_table(rest).len() implies #[trigger] eq_table(point)[2 * b]
        == (1 - r) * eq_table(rest)[b] by {
        assert((2 * b) % 2 == 0 && (2 * b) / 2 == b);
    }
    assert forall|b: int| 0 <= b < eq_table(rest).len() implies #[trigger] eq_table(point)[2 * b
        + 1] == r * eq_table(rest)[b] by {
        assert((2 * b + 1) % 2 == 1 && (2 * b + 1) / 2 == b);
    }
}

/// The values of the equality polynomial with `r` on the Boolean hypercube.
pub fn build_eq_x_r_vec<F: PrimeField>(r: &[F]) -> (res: Result<Vec<F>, ArithErrors>)
    requires
        pow2(r@.len()) <= usize::MAX,
    ensures
        res is Err <==> r@.len() == 0,
        res matches Err(e) ==> e.is_invalid_parameters("r length is 0"@),
        res matches Ok(table) ==> vals(table@) == residues(F::modulus(), eq_table(vals(r@))),
{
    let ghost p = F::modulus();
    let ghost point = vals(r@);
    proof {
        F::lemma_modulus();
        F::lemma_val();
    }
    let n = r.len();
    if n == 0 {
        return Err(ArithErrors::InvalidParameters("r length is 0".to_string()));
    }
    let mut table: Vec<F> = Vec::new();
    table.push(F::one().sub(r[n - 1]));
    table.push(r[n - 1]);
    let mut i: usize = n - 1;
    proof {
        broadcast use lemma_mod_twice;

        let last = point.skip(n - 1);
        assert(last =~= seq![point[n - 1]] + Seq::<int>::empty());
        lemma_eq_table_extended(point[n - 1], Seq::<int>::empty());
        vstd::arithmetic::power2::lemma2_to64();
        let one = eq_table(Seq::<int>::empty());
        assert(one[0] == 1);
        assert(eq_table(last)[2 * 0int] == (1 - point[n - 1]) * one[0]);
        assert(eq_table(last)[2 * 0int + 1] == point[n - 1] * one[0]);
        assert(eqm_seq(p, vals(table@), eq_table(last)));
    }
    while i > 0
        invariant
            0 <= i < n,
            n == r@.len(),
            pow2(n as nat) <= usize::MAX,
            p == F::modulus(),
            p > u64::MAX,
            point == vals(r@),
            table@.len() == pow2((n - i) as nat),
            eqm_seq(p, vals(table@), eq_table(point.skip(i as int))),
        decreases i,
    {
        i = i - 1;
        let ghost rest = point.skip(i + 1);
        let ghost first = point[i as int];
        proof {
            assert(point.skip(i as int) =~= seq![first] + rest);
            lemma_eq_table_extended(first, rest);
            lemma_pow2_halves((n - i) as nat);
            if i > 0 {
                lemma_pow2_strictly_increases((n - i) as nat, n as nat);
            }
        }
        let mut extended: Vec<F> = Vec::with_capacity(2 * table.len());
        let mut b: usize = 0;
        while b < table.len()
            invariant
                0 <= b <= table@.len(),
                i < n,
                n == r@.len(),
                2 * table@.len() <= usize::MAX,
                p == F::modulus(),
                p > u64::MAX,
                point == vals(r@),
                first == point[i as int],
                eqm_seq(p, vals(table@), eq_table(rest)),
                eq_table(seq![first] + rest).len() == 2 * eq_table(rest).len(),
                forall|k: int|
                    0 <= k < eq_table(rest).len() ==> #[trigger] eq_table(seq![first] + rest)[2 * k]
                        == (1 - first) * eq_table(rest)[k],
                forall|k: int|
                    0 <= k < eq_table(rest).len() ==> #[trigger] eq_table(seq![first] + rest)[2 * k
                        + 1] == first * eq_table(rest)[k],
                extended@.len() == 2 * b,
                forall|x: int|
                    0 <= x < 2 * b ==> eqm(
                        p,
                        (#[trigger] extended@[x]).val(),
                        eq_table(seq![first] + rest)[x],
                    ),
            decreases table.len() - b,
        {
            let value = table[b];
            let scaled = r[i].mul(value);
            extended.push(value.sub(scaled));
            extended.push(scaled);
            proof {
                broadcast use lemma_mod_twice;

                let v = value.val();
                let e = eq_table(rest)[b as int];
                let whole = eq_table(seq![first] + rest);
                assert(eqm(p, vals(table@)[b as int], e));
                lemma_eqm_mul(p, first, first, v, e);
                lemma_eqm_sub(p, v, e, (first * v) % p, first * e);
                assert((1 - first) * e == e - first * e) by (nonlinear_arith);
                assert(whole[2 * b] == (1 - first) * e);
                assert(whole[2 * b + 1] == first * e);
            }
            b = b + 1;
        }
        table = extended;
        assert(vals(table@).len() == table@.len());
        assert forall|x: int| 0 <= x < vals(table@).len() implies eqm(
            p,
            #[trigger] vals(table@)[x],
            eq_table(seq![first] + rest)[x],
        ) by {
            assert(eqm(p, table@[x].val(), eq_table(seq![first] + rest)[x]));
        }
    }
    proof {
        assert(point.skip(0) =~= point);
        assert forall|x: int| 0 <= x < table@.len() implies vals(table@)[x] == residues(
            p,
            eq_table(point),
        )[x] by {
            assert(eqm(p, vals(table@)[x], eq_table(point)[x]));
            lemma_small_mod(table@[x].val() as nat, p as nat);
        }
        assert(vals(table@) =~= residues(p, eq_table(point)));
    }
    Ok(table)
}

} // verus!
