//! Products of two multilinear polynomials with few nonzero values.

use crate::arithmetic::dense::{index_bits, lemma_power_below_word, power_of_two, repeated};
use crate::errors::PolyIOPErrors;
use crate::field::{vals, PrimeField};
use crate::math::modular::{eqm, eqm_seq, lemma_eqm_add, lemma_eqm_mul, lemma_eqm_residue, residues};
use crate::math::multilinear::{fix, fold, lemma_fold_eqm, lemma_pow2_halves, mle};
use crate::math::sparse::{
    dense, entry_at, increasing, is_support, lemma_support_count, lemma_value_drop_last,
    lemma_value_hit, lemma_value_miss, lemma_value_permuted, lemma_value_push, lemma_value_range,
    lemma_value_take, nonzero_count, value_at,
};
use crate::math::sums::{
    counting, lemma_sum_ext, lemma_sum_scale, lemma_sum_split, lemma_sum_zero, sum,
};
use crate::math::terms::{fold_all, lemma_product_at_two, product_at, product_sum};
use crate::text::{decimal, decimal_text};
use vstd::arithmetic::div_mod::{lemma_mod_twice, lemma_small_mod};
use vstd::arithmetic::power2::{lemma2_to64, lemma_pow2_strictly_increases, pow2};
use vstd::prelude::*;

verus! {

/// A value of a sparse table.
#[derive(Clone, Copy, Debug, PartialEq, Eq)]
struct SparseEntry<F: PrimeField> {
    index: usize,
    value: F,
}

/// The values of a sparse table at `2 * parent_index` and at
/// `2 * parent_index + 1`.
#[derive(Clone, Copy, Debug, PartialEq, Eq)]
struct SparsePair<F: PrimeField> {
    parent_index: usize,
    left: F,
    right: F,
}

/// The indices and values of a list.
pub open spec fn listed<F: PrimeField>(s: Seq<(usize, F)>) -> Seq<(int, int)> {
    Seq::new(s.len(), |k: int| (s[k].0 as int, s[k].1.val()))
}

spec fn entries_of<F: PrimeField>(s: Seq<SparseEntry<F>>) -> Seq<(int, int)> {
    Seq::new(s.len(), |k: int| (s[k].index as int, s[k].value.val()))
}

spec fn lefts<F: PrimeField>(s: Seq<SparsePair<F>>) -> Seq<(int, int)> {
    Seq::new(s.len(), |k: int| (s[k].parent_index as int, s[k].left.val()))
}

spec fn rights<F: PrimeField>(s: Seq<SparsePair<F>>) -> Seq<(int, int)> {
    Seq::new(s.len(), |k: int| (s[k].parent_index as int, s[k].right.val()))
}

/// Entry `k` lies outside a domain of the given size and its value counts.
pub open spec fn outside<F: PrimeField>(s: Seq<(usize, F)>, domain: int, k: int) -> bool {
    0 <= k < s.len() && s[k].1.val() != 0 && s[k].0 >= domain
}

/// Some entry lies outside the domain.
pub open spec fn leaves<F: PrimeField>(s: Seq<(usize, F)>, domain: int) -> bool {
    exists|k: int| #[trigger] outside(s, domain, k)
}

/// Entry `k` is one of the smallest index among those outside the domain.
pub open spec fn first_outside<F: PrimeField>(s: Seq<(usize, F)>, domain: int, k: int) -> bool {
    &&& outside(s, domain, k)
    &&& forall|i: int| #[trigger] outside(s, domain, i) ==> s[k].0 <= s[i].0
}

pub open spec fn outside_text(index: nat, domain: nat) -> Seq<char> {
    "sparse support index "@ + decimal(index) + " exceeds domain size "@ + decimal(domain)
}

/// The error for a list with an entry outside the domain: it names the
/// smallest such index.
pub open spec fn is_outside_error<F: PrimeField>(
    e: PolyIOPErrors,
    s: Seq<(usize, F)>,
    domain: int,
) -> bool {
    exists|k: int| #[trigger]
        first_outside(s, domain, k) && e.is_invalid_parameters(
            outside_text(s[k].0 as nat, domain as nat),
        )
}

fn outside_message(index: usize, domain: usize) -> (r: String)
    ensures
        r@ == outside_text(index as nat, domain as nat),
{
    let text = "sparse support index ".to_string().concat(decimal_text(index).as_str());
    let text = text.concat(" exceeds domain size ");
    text.concat(decimal_text(domain).as_str())
}

/// Sorts by index, by `slice::sort_by_key` of the standard library. Claims that
/// the entries are the same as before, in some order, and that their indices
/// do not decrease.
#[verifier::external_body]
fn sort_by_index<F: PrimeField>(entries: &mut Vec<(usize, F)>)
    ensures
        final(entries)@.to_multiset() == old(entries)@.to_multiset(),
        forall|i: int, j: int|
            0 <= i < j < final(entries)@.len() ==> (#[trigger] final(entries)@[i]).0 <= (
            #[trigger] final(entries)@[j]).0,
{
    entries.sort_by_key(|entry| entry.0);
}

/// Reordering a list keeps what it describes.
proof fn lemma_listed_permuted<F: PrimeField>(a: Seq<(usize, F)>, b: Seq<(usize, F)>)
    requires
        a.to_multiset() == b.to_multiset(),
    ensures
        a.len() == b.len(),
        listed(a).to_multiset() == listed(b).to_multiset(),
        forall|i: int| 0 <= i < a.len() ==> b.contains(#[trigger] a[i]),
        forall|i: int| 0 <= i < b.len() ==> a.contains(#[trigger] b[i]),
    decreases a.len(),
{
    broadcast use vstd::seq_lib::group_to_multiset_ensures;

    assert(a.len() == a.to_multiset().len());
    assert(b.len() == b.to_multiset().len());
    assert forall|i: int| 0 <= i < a.len() implies b.contains(#[trigger] a[i]) by {
        assert(a.to_multiset().count(a[i]) > 0);
    }
    assert forall|i: int| 0 <= i < b.len() implies a.contains(#[trigger] b[i]) by {
        assert(b.to_multiset().count(b[i]) > 0);
    }
    if a.len() > 0 {
        let m = a.len() - 1;
        let k = choose|k: int| 0 <= k < b.len() && b[k] == a[m];
        assert(a.remove(m).to_multiset() == b.remove(k).to_multiset());
        lemma_listed_permuted(a.remove(m), b.remove(k));
        let (la, lb) = (listed(a), listed(b));
        assert(la.remove(m) =~= listed(a.remove(m)));
        assert(lb.remove(k) =~= listed(b.remove(k)));
        assert(la =~= la.remove(m).insert(m, la[m]));
        assert(lb =~= lb.remove(k).insert(k, lb[k]));
        vstd::seq_lib::to_multiset_insert(la.remove(m), m, la[m]);
        vstd::seq_lib::to_multiset_insert(lb.remove(k), k, lb[k]);
    } else {
        assert(listed(a) =~= listed(b));
    }
}

/// Sorts the entries, adds up those of one index, and leaves out zeros.
fn normalize_sparse_entries<F: PrimeField>(
    entries: Vec<(usize, F)>,
    domain_size: usize,
) -> (r: Result<Vec<SparseEntry<F>>, PolyIOPErrors>)
    ensures
        r is Err <==> leaves(entries@, domain_size as int),
        r matches Err(e) ==> is_outside_error(e, entries@, domain_size as int),
        r matches Ok(s) ==> {
            &&& is_support(F::modulus(), entries_of(s@), domain_size as int)
            &&& forall|x: int| #[trigger]
                value_at(entries_of(s@), x) == value_at(listed(entries@), x) % F::modulus()
        },
{
    let ghost p = F::modulus();
    let ghost domain = domain_size as int;
    proof {
        F::lemma_modulus();
        F::lemma_val();
    }
    let mut normalized: Vec<(usize, F)> = Vec::new();
    let mut i: usize = 0;
    while i < entries.len()
        invariant
            0 <= i <= entries@.len(),
            forall|k: int|
                0 <= k < normalized@.len() ==> (#[trigger] normalized@[k]).1.val() != 0
                    && entries@.contains(normalized@[k]),
            forall|m: int|
                0 <= m < i && (#[trigger] entries@[m]).1.val() != 0 ==> normalized@.contains(
                    entries@[m],
                ),
            forall|x: int| #[trigger]
                value_at(listed(normalized@), x) == value_at(listed(entries@).take(i as int), x),
        decreases entries.len() - i,
    {
        let entry = entries[i];
        let ghost before = normalized@;
        if !entry.1.is_zero() {
            normalized.push(entry);
        }
        proof {
            assert forall|m: int| 0 <= m < i + 1 && (#[trigger] entries@[m]).1.val() != 0 implies
                normalized@.contains(entries@[m]) by {
                if m < i {
                    let k = choose|k: int| 0 <= k < before.len() && before[k] == entries@[m];
                    assert(normalized@[k] == entries@[m]);
                } else {
                    assert(normalized@[normalized@.len() - 1] == entries@[m]);
                }
            }
            assert forall|x: int| #[trigger] value_at(listed(normalized@), x) == value_at(
                listed(entries@).take(i + 1),
                x,
            ) by {
                lemma_value_take(listed(entries@), i as int, x);
                if entry.1.val() != 0 {
                    let e = (entry.0 as int, entry.1.val());
                    assert(listed(normalized@) =~= listed(before).push(e));
                    lemma_value_push(listed(before), e, x);
                }
                assert(value_at(listed(before), x) == value_at(
                    listed(entries@).take(i as int),
                    x,
                ));
            }
        }
        i = i + 1;
    }
    let ghost filtered = normalized@;
    sort_by_index(&mut normalized);
    let ghost sorted = normalized@;
    proof {
        assert(listed(entries@).take(i as int) =~= listed(entries@));
        lemma_listed_permuted(filtered, sorted);
        assert forall|x: int| #[trigger] value_at(listed(sorted), x) == value_at(
            listed(entries@),
            x,
        ) by {
            lemma_value_permuted(listed(filtered), listed(sorted), x);
            assert(value_at(listed(filtered), x) == value_at(listed(entries@), x));
        }
        assert forall|k: int| 0 <= k < sorted.len() implies (#[trigger] sorted[k]).1.val() != 0
            && entries@.contains(sorted[k]) by {
            assert(filtered.contains(sorted[k]));
        }
    }
    let mut deduped: Vec<SparseEntry<F>> = Vec::with_capacity(normalized.len());
    let mut i: usize = 0;
    while i < normalized.len()
        invariant
            0 <= i <= normalized@.len(),
            p == F::modulus(),
            p > u64::MAX,
            forall|x: F| 0 <= #[trigger] x.val() < p,
            domain == domain_size,
            normalized@ == sorted,
            forall|a: int, b: int|
                0 <= a < b < sorted.len() ==> (#[trigger] sorted[a]).0 <= (#[trigger] sorted[b]).0,
            forall|k: int|
                0 <= k < sorted.len() ==> (#[trigger] sorted[k]).1.val() != 0 && entries@.contains(
                    sorted[k],
                ),
            forall|m: int|
                0 <= m < entries@.len() && (#[trigger] entries@[m]).1.val() != 0
                    ==> filtered.contains(entries@[m]),
            forall|m: int| 0 <= m < filtered.len() ==> sorted.contains(#[trigger] filtered[m]),
            forall|k: int| 0 <= k < i ==> (#[trigger] sorted[k]).0 < domain,
            is_support(p, entries_of(deduped@), domain),
            deduped@.len() > 0 ==> i > 0 && deduped@.last().index <= sorted[i - 1].0,
            forall|x: int| #[trigger]
                eqm(p, value_at(entries_of(deduped@), x), value_at(
                    listed(sorted).take(i as int),
                    x,
                )),
        decreases normalized.len() - i,
    {
        let (index, value) = normalized[i];
        let ghost es = entries_of(deduped@);
        if index >= domain_size {
            proof {
                assert(entries@.contains(sorted[i as int]));
                let m = choose|m: int| 0 <= m < entries@.len() && entries@[m] == sorted[i as int];
                assert(outside(entries@, domain, m));
                assert forall|j: int| #[trigger] outside(entries@, domain, j) implies entries@[m].0
                    <= entries@[j].0 by {
                    assert(filtered.contains(entries@[j]));
                    let f = choose|f: int| 0 <= f < filtered.len() && filtered[f] == entries@[j];
                    assert(sorted.contains(filtered[f]));
                    let k = choose|k: int| 0 <= k < sorted.len() && sorted[k] == entries@[j];
                    assert(sorted[k].0 >= domain);
                }
                assert(first_outside(entries@, domain, m));
            }
            return Err(PolyIOPErrors::InvalidParameters(outside_message(index, domain_size)));
        }
        let last = deduped.len();
        if last > 0 && deduped[last - 1].index == index {
            let sum = deduped[last - 1].value.add(value);
            let ghost old_value = deduped@[last - 1].value.val();
            let ghost rest = es.drop_last();
            if sum.is_zero() {
                deduped.pop();
                assert(entries_of(deduped@) =~= rest);
            } else {
                deduped.set(last - 1, SparseEntry { index, value: sum });
                assert(entries_of(deduped@) =~= rest.push((index as int, sum.val())));
            }
            proof {
                let fs = entries_of(deduped@);
                assert(forall|k: int| 0 <= k < rest.len() ==> #[trigger] rest[k] == es[k]);
                assert forall|x: int| #[trigger]
                    eqm(p, value_at(fs, x), value_at(listed(sorted).take(i + 1), x)) by {
                    assert(eqm(p, value_at(es, x), value_at(listed(sorted).take(i as int), x)));
                    lemma_value_take(listed(sorted), i as int, x);
                    lemma_value_drop_last(es, x);
                    lemma_value_push(rest, (index as int, sum.val()), x);
                    lemma_eqm_residue(p, old_value + value.val());
                    if x == index {
                        lemma_eqm_add(
                            p,
                            value_at(es, x),
                            value_at(listed(sorted).take(i as int), x),
                            value.val(),
                            value.val(),
                        );
                        lemma_eqm_add(
                            p,
                            value_at(rest, x),
                            value_at(rest, x),
                            sum.val(),
                            old_value + value.val(),
                        );
                    }
                }
                assert(is_support(p, fs, domain));
            }
        } else {
            deduped.push(SparseEntry { index, value });
            proof {
                let e = (index as int, value.val());
                let fs = entries_of(deduped@);
                assert(fs =~= es.push(e));
                assert forall|a: int, b: int| 0 <= a < b < fs.len() implies (#[trigger] fs[a]).0 < (
                #[trigger] fs[b]).0 by {
                    if b == es.len() {
                        let top = es.len() - 1;
                        assert(es[top].0 == deduped@[top].index);
                        assert(es[top].0 <= sorted[i - 1].0 <= index);
                        if a < top {
                            assert(es[a].0 < es[top].0);
                        }
                    }
                }
                assert forall|x: int| #[trigger]
                    eqm(p, value_at(fs, x), value_at(listed(sorted).take(i + 1), x)) by {
                    assert(eqm(p, value_at(es, x), value_at(listed(sorted).take(i as int), x)));
                    lemma_value_take(listed(sorted), i as int, x);
                    lemma_value_push(es, e, x);
                    lemma_eqm_add(
                        p,
                        value_at(es, x),
                        value_at(listed(sorted).take(i as int), x),
                        entry_at(e, x),
                        entry_at(e, x),
                    );
                }
            }
        }
        i = i + 1;
    }
    proof {
        assert(listed(sorted).take(i as int) =~= listed(sorted));
        let es = entries_of(deduped@);
        assert forall|x: int| #[trigger] value_at(es, x) == value_at(listed(entries@), x) % p by {
            assert(eqm(p, value_at(es, x), value_at(listed(sorted), x)));
            lemma_value_range(p, es, domain, x);
            lemma_small_mod(value_at(es, x) as nat, p as nat);
            assert(value_at(listed(sorted), x) == value_at(listed(entries@), x));
        }
        assert forall|j: int| !#[trigger] outside(entries@, domain, j) by {
            if outside(entries@, domain, j) {
                assert(filtered.contains(entries@[j]));
                let f = choose|f: int| 0 <= f < filtered.len() && filtered[f] == entries@[j];
                assert(sorted.contains(filtered[f]));
                let k = choose|k: int| 0 <= k < sorted.len() && sorted[k] == entries@[j];
                assert(sorted[k].0 < domain);
            }
        }
    }
    Ok(deduped)
}

/// Pairs with increasing parents below `half`, none of them zero on both sides.
spec fn are_pairs<F: PrimeField>(s: Seq<SparsePair<F>>, half: int) -> bool {
    &&& increasing(lefts(s))
    &&& forall|k: int|
        0 <= k < s.len() ==> (#[trigger] s[k]).parent_index < half && (s[k].left.val() != 0
            || s[k].right.val() != 0)
}

/// Joins the entries of each parent: those at `2 * b` and at `2 * b + 1`.
fn build_sparse_pairs<F: PrimeField>(
    entries: &Vec<SparseEntry<F>>,
    Ghost(half): Ghost<int>,
) -> (r: Vec<SparsePair<F>>)
    requires
        is_support(F::modulus(), entries_of(entries@), 2 * half),
    ensures
        are_pairs(r@, half),
        forall|b: int| #[trigger]
            value_at(lefts(r@), b) == value_at(entries_of(entries@), 2 * b),
        forall|b: int| #[trigger]
            value_at(rights(r@), b) == value_at(entries_of(entries@), 2 * b + 1),
{
    let ghost p = F::modulus();
    let ghost es = entries_of(entries@);
    proof {
        F::lemma_modulus();
        F::lemma_val();
    }
    let mut pairs: Vec<SparsePair<F>> = Vec::new();
    let mut cursor: usize = 0;
    while cursor < entries.len()
        invariant
            0 <= cursor <= entries@.len(),
            p == F::modulus(),
            p > u64::MAX,
            es == entries_of(entries@),
            is_support(p, es, 2 * half),
            are_pairs(pairs@, half),
            cursor == 0 ==> pairs@.len() == 0,
            cursor > 0 ==> pairs@.len() > 0 && pairs@.last().parent_index == es[cursor - 1].0 / 2,
            0 < cursor < es.len() ==> es[cursor - 1].0 / 2 < es[cursor as int].0 / 2,
            forall|b: int| #[trigger]
                value_at(lefts(pairs@), b) == value_at(es.take(cursor as int), 2 * b),
            forall|b: int| #[trigger]
                value_at(rights(pairs@), b) == value_at(es.take(cursor as int), 2 * b + 1),
        decreases entries.len() - cursor,
    {
        let ghost start = cursor as int;
        let parent_index = entries[cursor].index / 2;
        let ghost parent = parent_index as int;
        let mut left = F::zero();
        let mut right = F::zero();
        proof {
            assert(es[start].0 == entries@[start].index);
            let before = es.take(start);
            assert forall|k: int| 0 <= k < start implies (#[trigger] before[k]).0 / 2 < parent by {
                assert(before[k] == es[k]);
                if k < start - 1 {
                    assert(es[k].0 < es[start - 1].0);
                }
            }
            assert forall|x: int| x / 2 >= parent implies #[trigger] value_at(before, x) == 0 by {
                lemma_value_miss(before, x);
            }
        }
        while cursor < entries.len() && entries[cursor].index / 2 == parent_index
            invariant
                0 <= start <= cursor <= entries@.len(),
                start < entries@.len(),
                p == F::modulus(),
                p > u64::MAX,
                es == entries_of(entries@),
                parent == parent_index,
                is_support(p, es, 2 * half),
                es[start].0 / 2 == parent,
                forall|x: int| x / 2 >= parent ==> #[trigger] value_at(es.take(start), x) == 0,
                forall|x: int|
                    x / 2 != parent ==> #[trigger] value_at(es.take(cursor as int), x) == value_at(
                        es.take(start),
                        x,
                    ),
                left.val() == value_at(es.take(cursor as int), 2 * parent),
                right.val() == value_at(es.take(cursor as int), 2 * parent + 1),
                cursor > start ==> es[cursor - 1].0 / 2 == parent && (left.val() != 0
                    || right.val() != 0),
            decreases entries.len() - cursor,
        {
            let ghost c = cursor as int;
            let value = entries[cursor].value;
            proof {
                assert(es[c].0 == entries@[c].index && es[c].1 == value.val());
                let before = es.take(c);
                assert forall|k: int| 0 <= k < before.len() implies (#[trigger] before[k]).0
                    != es[c].0 by {
                    assert(es[k].0 < es[c].0);
                }
                lemma_value_miss(before, es[c].0);
                lemma_small_mod(value.val() as nat, p as nat);
                lemma_value_take(es, c, 2 * parent);
                lemma_value_take(es, c, 2 * parent + 1);
            }
            if entries[cursor].index % 2 == 0 {
                left = left.add(value);
            } else {
                right = right.add(value);
            }
            proof {
                assert forall|x: int| x / 2 != parent implies #[trigger] value_at(es.take(c + 1), x)
                    == value_at(es.take(start), x) by {
                    lemma_value_take(es, c, x);
                    assert(value_at(es.take(c), x) == value_at(es.take(start), x));
                }
            }
            cursor = cursor + 1;
        }
        assert(cursor > start);
        let ghost before = pairs@;
        if !left.is_zero() || !right.is_zero() {
            pairs.push(SparsePair { parent_index, left, right });
        }
        proof {
            let c = cursor as int;
            assert(lefts(pairs@) =~= lefts(before).push((parent, left.val())));
            assert(rights(pairs@) =~= rights(before).push((parent, right.val())));
            assert forall|b: int| #[trigger] value_at(lefts(pairs@), b) == value_at(
                es.take(c),
                2 * b,
            ) by {
                lemma_value_push(lefts(before), (parent, left.val()), b);
                assert(value_at(lefts(before), b) == value_at(es.take(start), 2 * b));
                assert((2 * b) / 2 == b);
            }
            assert forall|b: int| #[trigger] value_at(rights(pairs@), b) == value_at(
                es.take(c),
                2 * b + 1,
            ) by {
                lemma_value_push(rights(before), (parent, right.val()), b);
                assert(value_at(rights(before), b) == value_at(es.take(start), 2 * b + 1));
                assert((2 * b + 1) / 2 == b);
            }
            assert(es[start].0 < 2 * half);
            let ls = lefts(pairs@);
            assert forall|i: int, j: int| 0 <= i < j < ls.len() implies (#[trigger] ls[i]).0 < (
            #[trigger] ls[j]).0 by {
                if j == before.len() {
                    let top = before.len() - 1;
                    assert(lefts(before)[top].0 == before[top].parent_index);
                    if i < top {
                        assert(lefts(before)[i].0 < lefts(before)[top].0);
                    }
                } else {
                    assert(lefts(before)[i].0 < lefts(before)[j].0);
                }
            }
            if c < es.len() {
                assert(es[c - 1].0 < es[c].0);
                assert(es[c].0 == entries@[c].index);
            }
        }
    }
    assert(es.take(cursor as int) =~= es);
    pairs
}

/// Fixes the variable that tells left from right to `challenge`.
fn collapse_pairs<F: PrimeField>(
    pairs: Vec<SparsePair<F>>,
    challenge: F,
    Ghost(half): Ghost<int>,
) -> (r: Vec<SparseEntry<F>>)
    requires
        are_pairs(pairs@, half),
    ensures
        is_support(F::modulus(), entries_of(r@), half),
        forall|b: int| #[trigger]
            value_at(entries_of(r@), b) == (value_at(lefts(pairs@), b) + challenge.val() * (
            value_at(rights(pairs@), b) - value_at(lefts(pairs@), b))) % F::modulus(),
{
    let ghost p = F::modulus();
    let ghost c = challenge.val();
    let ghost (ls, rs) = (lefts(pairs@), rights(pairs@));
    proof {
        F::lemma_modulus();
        F::lemma_val();
    }
    let mut collapsed: Vec<SparseEntry<F>> = Vec::with_capacity(pairs.len());
    proof {
        lemma_small_mod(0, p as nat);
        assert(c * 0 == 0);
        assert forall|b: int| #[trigger] value_at(entries_of(collapsed@), b) == (value_at(
            ls.take(0),
            b,
        ) + c * (value_at(rs.take(0), b) - value_at(ls.take(0), b))) % p by {
            assert(value_at(ls.take(0), b) == 0 && value_at(rs.take(0), b) == 0);
        }
    }
    let mut k: usize = 0;
    while k < pairs.len()
        invariant
            0 <= k <= pairs@.len(),
            p == F::modulus(),
            p > u64::MAX,
            forall|x: F| 0 <= #[trigger] x.val() < p,
            c == challenge.val(),
            ls == lefts(pairs@),
            rs == rights(pairs@),
            are_pairs(pairs@, half),
            is_support(p, entries_of(collapsed@), half),
            collapsed@.len() > 0 ==> k > 0 && collapsed@.last().index <= ls[k - 1].0,
            forall|b: int| #[trigger]
                value_at(entries_of(collapsed@), b) == (value_at(ls.take(k as int), b) + c * (
                value_at(rs.take(k as int), b) - value_at(ls.take(k as int), b))) % p,
        decreases pairs.len() - k,
    {
        let pair = pairs[k];
        let value = pair.left.add(pair.right.sub(pair.left).mul(challenge));
        let ghost es = entries_of(collapsed@);
        let ghost (l, h) = (pair.left.val(), pair.right.val());
        proof {
            broadcast use lemma_mod_twice;

            lemma_eqm_mul(p, (h - l) % p, h - l, c, c);
            lemma_eqm_add(p, l, l, (((h - l) % p) * c) % p, (h - l) * c);
            assert((h - l) * c == c * (h - l)) by (nonlinear_arith);
            assert(value.val() == (l + c * (h - l)) % p);
            assert(pairs@[k as int].parent_index < half);
        }
        if !value.is_zero() {
            collapsed.push(SparseEntry { index: pair.parent_index, value });
        }
        proof {
            let e = (pair.parent_index as int, value.val());
            let fs = entries_of(collapsed@);
            if value.val() != 0 {
                assert(fs =~= es.push(e));
                assert forall|i: int, j: int| 0 <= i < j < fs.len() implies (#[trigger] fs[i]).0 < (
                #[trigger] fs[j]).0 by {
                    if j == es.len() {
                        let top = es.len() - 1;
                        assert(ls[k - 1].0 < ls[k as int].0);
                        if i < top {
                            assert(es[i].0 < es[top].0);
                        }
                    }
                }
            } else if es.len() > 0 {
                assert(ls[k - 1].0 < ls[k as int].0);
            }
            assert forall|b: int| #[trigger] value_at(fs, b) == (value_at(ls.take(k + 1), b) + c * (
            value_at(rs.take(k + 1), b) - value_at(ls.take(k + 1), b))) % p by {
                let (a, d) = (value_at(ls.take(k as int), b), value_at(rs.take(k as int), b));
                assert(value_at(es, b) == (a + c * (d - a)) % p);
                lemma_value_take(ls, k as int, b);
                lemma_value_take(rs, k as int, b);
                lemma_value_push(es, e, b);
                if b == pair.parent_index {
                    let before = ls.take(k as int);
                    assert forall|i: int| 0 <= i < k implies (#[trigger] before[i]).0 != b by {
                        assert(ls[i].0 < ls[k as int].0);
                    }
                    lemma_value_miss(before, b);
                    let before = rs.take(k as int);
                    assert forall|i: int| 0 <= i < k implies (#[trigger] before[i]).0 != b by {
                        assert(ls[i].0 < ls[k as int].0);
                    }
                    lemma_value_miss(before, b);
                    assert forall|i: int| 0 <= i < es.len() implies (#[trigger] es[i]).0 != b by {
                        let top = es.len() - 1;
                        assert(ls[k - 1].0 < ls[k as int].0);
                        if i < top {
                            assert(es[i].0 < es[top].0);
                        }
                    }
                    lemma_value_miss(es, b);
                }
            }
        }
        k = k + 1;
    }
    assert(ls.take(k as int) =~= ls);
    assert(rs.take(k as int) =~= rs);
    collapsed
}

/// What row `b` adds to the round's polynomial at `x`.
spec fn row_terms<F: PrimeField>(
    c: int,
    lp: Seq<SparsePair<F>>,
    rp: Seq<SparsePair<F>>,
    x: int,
) -> spec_fn(int) -> int {
    |b: int|
        c * ((value_at(lefts(lp), b) + x * (value_at(rights(lp), b) - value_at(lefts(lp), b))) * (
        value_at(lefts(rp), b) + x * (value_at(rights(rp), b) - value_at(lefts(rp), b))))
}

/// No pair belongs to a row from `lo` to below `hi`.
spec fn no_pair_in<F: PrimeField>(s: Seq<SparsePair<F>>, lo: int, hi: int) -> bool {
    forall|k: int| 0 <= k < s.len() ==> !(lo <= (#[trigger] s[k]).parent_index < hi)
}

/// Rows without pairs add nothing.
proof fn lemma_empty_rows<F: PrimeField>(
    c: int,
    lp: Seq<SparsePair<F>>,
    rp: Seq<SparsePair<F>>,
    x: int,
    lo: int,
    hi: int,
)
    requires
        no_pair_in(lp, lo, hi),
        no_pair_in(rp, lo, hi),
    ensures
        sum(row_terms(c, lp, rp, x), lo, hi) == 0,
{
    let f = row_terms(c, lp, rp, x);
    assert(c * ((0 + x * (0 - 0)) * (0 + x * (0 - 0))) == 0) by (nonlinear_arith);
    assert forall|b: int| lo <= b < hi implies #[trigger] f(b) == 0 by {
        lemma_no_pair(lp, b);
        lemma_no_pair(rp, b);
    }
    lemma_sum_zero(f, lo, hi);
}

proof fn lemma_no_pair<F: PrimeField>(s: Seq<SparsePair<F>>, b: int)
    requires
        forall|k: int| 0 <= k < s.len() ==> (#[trigger] s[k]).parent_index != b,
    ensures
        value_at(lefts(s), b) == 0,
        value_at(rights(s), b) == 0,
{
    assert(forall|k: int| 0 <= k < s.len() ==> (#[trigger] lefts(s)[k]).0 == s[k].parent_index);
    assert(forall|k: int| 0 <= k < s.len() ==> (#[trigger] rights(s)[k]).0 == s[k].parent_index);
    lemma_value_miss(lefts(s), b);
    lemma_value_miss(rights(s), b);
}

proof fn lemma_the_pair<F: PrimeField>(s: Seq<SparsePair<F>>, half: int, k: int)
    requires
        are_pairs(s, half),
        0 <= k < s.len(),
    ensures
        value_at(lefts(s), s[k].parent_index as int) == s[k].left.val(),
        value_at(rights(s), s[k].parent_index as int) == s[k].right.val(),
{
    lemma_value_hit(lefts(s), k);
    assert(increasing(rights(s))) by {
        assert forall|i: int, j: int| 0 <= i < j < rights(s).len() implies (
        #[trigger] rights(s)[i]).0 < (#[trigger] rights(s)[j]).0 by {
            assert(lefts(s)[i].0 < lefts(s)[j].0);
        }
    }
    lemma_value_hit(rights(s), k);
}

/// The pairs behind a pair have larger parents.
proof fn lemma_pairs_behind<F: PrimeField>(s: Seq<SparsePair<F>>, half: int, k: int)
    requires
        are_pairs(s, half),
        0 <= k,
    ensures
        forall|i: int| k < i < s.len() ==> (#[trigger] s[i]).parent_index > s[k].parent_index,
{
    assert forall|i: int| k < i < s.len() implies (#[trigger] s[i]).parent_index
        > s[k].parent_index by {
        assert(lefts(s)[k].0 < lefts(s)[i].0);
    }
}

/// One row's addend as the loop computes it.
proof fn lemma_row_value(p: int, c: int, l0: int, l1: int, r0: int, r1: int, x: int)
    requires
        p > 0,
    ensures
        ({
            let lv = (l0 + (((l1 - l0) % p) * x) % p) % p;
            let rv = (r0 + (((r1 - r0) % p) * x) % p) % p;
            eqm(
                p,
                (((c * lv) % p) * rv) % p,
                c * ((l0 + x * (l1 - l0)) * (r0 + x * (r1 - r0))),
            )
        }),
{
    broadcast use lemma_mod_twice;

    let lv = (l0 + (((l1 - l0) % p) * x) % p) % p;
    let rv = (r0 + (((r1 - r0) % p) * x) % p) % p;
    let (le, re) = (l0 + (l1 - l0) * x, r0 + (r1 - r0) * x);
    lemma_eqm_mul(p, (l1 - l0) % p, l1 - l0, x, x);
    lemma_eqm_add(p, l0, l0, (((l1 - l0) % p) * x) % p, (l1 - l0) * x);
    lemma_eqm_mul(p, (r1 - r0) % p, r1 - r0, x, x);
    lemma_eqm_add(p, r0, r0, (((r1 - r0) % p) * x) % p, (r1 - r0) * x);
    lemma_eqm_mul(p, c, c, lv, le);
    lemma_eqm_mul(p, (c * lv) % p, c * le, rv, re);
    assert((l1 - l0) * x == x * (l1 - l0) && (r1 - r0) * x == x * (r1 - r0)) by (nonlinear_arith);
    assert((c * le) * re == c * (le * re)) by (nonlinear_arith);
}

/// A coefficient times the product of two multilinear polynomials, each given
/// by its nonzero values.
#[derive(Clone, Debug, PartialEq, Eq)]
pub struct SparseSupportProduct<F: PrimeField> {
    coefficient: F,
    num_vars: usize,
    left_entries: Vec<SparseEntry<F>>,
    right_entries: Vec<SparseEntry<F>>,
}

pub open spec fn wrong_point_text(found: nat, expected: nat) -> Seq<char> {
    "wrong number of variables "@ + decimal(found) + " vs "@ + decimal(expected)
}

fn wrong_point_message(found: usize, expected: usize) -> (r: String)
    ensures
        r@ == wrong_point_text(found as nat, expected as nat),
{
    let text = "wrong number of variables ".to_string().concat(decimal_text(found).as_str());
    let text = text.concat(" vs ");
    text.concat(decimal_text(expected).as_str())
}

pub open spec fn constant_index_text(index: nat) -> Seq<char> {
    "unexpected constant-table index "@ + decimal(index)
}

fn constant_index_message(index: usize) -> (r: String)
    ensures
        r@ == constant_index_text(index as nat),
{
    "unexpected constant-table index ".to_string().concat(decimal_text(index).as_str())
}

fn copy_entries<F: PrimeField>(s: &Vec<SparseEntry<F>>) -> (r: Vec<SparseEntry<F>>)
    ensures
        r@ == s@,
{
    let mut r: Vec<SparseEntry<F>> = Vec::with_capacity(s.len());
    let mut i: usize = 0;
    while i < s.len()
        invariant
            0 <= i <= s@.len(),
            r@ == s@.subrange(0, i as int),
        decreases s.len() - i,
    {
        r.push(s[i]);
        i = i + 1;
    }
    assert(s@.subrange(0, i as int) =~= s@);
    r
}

/// Collapsing the pairs of a table folds it.
proof fn lemma_collapsed<F: PrimeField>(
    es: Seq<(int, int)>,
    fs: Seq<(int, int)>,
    pairs: Seq<SparsePair<F>>,
    c: int,
    n: nat,
)
    requires
        n > 0,
        forall|b: int| #[trigger] value_at(lefts(pairs), b) == value_at(es, 2 * b),
        forall|b: int| #[trigger] value_at(rights(pairs), b) == value_at(es, 2 * b + 1),
        forall|b: int| #[trigger]
            value_at(fs, b) == (value_at(lefts(pairs), b) + c * (value_at(rights(pairs), b)
                - value_at(lefts(pairs), b))) % F::modulus(),
    ensures
        dense(fs, pow2((n - 1) as nat) as int) == residues(
            F::modulus(),
            fold(dense(es, pow2(n) as int), c),
        ),
{
    lemma_pow2_halves(n);
    let t = dense(es, pow2(n) as int);
    let u = dense(fs, pow2((n - 1) as nat) as int);
    let v = residues(F::modulus(), fold(t, c));
    assert forall|b: int| 0 <= b < u.len() implies u[b] == v[b] by {
        assert(value_at(lefts(pairs), b) == t[2 * b]);
        assert(value_at(rights(pairs), b) == t[2 * b + 1]);
        assert(u[b] == value_at(fs, b));
    }
    assert(u =~= v);
}

impl<F: PrimeField> SparseSupportProduct<F> {
    pub closed spec fn coeff(self) -> int {
        self.coefficient.val()
    }

    pub closed spec fn vars(self) -> nat {
        self.num_vars as nat
    }

    /// The nonzero values of the left factor, with their indices.
    pub closed spec fn left(self) -> Seq<(int, int)> {
        entries_of(self.left_entries@)
    }

    /// The nonzero values of the right factor, with their indices.
    pub closed spec fn right(self) -> Seq<(int, int)> {
        entries_of(self.right_entries@)
    }

    pub open spec fn wf(self) -> bool {
        &&& self.vars() <= usize::MAX
        &&& is_support(F::modulus(), self.left(), pow2(self.vars()) as int)
        &&& is_support(F::modulus(), self.right(), pow2(self.vars()) as int)
    }

    /// All values of the left factor.
    pub open spec fn left_table(self) -> Seq<int> {
        dense(self.left(), pow2(self.vars()) as int)
    }

    /// All values of the right factor.
    pub open spec fn right_table(self) -> Seq<int> {
        dense(self.right(), pow2(self.vars()) as int)
    }

    /// The two factors' tables.
    pub open spec fn tables(self) -> Seq<Seq<int>> {
        seq![self.left_table(), self.right_table()]
    }

    /// The number of rows, that is of pairs of values. A constant is the first
    /// of a pair, whose second is zero.
    pub open spec fn row_count(self) -> int {
        if self.vars() == 0 {
            1
        } else {
            pow2((self.vars() - 1) as nat) as int
        }
    }

    /// The two factors' tables, filled up to whole rows.
    pub open spec fn paired_tables(self) -> Seq<Seq<int>> {
        seq![dense(self.left(), 2 * self.row_count()), dense(self.right(), 2 * self.row_count())]
    }

    /// The polynomial of the next round at `x`: the first variable is `x`, and
    /// the others run over the hypercube.
    pub open spec fn round_value(self, x: int) -> int {
        self.coeff() * product_sum(
            fold_all(self.paired_tables(), x),
            counting(2),
            self.row_count(),
        )
    }

    /// The tables of a product that is no constant have whole rows.
    pub proof fn lemma_paired_tables(self)
        requires
            self.vars() > 0,
        ensures
            self.paired_tables() == self.tables(),
    {
        lemma_pow2_halves(self.vars());
    }

    /// The product with the given values. Values of one index add up.
    pub fn new(
        num_vars: usize,
        coefficient: F,
        left_entries: Vec<(usize, F)>,
        right_entries: Vec<(usize, F)>,
    ) -> (r: Result<Self, PolyIOPErrors>)
        ensures
            r is Ok <==> index_bits(num_vars) < usize::BITS && !leaves(
                left_entries@,
                pow2(index_bits(num_vars)) as int,
            ) && !leaves(right_entries@, pow2(index_bits(num_vars)) as int),
            r matches Err(e) ==> if index_bits(num_vars) >= usize::BITS {
                e.is_invalid_parameters("too many variables"@)
            } else if leaves(left_entries@, pow2(index_bits(num_vars)) as int) {
                is_outside_error(e, left_entries@, pow2(index_bits(num_vars)) as int)
            } else {
                is_outside_error(e, right_entries@, pow2(index_bits(num_vars)) as int)
            },
            r matches Ok(s) ==> {
                &&& s.wf()
                &&& s.vars() == num_vars
                &&& s.coeff() == coefficient.val()
                &&& s.left_table() == residues(
                    F::modulus(),
                    dense(listed(left_entries@), pow2(num_vars as nat) as int),
                )
                &&& s.right_table() == residues(
                    F::modulus(),
                    dense(listed(right_entries@), pow2(num_vars as nat) as int),
                )
            },
    {
        #[verifier::truncate]
        let bits = num_vars as u32;
        if bits >= usize::BITS {
            return Err(PolyIOPErrors::InvalidParameters("too many variables".to_string()));
        }
        proof {
            lemma_power_below_word(bits as nat);
            assert(num_vars as u32 <= num_vars) by (bit_vector);
            if bits < num_vars {
                lemma_pow2_strictly_increases(bits as nat, num_vars as nat);
            }
        }
        let domain_size = power_of_two(bits as usize);
        let ghost (ls, rs) = (listed(left_entries@), listed(right_entries@));
        let left_entries = match normalize_sparse_entries(left_entries, domain_size) {
            Ok(entries) => entries,
            Err(e) => {
                return Err(e);
            },
        };
        let right_entries = match normalize_sparse_entries(right_entries, domain_size) {
            Ok(entries) => entries,
            Err(e) => {
                return Err(e);
            },
        };
        let r = SparseSupportProduct { coefficient, num_vars, left_entries, right_entries };
        proof {
            let size = pow2(num_vars as nat) as int;
            assert(r.left_table() =~= residues(F::modulus(), dense(ls, size)));
            assert(r.right_table() =~= residues(F::modulus(), dense(rs, size)));
        }
        Ok(r)
    }

    pub fn num_vars(&self) -> (r: usize)
        ensures
            r == self.vars(),
    {
        self.num_vars
    }

    /// The number of nonzero values of the left factor.
    pub fn support_len_left(&self) -> (r: usize)
        requires
            self.wf(),
        ensures
            r == self.left().len(),
            r == nonzero_count(self.left_table()),
    {
        proof {
            F::lemma_modulus();
            lemma_support_count(F::modulus(), self.left(), pow2(self.vars()) as int);
        }
        self.left_entries.len()
    }

    /// The number of nonzero values of the right factor.
    pub fn support_len_right(&self) -> (r: usize)
        requires
            self.wf(),
        ensures
            r == self.right().len(),
            r == nonzero_count(self.right_table()),
    {
        proof {
            F::lemma_modulus();
            lemma_support_count(F::modulus(), self.right(), pow2(self.vars()) as int);
        }
        self.right_entries.len()
    }

    /// An equal product.
    pub fn copy(&self) -> (r: Self)
        ensures
            r.coeff() == self.coeff(),
            r.vars() == self.vars(),
            r.left() == self.left(),
            r.right() == self.right(),
    {
        SparseSupportProduct {
            coefficient: self.coefficient,
            num_vars: self.num_vars,
            left_entries: copy_entries(&self.left_entries),
            right_entries: copy_entries(&self.right_entries),
        }
    }

    /// The values of the two factors at a point.
    pub fn evaluate_factors_at_point(&self, point: &[F]) -> (r: Result<(F, F), PolyIOPErrors>)
        requires
            self.wf(),
        ensures
            r is Ok <==> point@.len() == self.vars(),
            r matches Err(e) ==> e.is_invalid_parameters(
                wrong_point_text(point@.len(), self.vars()),
            ),
            r matches Ok(v) ==> {
                &&& v.0.val() == mle(self.left_table(), vals(point@)) % F::modulus()
                &&& v.1.val() == mle(self.right_table(), vals(point@)) % F::modulus()
            },
    {
        if point.len() != self.num_vars {
            return Err(
                PolyIOPErrors::InvalidParameters(wrong_point_message(point.len(), self.num_vars)),
            );
        }
        let ghost p = F::modulus();
        let ghost rs = vals(point@);
        let ghost n = self.vars();
        proof {
            F::lemma_modulus();
            F::lemma_val();
        }
        let mut state = self.copy();
        let mut i: usize = 0;
        assert(rs.take(0) =~= Seq::<int>::empty());
        while i < point.len()
            invariant
                0 <= i <= point@.len(),
                point@.len() == n,
                p == F::modulus(),
                p > u64::MAX,
                rs == vals(point@),
                n == self.vars(),
                state.wf(),
                state.vars() == n - i,
                eqm_seq(p, state.left_table(), fix(self.left_table(), rs.take(i as int))),
                eqm_seq(p, state.right_table(), fix(self.right_table(), rs.take(i as int))),
            decreases point.len() - i,
        {
            let ghost (lt, rt) = (state.left_table(), state.right_table());
            let ghost c = rs[i as int];
            match state.apply_challenge(point[i]) {
                Ok(_) => {},
                Err(e) => {
                    return Err(e);
                },
            }
            proof {
                assert(rs.take(i + 1) =~= rs.take(i as int).push(c));
                assert(rs.take(i + 1).drop_last() =~= rs.take(i as int));
                let lf = fix(self.left_table(), rs.take(i as int));
                let rf = fix(self.right_table(), rs.take(i as int));
                lemma_fold_eqm(p, lt, lf, c, c);
                lemma_fold_eqm(p, rt, rf, c, c);
                lemma_residues_eqm(p, fold(lt, c), fold(lf, c));
                lemma_residues_eqm(p, fold(rt, c), fold(rf, c));
            }
            i = i + 1;
        }
        proof {
            assert(rs.take(i as int) =~= rs);
            lemma2_to64();
            let (lt, rt) = (state.left_table(), state.right_table());
            lemma_value_range(p, state.left(), 1, 0);
            lemma_value_range(p, state.right(), 1, 0);
            assert(eqm(p, lt[0], fix(self.left_table(), rs)[0]));
            assert(eqm(p, rt[0], fix(self.right_table(), rs)[0]));
            lemma_small_mod(lt[0] as nat, p as nat);
            lemma_small_mod(rt[0] as nat, p as nat);
            lemma_constant_support(p, state.left());
            lemma_constant_support(p, state.right());
        }
        let left = match state.extract_constant(&state.left_entries) {
            Ok(v) => v,
            Err(e) => {
                return Err(e);
            },
        };
        let right = match state.extract_constant(&state.right_entries) {
            Ok(v) => v,
            Err(e) => {
                return Err(e);
            },
        };
        Ok((left, right))
    }

    /// The message of the next round: the round's polynomial at
    /// `0, 1, ..., max_degree`.
    pub fn round_evaluations(&self, max_degree: usize) -> (r: Vec<F>)
        requires
            self.wf(),
            max_degree < usize::MAX,
        ensures
            r@.len() == max_degree + 1,
            forall|j: int|
                0 <= j <= max_degree ==> (#[trigger] r@[j]).val() == self.round_value(j)
                    % F::modulus(),
    {
        let ghost p = F::modulus();
        let ghost half = self.row_count();
        let ghost c = self.coeff();
        proof {
            F::lemma_modulus();
            F::lemma_val();
            lemma2_to64();
            if self.vars() > 0 {
                lemma_pow2_halves(self.vars());
            }
        }
        let left_pairs = build_sparse_pairs(&self.left_entries, Ghost(half));
        let right_pairs = build_sparse_pairs(&self.right_entries, Ghost(half));
        let ghost (lp, rp) = (left_pairs@, right_pairs@);
        let mut eval_points: Vec<F> = Vec::with_capacity(max_degree + 1);
        let mut i: usize = 0;
        while i <= max_degree
            invariant
                0 <= i <= max_degree + 1,
                max_degree < usize::MAX,
                eval_points@.len() == i,
                forall|k: int| 0 <= k < i ==> (#[trigger] eval_points@[k]).val() == k,
            decreases max_degree + 1 - i,
        {
            eval_points.push(F::from_u64(i as u64));
            i = i + 1;
        }
        let mut evaluations = repeated(F::zero(), max_degree + 1);
        let mut left_cursor: usize = 0;
        let mut right_cursor: usize = 0;
        // All rows below `done` are in the sums, and the pairs at and behind
        // the cursors are those of the other rows.
        let ghost mut done: int = 0;
        while left_cursor < left_pairs.len() || right_cursor < right_pairs.len()
            invariant
                0 <= left_cursor <= left_pairs@.len(),
                0 <= right_cursor <= right_pairs@.len(),
                lp == left_pairs@,
                rp == right_pairs@,
                are_pairs(lp, half),
                are_pairs(rp, half),
                p == F::modulus(),
                p > u64::MAX,
                c == self.coefficient.val(),
                max_degree < usize::MAX,
                eval_points@.len() == max_degree + 1,
                forall|k: int| 0 <= k <= max_degree ==> (#[trigger] eval_points@[k]).val() == k,
                0 <= done <= half,
                forall|k: int| 0 <= k < left_cursor ==> (#[trigger] lp[k]).parent_index < done,
                forall|k: int|
                    left_cursor <= k < lp.len() ==> (#[trigger] lp[k]).parent_index >= done,
                forall|k: int| 0 <= k < right_cursor ==> (#[trigger] rp[k]).parent_index < done,
                forall|k: int|
                    right_cursor <= k < rp.len() ==> (#[trigger] rp[k]).parent_index >= done,
                evaluations@.len() == max_degree + 1,
                forall|j: int|
                    0 <= j <= max_degree ==> eqm(
                        p,
                        (#[trigger] evaluations@[j]).val(),
                        sum(row_terms(c, lp, rp, j), 0, done),
                    ),
            decreases left_pairs.len() - left_cursor + right_pairs.len() - right_cursor,
        {
            let next_parent = if left_cursor < left_pairs.len() {
                if right_cursor < right_pairs.len() && right_pairs[right_cursor].parent_index
                    < left_pairs[left_cursor].parent_index {
                    right_pairs[right_cursor].parent_index
                } else {
                    left_pairs[left_cursor].parent_index
                }
            } else {
                right_pairs[right_cursor].parent_index
            };
            let ghost row = next_parent as int;
            let ghost (lc, rc) = (left_cursor as int, right_cursor as int);
            proof {
                lemma_pairs_behind(lp, half, lc);
                lemma_pairs_behind(rp, half, rc);
                assert(no_pair_in(lp, done, row));
                assert(no_pair_in(rp, done, row));
            }
            let mut left_0 = F::zero();
            let mut left_1 = F::zero();
            if left_cursor < left_pairs.len() && left_pairs[left_cursor].parent_index
                == next_parent {
                left_0 = left_pairs[left_cursor].left;
                left_1 = left_pairs[left_cursor].right;
                proof {
                    lemma_the_pair(lp, half, lc);
                }
                left_cursor = left_cursor + 1;
            } else {
                proof {
                    lemma_no_pair(lp, row);
                }
            }
            let mut right_0 = F::zero();
            let mut right_1 = F::zero();
            if right_cursor < right_pairs.len() && right_pairs[right_cursor].parent_index
                == next_parent {
                right_0 = right_pairs[right_cursor].left;
                right_1 = right_pairs[right_cursor].right;
                proof {
                    lemma_the_pair(rp, half, rc);
                }
                right_cursor = right_cursor + 1;
            } else {
                proof {
                    lemma_no_pair(rp, row);
                }
            }
            let left_step = left_1.sub(left_0);
            let right_step = right_1.sub(right_0);
            let ghost before = evaluations@;
            let ghost (l0, l1) = (left_0.val(), left_1.val());
            let ghost (r0, r1) = (right_0.val(), right_1.val());
            assert(l0 == value_at(lefts(lp), row) && l1 == value_at(rights(lp), row));
            assert(r0 == value_at(lefts(rp), row) && r1 == value_at(rights(rp), row));
            let mut j: usize = 0;
            while j <= max_degree
                invariant
                    0 <= j <= max_degree + 1,
                    max_degree < usize::MAX,
                    p == F::modulus(),
                    p > u64::MAX,
                    c == self.coefficient.val(),
                    eval_points@.len() == max_degree + 1,
                    forall|k: int| 0 <= k <= max_degree ==> (#[trigger] eval_points@[k]).val() == k,
                    0 <= done <= row,
                    l0 == left_0.val(),
                    r0 == right_0.val(),
                    left_step.val() == (l1 - l0) % p,
                    right_step.val() == (r1 - r0) % p,
                    l0 == value_at(lefts(lp), row),
                    l1 == value_at(rights(lp), row),
                    r0 == value_at(lefts(rp), row),
                    r1 == value_at(rights(rp), row),
                    no_pair_in(lp, done, row),
                    no_pair_in(rp, done, row),
                    before.len() == max_degree + 1,
                    evaluations@.len() == max_degree + 1,
                    forall|k: int|
                        0 <= k <= max_degree ==> eqm(
                            p,
                            (#[trigger] before[k]).val(),
                            sum(row_terms(c, lp, rp, k), 0, done),
                        ),
                    forall|k: int| j <= k <= max_degree ==> #[trigger] evaluations@[k] == before[k],
                    forall|k: int|
                        0 <= k < j ==> eqm(
                            p,
                            (#[trigger] evaluations@[k]).val(),
                            sum(row_terms(c, lp, rp, k), 0, row + 1),
                        ),
                decreases max_degree + 1 - j,
            {
                let left_value = left_0.add(left_step.mul(eval_points[j]));
                let right_value = right_0.add(right_step.mul(eval_points[j]));
                let value = evaluations[j].add(
                    self.coefficient.mul(left_value).mul(right_value),
                );
                proof {
                    let x = j as int;
                    let f = row_terms(c, lp, rp, x);
                    assert(eqm(p, before[x].val(), sum(f, 0, done)));
                    lemma_empty_rows(c, lp, rp, x, done, row);
                    lemma_sum_split(f, 0, done, row);
                    assert(sum(f, 0, row + 1) == sum(f, 0, row) + f(row));
                    lemma_row_value(p, c, l0, l1, r0, r1, x);
                    lemma_eqm_add(
                        p,
                        before[x].val(),
                        sum(f, 0, row),
                        (((c * left_value.val()) % p) * right_value.val()) % p,
                        f(row),
                    );
                    lemma_eqm_residue(
                        p,
                        before[x].val() + (((c * left_value.val()) % p) * right_value.val()) % p,
                    );
                }
                evaluations[j] = value;
                j = j + 1;
            }
            proof {
                if lc < lp.len() {
                    assert(lp[lc].parent_index < half);
                }
                if rc < rp.len() {
                    assert(rp[rc].parent_index < half);
                }
                done = row + 1;
            }
        }
        proof {
            let ts = self.paired_tables();
            assert forall|j: int| 0 <= j <= max_degree implies (#[trigger] evaluations@[j]).val()
                == self.round_value(j) % p by {
                let f = row_terms(c, lp, rp, j);
                assert(eqm(p, evaluations@[j].val(), sum(f, 0, done)));
                assert(no_pair_in(lp, done, half));
                assert(no_pair_in(rp, done, half));
                lemma_empty_rows(c, lp, rp, j, done, half);
                lemma_sum_split(f, 0, done, half);
                let us = fold_all(ts, j);
                let g = |b: int| product_at(us, counting(2), b);
                let h = |b: int| c * g(b);
                assert forall|b: int| 0 <= b < half implies #[trigger] f(b) == h(b) by {
                    lemma_product_at_two(us, counting(2), b);
                    let (lt, rt) = (ts[0], ts[1]);
                    assert(value_at(lefts(lp), b) == lt[2 * b]);
                    assert(value_at(rights(lp), b) == lt[2 * b + 1]);
                    assert(value_at(lefts(rp), b) == rt[2 * b]);
                    assert(value_at(rights(rp), b) == rt[2 * b + 1]);
                    assert(us[0] == fold(lt, j) && us[1] == fold(rt, j));
                }
                lemma_sum_ext(f, h, 0, half);
                lemma_sum_scale(c, g, 0, half);
                lemma_small_mod(evaluations@[j].val() as nat, p as nat);
            }
        }
        evaluations
    }

    /// Fixes the first variable of both factors to `challenge`.
    pub fn apply_challenge(&mut self, challenge: F) -> (r: Result<(), PolyIOPErrors>)
        requires
            old(self).wf(),
        ensures
            r is Ok <==> old(self).vars() > 0,
            r matches Err(e) ==> {
                &&& *final(self) == *old(self)
                &&& e.is_invalid_parameters(
                    "cannot fix variables on a constant sparse support product"@,
                )
            },
            r is Ok ==> {
                &&& final(self).wf()
                &&& final(self).vars() == old(self).vars() - 1
                &&& final(self).coeff() == old(self).coeff()
                &&& final(self).left_table() == residues(
                    F::modulus(),
                    fold(old(self).left_table(), challenge.val()),
                )
                &&& final(self).right_table() == residues(
                    F::modulus(),
                    fold(old(self).right_table(), challenge.val()),
                )
            },
    {
        if self.num_vars == 0 {
            return Err(
                PolyIOPErrors::InvalidParameters(
                    "cannot fix variables on a constant sparse support product".to_string(),
                ),
            );
        }
        let ghost n = self.vars();
        let ghost half = pow2((n - 1) as nat) as int;
        let ghost (ls, rs) = (self.left(), self.right());
        proof {
            lemma_pow2_halves(n);
        }
        let left_pairs = build_sparse_pairs(&self.left_entries, Ghost(half));
        let right_pairs = build_sparse_pairs(&self.right_entries, Ghost(half));
        let ghost (lp, rp) = (left_pairs@, right_pairs@);
        self.left_entries = collapse_pairs(left_pairs, challenge, Ghost(half));
        self.right_entries = collapse_pairs(right_pairs, challenge, Ghost(half));
        self.num_vars = self.num_vars - 1;
        proof {
            lemma_collapsed(ls, self.left(), lp, challenge.val(), n);
            lemma_collapsed(rs, self.right(), rp, challenge.val(), n);
        }
        Ok(())
    }

    /// The one value of a table whose variables are all fixed.
    fn extract_constant(&self, entries: &Vec<SparseEntry<F>>) -> (r: Result<F, PolyIOPErrors>)
        ensures
            r is Ok <==> self.vars() == 0 && (entries@.len() == 0 || (entries@.len() == 1
                && entries@[0].index == 0)),
            r matches Ok(v) ==> v.val() == value_at(entries_of(entries@), 0),
            r matches Err(e) ==> if self.vars() != 0 {
                e.is_invalid_parameters(
                    "sparse support product must be fully fixed before extracting a constant"@,
                )
            } else if entries@.len() == 1 {
                e.is_invalid_parameters(constant_index_text(entries@[0].index as nat))
            } else {
                e.is_invalid_parameters("constant sparse table has multiple support entries"@)
            },
    {
        if self.num_vars != 0 {
            return Err(
                PolyIOPErrors::InvalidParameters(
                    "sparse support product must be fully fixed before extracting a constant".to_string(),
                ),
            );
        }
        if entries.len() == 0 {
            proof {
                lemma_value_miss(entries_of(entries@), 0);
            }
            Ok(F::zero())
        } else if entries.len() == 1 {
            if entries[0].index == 0 {
                proof {
                    lemma_value_hit(entries_of(entries@), 0);
                }
                Ok(entries[0].value)
            } else {
                Err(PolyIOPErrors::InvalidParameters(constant_index_message(entries[0].index)))
            }
        } else {
            Err(
                PolyIOPErrors::InvalidParameters(
                    "constant sparse table has multiple support entries".to_string(),
                ),
            )
        }
    }
}

/// A table of one value has at most one entry, the one at 0.
proof fn lemma_constant_support(p: int, es: Seq<(int, int)>)
    requires
        is_support(p, es, 1),
    ensures
        es.len() <= 1,
        es.len() == 1 ==> es[0].0 == 0,
{
    if es.len() > 1 {
        assert(es[0].0 < es[1].0);
    }
}

/// Reducing a table keeps it congruent to what it was congruent to.
proof fn lemma_residues_eqm(p: int, t: Seq<int>, u: Seq<int>)
    requires
        p > 0,
        eqm_seq(p, t, u),
    ensures
        eqm_seq(p, residues(p, t), u),
{
    assert forall|i: int| 0 <= i < t.len() implies eqm(p, #[trigger] residues(p, t)[i], u[i]) by {
        lemma_eqm_residue(p, t[i]);
        assert(eqm(p, t[i], u[i]));
    }
}

/// A table made from listed entries holds, at each place, the sum of all values
/// that were listed for that place.
pub proof fn lemma_table_of_entries<F: PrimeField>(entries: Seq<(usize, F)>, size: int, x: int)
    requires
        0 <= x < size,
    ensures
        residues(F::modulus(), dense(listed(entries), size))[x] == sum(
            |k: int|
                if entries[k].0 == x {
                    entries[k].1.val()
                } else {
                    0
                },
            0,
            entries.len() as int,
        ) % F::modulus(),
{
    let es = listed(entries);
    let f = |k: int| entry_at(es[k], x);
    let g = |k: int|
        if entries[k].0 == x {
            entries[k].1.val()
        } else {
            0
        };
    lemma_sum_ext(f, g, 0, entries.len() as int);
}

} // verus!
