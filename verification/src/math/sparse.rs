//! Tables that are zero but for a list of entries.

use crate::math::sums::{lemma_sum_ext, lemma_sum_single, lemma_sum_swap, lemma_sum_zero, sum};
use vstd::prelude::*;

verus! {

/// What entry `e` adds at `x`: its value at its own index, and nothing
/// elsewhere.
pub open spec fn entry_at(e: (int, int), x: int) -> int {
    if e.0 == x {
        e.1
    } else {
        0
    }
}

/// The sum of the values of the entries with index `x`.
pub open spec fn value_at(es: Seq<(int, int)>, x: int) -> int {
    sum(|k: int| entry_at(es[k], x), 0, es.len() as int)
}

/// The table of `size` values that the entries describe.
pub open spec fn dense(es: Seq<(int, int)>, size: int) -> Seq<int> {
    Seq::new(size as nat, |x: int| value_at(es, x))
}

/// Indices that increase.
pub open spec fn increasing(es: Seq<(int, int)>) -> bool {
    forall|i: int, j: int| 0 <= i < j < es.len() ==> (#[trigger] es[i]).0 < (#[trigger] es[j]).0
}

/// Entries with increasing indices below `size` and values from `1..p`.
pub open spec fn is_support(p: int, es: Seq<(int, int)>, size: int) -> bool {
    &&& increasing(es)
    &&& forall|k: int| 0 <= k < es.len() ==> 0 <= (#[trigger] es[k]).0 < size && 0 < es[k].1 < p
}

/// The number of values of a table that are not zero.
pub open spec fn nonzero_count(t: Seq<int>) -> int {
    sum(
        |x: int|
            if t[x] != 0 {
                1int
            } else {
                0
            },
        0,
        t.len() as int,
    )
}

pub proof fn lemma_value_miss(es: Seq<(int, int)>, x: int)
    requires
        forall|k: int| 0 <= k < es.len() ==> (#[trigger] es[k]).0 != x,
    ensures
        value_at(es, x) == 0,
{
    lemma_sum_zero(|k: int| entry_at(es[k], x), 0, es.len() as int);
}

pub proof fn lemma_value_hit(es: Seq<(int, int)>, k: int)
    requires
        increasing(es),
        0 <= k < es.len(),
    ensures
        value_at(es, es[k].0) == es[k].1,
{
    let x = es[k].0;
    let f = |i: int| entry_at(es[i], x);
    assert forall|i: int| 0 <= i < es.len() && i != k implies #[trigger] f(i) == 0 by {
        assert(es[i].0 != es[k].0);
    }
    lemma_sum_single(f, 0, es.len() as int, k);
}

/// The entries of a support describe values in the range `0..p`.
pub proof fn lemma_value_range(p: int, es: Seq<(int, int)>, size: int, x: int)
    requires
        p > 0,
        is_support(p, es, size),
    ensures
        0 <= value_at(es, x) < p,
{
    if exists|k: int| 0 <= k < es.len() && (#[trigger] es[k]).0 == x {
        let k = choose|k: int| 0 <= k < es.len() && (#[trigger] es[k]).0 == x;
        lemma_value_hit(es, k);
    } else {
        lemma_value_miss(es, x);
    }
}

pub proof fn lemma_value_push(es: Seq<(int, int)>, e: (int, int), x: int)
    ensures
        value_at(es.push(e), x) == value_at(es, x) + entry_at(e, x),
{
    let fs = es.push(e);
    let f = |k: int| entry_at(fs[k], x);
    let g = |k: int| entry_at(es[k], x);
    lemma_sum_ext(f, g, 0, es.len() as int);
}

pub proof fn lemma_value_take(es: Seq<(int, int)>, k: int, x: int)
    requires
        0 <= k < es.len(),
    ensures
        value_at(es.take(k + 1), x) == value_at(es.take(k), x) + entry_at(es[k], x),
{
    assert(es.take(k + 1) =~= es.take(k).push(es[k]));
    lemma_value_push(es.take(k), es[k], x);
}

/// Replacing the value of the last entry.
pub proof fn lemma_value_drop_last(es: Seq<(int, int)>, x: int)
    requires
        es.len() > 0,
    ensures
        value_at(es, x) == value_at(es.drop_last(), x) + entry_at(es.last(), x),
{
    assert(es =~= es.drop_last().push(es.last()));
    lemma_value_push(es.drop_last(), es.last(), x);
}

proof fn lemma_value_remove(es: Seq<(int, int)>, k: int, x: int)
    requires
        0 <= k < es.len(),
    ensures
        value_at(es, x) == value_at(es.remove(k), x) + entry_at(es[k], x),
    decreases es.len(),
{
    lemma_value_drop_last(es, x);
    let fs = es.remove(k);
    if k == es.len() - 1 {
        assert(fs =~= es.drop_last());
    } else {
        lemma_value_drop_last(fs, x);
        assert(fs.drop_last() =~= es.drop_last().remove(k));
        lemma_value_remove(es.drop_last(), k, x);
    }
}

/// The order of the entries does not matter.
pub proof fn lemma_value_permuted(es: Seq<(int, int)>, fs: Seq<(int, int)>, x: int)
    requires
        es.to_multiset() == fs.to_multiset(),
    ensures
        value_at(es, x) == value_at(fs, x),
    decreases es.len(),
{
    broadcast use vstd::seq_lib::group_to_multiset_ensures;

    assert(es.len() == es.to_multiset().len());
    assert(fs.len() == fs.to_multiset().len());
    if es.len() > 0 {
        let e = es.last();
        let m = es.len() - 1;
        assert(es.to_multiset().count(es[m]) > 0);
        assert(fs.contains(e));
        let k = choose|k: int| 0 <= k < fs.len() && fs[k] == e;
        assert(es.remove(m).to_multiset() == fs.remove(k).to_multiset());
        lemma_value_remove(es, m, x);
        lemma_value_remove(fs, k, x);
        lemma_value_permuted(es.remove(m), fs.remove(k), x);
    }
}

/// A support has one entry for each value of its table that is not zero.
pub proof fn lemma_support_count(p: int, es: Seq<(int, int)>, size: int)
    requires
        p > 0,
        size >= 0,
        is_support(p, es, size),
    ensures
        nonzero_count(dense(es, size)) == es.len(),
{
    let n = es.len() as int;
    let t = dense(es, size);
    let h = |x: int, k: int| entry_at((es[k].0, 1), x);
    lemma_sum_swap(h, 0, size, 0, n);
    let f = |x: int|
        if t[x] != 0 {
            1int
        } else {
            0
        };
    let rows = |x: int| sum(|k: int| h(x, k), 0, n);
    assert forall|x: int| 0 <= x < size implies #[trigger] f(x) == rows(x) by {
        let row = |k: int| h(x, k);
        if exists|k: int| 0 <= k < n && (#[trigger] es[k]).0 == x {
            let k = choose|k: int| 0 <= k < n && (#[trigger] es[k]).0 == x;
            lemma_value_hit(es, k);
            assert forall|i: int| 0 <= i < n && i != k implies #[trigger] row(i) == 0 by {
                assert(es[i].0 != es[k].0);
            }
            lemma_sum_single(row, 0, n, k);
        } else {
            lemma_value_miss(es, x);
            lemma_sum_zero(row, 0, n);
        }
    }
    lemma_sum_ext(f, rows, 0, size);
    let cols = |k: int| sum(|x: int| h(x, k), 0, size);
    let one = |k: int| 1int;
    assert forall|k: int| 0 <= k < n implies #[trigger] cols(k) == one(k) by {
        let col = |x: int| h(x, k);
        assert(0 <= es[k].0 < size);
        lemma_sum_single(col, 0, size, es[k].0);
    }
    lemma_sum_ext(cols, one, 0, n);
    lemma_sum_ones(one, n);
}

proof fn lemma_sum_ones(f: spec_fn(int) -> int, n: int)
    requires
        n >= 0,
        forall|k: int| #[trigger] f(k) == 1,
    ensures
        sum(f, 0, n) == n,
    decreases n,
{
    if n > 0 {
        lemma_sum_ones(f, n - 1);
    }
}

} // verus!
