//! Weighted queries, grouped by two keys.

use crate::math::modular::{eqm, lemma_eqm_add, lemma_eqm_mul};
use crate::math::sums::{lemma_sum_add, lemma_sum_ext, lemma_sum_single, sum};
use vstd::prelude::*;

verus! {

/// The sum over a row's entries of their weights times `g(u, key)`.
pub open spec fn row_total(row: Seq<(int, int)>, g: spec_fn(int, int) -> int, u: int) -> int {
    sum(|j: int| row[j].1 * g(u, row[j].0), 0, row.len() as int)
}

/// The sum over the first `m` rows; the number of a row is its first key.
pub open spec fn rows_below(
    rows: Seq<Seq<(int, int)>>,
    g: spec_fn(int, int) -> int,
    m: int,
) -> int {
    sum(|u: int| row_total(rows[u], g, u), 0, m)
}

/// The sum over all rows.
pub open spec fn rows_total(rows: Seq<Seq<(int, int)>>, g: spec_fn(int, int) -> int) -> int {
    rows_below(rows, g, rows.len() as int)
}

/// The sum over the first `m` queries, each with a weight and two keys.
pub open spec fn queries_total(
    ws: Seq<int>,
    us: Seq<int>,
    ds: Seq<int>,
    g: spec_fn(int, int) -> int,
    m: int,
) -> int {
    sum(|i: int| ws[i] * g(us[i], ds[i]), 0, m)
}

/// The rows hold the queries: whatever is summed over the queries can be
/// summed over the rows.
pub open spec fn groups(
    p: int,
    rows: Seq<Seq<(int, int)>>,
    ws: Seq<int>,
    us: Seq<int>,
    ds: Seq<int>,
    m: int,
) -> bool {
    forall|g: spec_fn(int, int) -> int| #[trigger]
        eqm(p, rows_total(rows, g), queries_total(ws, us, ds, g, m))
}

/// No key occurs twice in a row.
pub open spec fn distinct_keys(row: Seq<(int, int)>) -> bool {
    forall|i: int, j: int| 0 <= i < j < row.len() ==> (#[trigger] row[i]).0 != (#[trigger] row[j]).0
}

/// The values of `numbers` were given out in order: each is at most one more
/// than the largest before it, and all below `count` occur.
pub open spec fn numbered(numbers: Seq<int>, count: int) -> bool {
    &&& forall|i: int| 0 <= i < numbers.len() ==> 0 <= #[trigger] numbers[i] < count
    &&& forall|i: int, d: int|
        0 <= i < numbers.len() && 0 <= d < numbers[i] ==> #[trigger] occurs(numbers.take(i), d)
    &&& forall|d: int| 0 <= d < count ==> #[trigger] occurs(numbers, d)
}

pub open spec fn occurs(numbers: Seq<int>, d: int) -> bool {
    exists|i: int| 0 <= i < numbers.len() && #[trigger] numbers[i] == d
}

/// Giving out an old number or the next new one.
pub proof fn lemma_numbered_push(numbers: Seq<int>, count: int, d: int)
    requires
        numbered(numbers, count),
        0 <= d <= count,
    ensures
        numbered(
            numbers.push(d),
            if d == count {
                count + 1
            } else {
                count
            },
        ),
{
    let longer = numbers.push(d);
    let count2 = if d == count {
        count + 1
    } else {
        count
    };
    let n = numbers.len() as int;
    assert forall|e: int| 0 <= e < count2 implies #[trigger] occurs(longer, e) by {
        if e == d {
            assert(longer[n] == e);
        } else {
            assert(occurs(numbers, e));
            let i = choose|i: int| 0 <= i < numbers.len() && #[trigger] numbers[i] == e;
            assert(longer[i] == e);
        }
    }
    assert forall|i: int, e: int|
        0 <= i < longer.len() && 0 <= e < longer[i] implies #[trigger] occurs(
        longer.take(i),
        e,
    ) by {
        assert(longer.take(i) =~= numbers.take(i));
        if i < n {
            assert(longer[i] == numbers[i]);
            assert(occurs(numbers.take(i), e));
        } else {
            assert(numbers.take(n) =~= numbers);
            assert(occurs(numbers, e));
        }
    }
}

pub proof fn lemma_row_push(
    row: Seq<(int, int)>,
    e: (int, int),
    g: spec_fn(int, int) -> int,
    u: int,
)
    ensures
        row_total(row.push(e), g, u) == row_total(row, g, u) + e.1 * g(u, e.0),
{
    let longer = row.push(e);
    let f = |j: int| longer[j].1 * g(u, longer[j].0);
    let h = |j: int| row[j].1 * g(u, row[j].0);
    lemma_sum_ext(f, h, 0, row.len() as int);
}

pub proof fn lemma_row_update(
    row: Seq<(int, int)>,
    k: int,
    v: int,
    g: spec_fn(int, int) -> int,
    u: int,
)
    requires
        0 <= k < row.len(),
    ensures
        row_total(row.update(k, (row[k].0, v)), g, u) == row_total(row, g, u) + (v - row[k].1) * g(
            u,
            row[k].0,
        ),
{
    let n = row.len() as int;
    let other = row.update(k, (row[k].0, v));
    let f = |j: int| other[j].1 * g(u, other[j].0);
    let h = |j: int| row[j].1 * g(u, row[j].0);
    let change = |j: int|
        if j == k {
            (v - row[k].1) * g(u, row[k].0)
        } else {
            0
        };
    let both = |j: int| h(j) + change(j);
    assert forall|j: int| 0 <= j < n implies #[trigger] f(j) == both(j) by {
        if j == k {
            let y = g(u, row[k].0);
            let a = row[k].1;
            assert(v * y == a * y + (v - a) * y) by (nonlinear_arith);
        }
    }
    lemma_sum_ext(f, both, 0, n);
    lemma_sum_add(h, change, 0, n);
    lemma_sum_single(change, 0, n, k);
}

pub proof fn lemma_rows_update(
    rows: Seq<Seq<(int, int)>>,
    u: int,
    row: Seq<(int, int)>,
    g: spec_fn(int, int) -> int,
)
    requires
        0 <= u < rows.len(),
    ensures
        rows_total(rows.update(u, row), g) == rows_total(rows, g) + row_total(row, g, u)
            - row_total(rows[u], g, u),
{
    let n = rows.len() as int;
    let other = rows.update(u, row);
    let f = |i: int| row_total(other[i], g, i);
    let h = |i: int| row_total(rows[i], g, i);
    let change = |i: int|
        if i == u {
            row_total(row, g, u) - row_total(rows[u], g, u)
        } else {
            0
        };
    let both = |i: int| h(i) + change(i);
    assert forall|i: int| 0 <= i < n implies #[trigger] f(i) == both(i) by {}
    lemma_sum_ext(f, both, 0, n);
    lemma_sum_add(h, change, 0, n);
    lemma_sum_single(change, 0, n, u);
}

/// One more query, put into the row of its first key: as a new entry, or added
/// to the weight of the entry of its second key.
pub proof fn lemma_groups_step(
    p: int,
    rows: Seq<Seq<(int, int)>>,
    row: Seq<(int, int)>,
    ws: Seq<int>,
    us: Seq<int>,
    ds: Seq<int>,
    m: int,
    k: int,
)
    requires
        p > 0,
        0 <= m,
        groups(p, rows, ws, us, ds, m),
        0 <= us[m] < rows.len(),
        ({
            let before = rows[us[m]];
            ||| row == before.push((ds[m], ws[m]))
            ||| {
                &&& 0 <= k < before.len()
                &&& before[k].0 == ds[m]
                &&& row.len() == before.len()
                &&& row == before.update(k, (ds[m], row[k].1))
                &&& eqm(p, row[k].1, before[k].1 + ws[m])
            }
        }),
    ensures
        groups(p, rows.update(us[m], row), ws, us, ds, m + 1),
{
    let u = us[m];
    let before = rows[u];
    let after = rows.update(u, row);
    assert forall|g: spec_fn(int, int) -> int| #[trigger]
        eqm(p, rows_total(after, g), queries_total(ws, us, ds, g, m + 1)) by {
        assert(eqm(p, rows_total(rows, g), queries_total(ws, us, ds, g, m)));
        lemma_rows_update(rows, u, row, g);
        let y = g(u, ds[m]);
        let e = ws[m] * y;
        if row == before.push((ds[m], ws[m])) {
            lemma_row_push(before, (ds[m], ws[m]), g, u);
            lemma_eqm_add(p, rows_total(rows, g), queries_total(ws, us, ds, g, m), e, e);
        } else {
            let v = row[k].1;
            lemma_row_update(before, k, v, g, u);
            let w = before[k].1;
            crate::math::modular::lemma_eqm_sub(p, v, w + ws[m], w, w);
            lemma_eqm_mul(p, v - w, ws[m], y, y);
            lemma_eqm_add(
                p,
                rows_total(rows, g),
                queries_total(ws, us, ds, g, m),
                (v - w) * y,
                e,
            );
        }
    }
}

} // verus!
