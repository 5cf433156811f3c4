//! Sizes for the log: how large things are, and how sizes are written.

use crate::arithmetic::dense::{index_bits, lemma_power_below_word, power_of_two};
use crate::math::sums::sum;
use crate::pcs::multilinear_kzg::srs::Evaluations;
use crate::text::{decimal, decimal_text, digit};
use vstd::arithmetic::power2::{lemma2_to64, lemma_pow2_pos, pow2};
use vstd::prelude::*;
use vstd::string::*;

verus! {

/// `n / d`, rounded to the nearest integer, and to the even one of two.
pub open spec fn rounded(n: int, d: int) -> int {
    if 2 * (n % d) < d || (2 * (n % d) == d && (n / d) % 2 == 0) {
        n / d
    } else {
        n / d + 1
    }
}

/// The number of bits of `n` beyond the 53 that a double holds.
pub open spec fn extra_bits(n: int) -> nat
    decreases n,
{
    if n < 0x20_0000_0000_0000 {
        0
    } else {
        1 + extra_bits(n / 2)
    }
}

/// The integer that a double holds for `n`.
pub open spec fn as_double(n: int) -> int {
    rounded(n, pow2(extra_bits(n)) as int) * pow2(extra_bits(n))
}

/// The unit that a size is written in: the largest, up to the fourth power of
/// 1024, that it reaches.
pub open spec fn unit_of(value: int) -> int {
    if value < 0x400 {
        0
    } else if value < 0x10_0000 {
        1
    } else if value < 0x4000_0000 {
        2
    } else if value < 0x100_0000_0000 {
        3
    } else {
        4
    }
}

/// The number of bytes of a unit.
pub open spec fn unit_size(unit: int) -> int {
    if unit == 0 {
        1
    } else if unit == 1 {
        0x400
    } else if unit == 2 {
        0x10_0000
    } else if unit == 3 {
        0x4000_0000
    } else {
        0x100_0000_0000
    }
}

pub open spec fn unit_text(unit: int) -> Seq<char> {
    if unit == 0 {
        " B"@
    } else if unit == 1 {
        " KiB"@
    } else if unit == 2 {
        " MiB"@
    } else if unit == 3 {
        " GiB"@
    } else {
        " TiB"@
    }
}

/// The hundredths of its unit that a size comes to.
pub open spec fn hundredths(bytes: int) -> int {
    rounded(as_double(bytes) * 100, unit_size(unit_of(as_double(bytes))))
}

/// A size as text: whole bytes, or two decimal places of a larger unit.
pub open spec fn size_text(bytes: nat) -> Seq<char> {
    let unit = unit_of(as_double(bytes as int));
    if unit == 0 {
        decimal(bytes) + unit_text(0)
    } else {
        let h = hundredths(bytes as int) as nat;
        decimal(h / 100) + "."@ + seq![digit((h / 10) % 10), digit(h % 10)] + unit_text(unit)
    }
}

proof fn lemma_rounded_bounds(n: int, d: int)
    requires
        n >= 0,
        d > 0,
    ensures
        0 <= rounded(n, d),
        n / d <= rounded(n, d) <= n / d + 1,
        rounded(n, d) * d <= 2 * n || n < d,
{
    vstd::arithmetic::div_mod::lemma_fundamental_div_mod(n, d);
    vstd::arithmetic::div_mod::lemma_div_pos_is_pos(n, d);
    let (q, r) = (n / d, n % d);
    if n >= d {
        assert(q >= 1) by {
            if q < 1 {
                assert(d * q == 0) by (nonlinear_arith)
                    requires
                        q == 0,
                ;
            }
        }
        assert((q + 1) * d <= 2 * (d * q) + 2 * r) by (nonlinear_arith)
            requires
                q >= 1,
                d > 0,
                r >= 0,
        ;
        assert(q * d <= 2 * (d * q) + 2 * r) by (nonlinear_arith)
            requires
                q >= 1,
                d > 0,
                r >= 0,
        ;
    }
}

proof fn lemma_extra_bits(n: int)
    requires
        n >= 0,
    ensures
        extra_bits(n) > 0 ==> pow2(extra_bits(n)) <= n,
        extra_bits(n) == 0 ==> as_double(n) == n,
    decreases n,
{
    lemma2_to64();
    if n >= 0x20_0000_0000_0000 {
        lemma_extra_bits(n / 2);
        crate::math::multilinear::lemma_pow2_halves(extra_bits(n));
        if extra_bits(n / 2) == 0 {
            assert(pow2(1) == 2);
        }
    } else {
        assert(n % 1 == 0 && n / 1 == n && n * 1 == n);
    }
}

/// Rounds a quotient.
fn rounded_quotient(n: u128, d: u128) -> (r: u128)
    requires
        d > 0,
        n < 0x1_0000_0000_0000_0000_0000_0000,
        d < 0x1_0000_0000_0000_0000_0000_0000,
    ensures
        r == rounded(n as int, d as int),
{
    let q = n / d;
    let rest = n % d;
    proof {
        vstd::arithmetic::div_mod::lemma_div_is_ordered_by_denominator(n as int, 1, d as int);
        assert((n as int) / 1 == n);
    }
    if 2 * rest < d || (2 * rest == d && q % 2 == 0) {
        q
    } else {
        q + 1
    }
}

/// The integer that a double holds for a number of bytes.
fn doubled(bytes: usize) -> (r: u128)
    ensures
        r == as_double(bytes as int),
        r <= 2 * bytes,
{
    let ghost n = bytes as int;
    let mut rest: u128 = bytes as u128;
    let mut unit: u128 = 1;
    let ghost mut bits: nat = 0;
    proof {
        lemma2_to64();
    }
    while rest >= 0x20_0000_0000_0000
        invariant
            0 <= rest <= bytes,
            unit == pow2(bits),
            bits <= 11,
            rest * unit <= bytes,
            extra_bits(n) == bits + extra_bits(rest as int),
            n == bytes,
        decreases rest,
    {
        proof {
            let (a, u) = (rest as int, unit as int);
            lemma2_to64();
            crate::math::multilinear::lemma_pow2_halves(bits + 1);
            assert((a / 2) * (2 * u) <= a * u) by (nonlinear_arith)
                requires
                    a >= 0,
                    u >= 1,
            ;
            assert(u <= 2048) by (nonlinear_arith)
                requires
                    a * u <= 0xffff_ffff_ffff_ffff,
                    a >= 0x20_0000_0000_0000,
                    u >= 1,
            ;
            if bits == 11 {
                assert(u == 2048);
                assert(a * 2048 <= 0xffff_ffff_ffff_ffff);
                assert(false);
            }
            bits = bits + 1;
        }
        rest = rest / 2;
        unit = unit * 2;
    }
    proof {
        assert(extra_bits(n) == bits);
        lemma2_to64();
        lemma_extra_bits(n);
        lemma_pow2_pos(bits);
        assert(unit <= 2048);
        lemma_rounded_bounds(n, unit as int);
    }
    let q = rounded_quotient(bytes as u128, unit);
    proof {
        let (a, u) = (q as int, unit as int);
        assert(a * u <= 2 * n);
        assert(a * u >= 0) by (nonlinear_arith)
            requires
                a >= 0,
                u >= 1,
        ;
    }
    q * unit
}

/// A size for the log.
pub fn format_bytes(bytes: usize) -> (r: String)
    ensures
        r@ == size_text(bytes as nat),
{
    let value = doubled(bytes);
    if value < 0x400 {
        return decimal_text(bytes).concat(" B");
    }
    let (size, name): (u128, &str) = if value < 0x10_0000 {
        (0x400, " KiB")
    } else if value < 0x4000_0000 {
        (0x10_0000, " MiB")
    } else if value < 0x100_0000_0000 {
        (0x4000_0000, " GiB")
    } else {
        (0x100_0000_0000, " TiB")
    };
    let h = rounded_quotient(value * 100, size);
    let whole = h / 100;
    proof {
        lemma_rounded_bounds(value * 100, size as int);
        vstd::arithmetic::div_mod::lemma_div_is_ordered_by_denominator(
            value * 100,
            0x400,
            size as int,
        );
        assert(whole <= usize::MAX);
    }
    let tens = ((h / 10) % 10) as usize;
    let ones = (h % 10) as usize;
    let text = decimal_text(whole as usize).concat(".");
    let text = text.concat(decimal_text(tens).as_str()).concat(decimal_text(ones).as_str());
    let r = text.concat(name);
    proof {
        let two = seq![digit(tens as nat), digit(ones as nat)];
        assert(r@ =~= decimal(whole as nat) + "."@ + two + unit_text(unit_of(value as int)));
    }
    r
}

/// A size for the log of batch openings.
pub fn batch_open_format_bytes(bytes: usize) -> (r: String)
    ensures
        r@ == size_text(bytes as nat),
{
    format_bytes(bytes)
}

/// A product that stops at the largest `usize`.
pub open spec fn capped_product(a: int, b: int) -> int {
    if a * b <= usize::MAX {
        a * b
    } else {
        usize::MAX as int
    }
}

fn saturating_product(a: usize, b: usize) -> (r: usize)
    ensures
        r == capped_product(a as int, b as int),
{
    match a.checked_mul(b) {
        Some(r) => r,
        None => usize::MAX,
    }
}

/// The number of values of a table, or the largest `usize` where that is too
/// many.
pub open spec fn table_length(num_var: usize) -> int {
    if index_bits(num_var) < usize::BITS {
        pow2(index_bits(num_var)) as int
    } else {
        usize::MAX as int
    }
}

/// What a batch opening takes, in bytes: its points, one equality table, and
/// one such table for each distinct point.
pub fn batch_open_footprint(
    num_var: usize,
    point_count: usize,
    unique_point_count: usize,
    scalar_size: usize,
) -> (r: (usize, usize, usize))
    ensures
        r.0 == capped_product(
            capped_product(point_count as int, num_var as int),
            scalar_size as int,
        ),
        r.1 == capped_product(table_length(num_var), scalar_size as int),
        r.2 == capped_product(unique_point_count as int, r.1 as int),
        is_open_footprint(num_var, point_count, unique_point_count, scalar_size, r),
{
    #[verifier::truncate]
    let bits = num_var as u32;
    let eval_count = if bits < usize::BITS {
        proof {
            lemma_power_below_word(bits as nat);
        }
        power_of_two(bits as usize)
    } else {
        usize::MAX
    };
    let point_bytes = saturating_product(saturating_product(point_count, num_var), scalar_size);
    let per_table = saturating_product(eval_count, scalar_size);
    (point_bytes, per_table, saturating_product(unique_point_count, per_table))
}

/// The number of points of the first `m` tables.
pub open spec fn points_below<C>(tables: Seq<Evaluations<C>>, m: int) -> int {
    sum(|i: int| tables[i].evals@.len() as int, 0, m)
}

proof fn lemma_points_grow<C>(tables: Seq<Evaluations<C>>, k: int, m: int)
    requires
        0 <= k <= m,
    ensures
        points_below(tables, k) <= points_below(tables, m),
    decreases m,
{
    if k < m {
        lemma_points_grow(tables, k, m - 1);
    }
}

/// What a reference string takes: its number of points and their bytes, and
/// the bytes of a table of scalars.
pub fn srs_footprint<C>(
    powers_of_g: &[Evaluations<C>],
    point_size: usize,
    suffix_len: Option<usize>,
    scalar_size: usize,
) -> (r: (usize, usize, usize))
    requires
        points_below(powers_of_g@, powers_of_g@.len() as int) <= usize::MAX,
    ensures
        r.0 == points_below(powers_of_g@, powers_of_g@.len() as int),
        r.1 == capped_product(r.0 as int, point_size as int),
        r.2 == capped_product(
            match suffix_len {
                Some(len) => len as int,
                None => 0,
            },
            scalar_size as int,
        ),
{
    let mut points: usize = 0;
    let mut i: usize = 0;
    while i < powers_of_g.len()
        invariant
            0 <= i <= powers_of_g@.len(),
            points_below(powers_of_g@, powers_of_g@.len() as int) <= usize::MAX,
            points == points_below(powers_of_g@, i as int),
        decreases powers_of_g.len() - i,
    {
        proof {
            lemma_points_grow(powers_of_g@, i + 1, powers_of_g@.len() as int);
        }
        points = points + powers_of_g[i].evals.len();
        i = i + 1;
    }
    let suffix = match suffix_len {
        Some(len) => len,
        None => 0,
    };
    (points, saturating_product(points, point_size), saturating_product(suffix, scalar_size))
}

/// A size that a double holds is written in the largest unit that it reaches, up
/// to the fourth power of 1024, to the nearest hundredth.
pub proof fn lemma_size_is_nearest(bytes: nat)
    requires
        bytes < 0x20_0000_0000_0000,
    ensures
        bytes < 1024 ==> size_text(bytes) == decimal(bytes) + " B"@,
        bytes >= 1024 ==> {
            let unit = unit_of(bytes as int);
            let size = unit_size(unit);
            let h = hundredths(bytes as int);
            &&& size <= bytes
            &&& bytes < 1024 * size || size == 0x100_0000_0000
            &&& size == 0x400 || size == 0x10_0000 || size == 0x4000_0000 || size == 0x100_0000_0000
            &&& -size <= 2 * (h * size - 100 * bytes) <= size
            &&& size_text(bytes) == decimal((h / 100) as nat) + "."@ + seq![
                digit(((h / 10) % 10) as nat),
                digit((h % 10) as nat),
            ] + unit_text(unit)
        },
{
    lemma2_to64();
    let n = bytes as int;
    assert(extra_bits(n) == 0);
    assert(rounded(n, 1) == n);
    assert(as_double(n) == n);
    if bytes >= 1024 {
        let size = unit_size(unit_of(n));
        let m = n * 100;
        let q = m / size;
        assert(m == q * size + m % size && 0 <= m % size < size) by (nonlinear_arith)
            requires
                size > 0,
                q == m / size,
        ;
        assert((q + 1) * size == q * size + size) by (nonlinear_arith);
        assert(q >= 0) by (nonlinear_arith)
            requires
                m >= 0,
                size > 0,
                q == m / size,
        ;
    }
}

/// What is said of the memory of a batch opening.
pub open spec fn is_open_footprint(
    num_var: usize,
    point_count: usize,
    unique_point_count: usize,
    scalar_size: usize,
    r: (usize, usize, usize),
) -> bool {
    &&& r.0 == capped_product(
        capped_product(point_count as int, num_var as int),
        scalar_size as int,
    )
    &&& r.1 == capped_product(table_length(num_var), scalar_size as int)
    &&& r.2 == capped_product(unique_point_count as int, r.1 as int)
}

/// Where the sizes fit in a word they are exact: one scalar for each coordinate
/// of each point, one for each vertex of the hypercube, and one such table for
/// each distinct point. Where one does not fit, the largest word stands for it.
pub proof fn lemma_open_footprint(
    num_var: usize,
    point_count: usize,
    unique_point_count: usize,
    scalar_size: usize,
    r: (usize, usize, usize),
)
    requires
        is_open_footprint(num_var, point_count, unique_point_count, scalar_size, r),
        num_var < usize::BITS,
        scalar_size > 0,
    ensures
        ({
            let points = point_count * num_var * scalar_size;
            let table = pow2(num_var as nat) * scalar_size;
            let tables = unique_point_count * table;
            &&& points <= usize::MAX ==> r.0 == points
            &&& points > usize::MAX ==> r.0 == usize::MAX
            &&& table <= usize::MAX ==> r.1 == table
            &&& table > usize::MAX ==> r.1 == usize::MAX
            &&& tables <= usize::MAX && unique_point_count > 0 ==> r.2 == tables
            &&& tables > usize::MAX ==> r.2 == usize::MAX
            &&& unique_point_count == 0 ==> r.2 == 0
        }),
{
    let (a, b, s) = (point_count as int, num_var as int, scalar_size as int);
    let (u, t) = (unique_point_count as int, pow2(num_var as nat) * s);
    let top = usize::MAX as int;
    assert(index_bits(num_var) == num_var);
    assert(a * b >= 0 && a * b * s >= a * b && top * s >= top) by (nonlinear_arith)
        requires
            a >= 0,
            b >= 0,
            s >= 1,
            top >= 0,
    ;
    assert(u > 0 ==> u * t >= t && u * top >= top) by (nonlinear_arith)
        requires
            u >= 0,
            t >= 0,
            top >= 0,
    ;
    assert(0 * t == 0 && 0 * (r.1 as int) == 0);
}

} // verus!
