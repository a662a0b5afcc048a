//! The index that a value is quantized to is that of a nearest centroid, and the scale
//! of a refinement step is the best for the centroids it was made for.
use vstd::prelude::*;
use vstd::arithmetic::power2::pow2;
use vstd::set_lib::set_int_range;
use crate::arith::{sum_of, Real};
use crate::exact::{
    lemma_sums, lemma_total_at_most, lemma_total_plus, lemma_total_same, lemma_total_scaled,
    multiplies, read, sums, total,
};
use crate::quantize::{
    block_code, centroids, chosen, half_of, half_scale, inverse, lemma_chosen_bound, passed,
    products, refine_step, refined, seed,
};
use crate::scheme::QuantValue;

verus! {

/// How far two numbers are apart.
pub open spec fn distance(a: real, b: real) -> real {
    if a >= b {
        a - b
    } else {
        b - a
    }
}

/// Whether the first `levels` entries of the table ascend.
pub open spec fn ascending<R: Real>(f: spec_fn(R) -> real, table: Seq<R>, levels: int) -> bool {
    forall|i: int, j: int|
        0 <= i <= j < levels ==> f(#[trigger] table[i]) <= f(#[trigger] table[j])
}

/// The middle between entry `i` and the next, as half of their sum.
pub open spec fn midpoint<R: Real>(table: Seq<R>, i: int) -> R {
    table[i].plus_spec(table[i + 1]).times_spec(R::decimal_spec(5, 1))
}

/// Whether midpoint `i` does not round, and is compared to `val` as the numbers are.
pub open spec fn midpoint_exact<R: Real>(
    f: spec_fn(R) -> real,
    table: Seq<R>,
    val: R,
    i: int,
) -> bool {
    let mid = midpoint(table, i);
    &&& f(mid) + f(mid) == f(table[i]) + f(table[i + 1])
    &&& val.at_least_spec(mid) == (f(val) >= f(mid))
}

/// The midpoints that do not lie above a value are the first ones.
pub(crate) proof fn lemma_partition<R: Real>(f: spec_fn(R) -> real, table: Seq<R>, val: R, n: int)
    requires
        0 <= n,
        ascending(f, table, n + 1),
        forall|i: int| 0 <= i < n ==> #[trigger] midpoint_exact(f, table, val, i),
    ensures
        passed(table, val, n) <= n,
        forall|i: int|
            0 <= i < passed(table, val, n) ==> f(val) >= f(#[trigger] midpoint(table, i)),
        forall|i: int|
            passed(table, val, n) <= i < n ==> f(val) < f(#[trigger] midpoint(table, i)),
    decreases n,
{
    if n > 0 {
        lemma_partition(f, table, val, n - 1);
        assert(midpoint_exact(f, table, val, n - 1));
        let before = passed(table, val, n - 1);
        if val.at_least_spec(midpoint(table, n - 1)) && before < n - 1 {
            let p = before as int;
            assert(midpoint_exact(f, table, val, p));
            assert(f(val) < f(midpoint(table, p)));
            assert(f(table[p]) <= f(table[n - 1]));
            assert(f(table[p + 1]) <= f(table[n]));
        }
    }
}

/// Where the table ascends and the midpoints do not round, the index that stands for a
/// value is that of a centroid with none nearer to the value.
pub proof fn law_chosen_is_nearest<R: Real>(
    f: spec_fn(R) -> real,
    table: Seq<R>,
    val: R,
    value: QuantValue,
    other: int,
)
    requires
        ascending(f, table, pow2(value.bits()) as int),
        forall|i: int|
            0 <= i < pow2(value.bits()) - 1 ==> #[trigger] midpoint_exact(f, table, val, i),
        0 <= other < pow2(value.bits()),
    ensures
        chosen(table, val, value) < pow2(value.bits()),
        distance(f(val), f(table[chosen(table, val, value) as int])) <= distance(
            f(val),
            f(table[other]),
        ),
{
    let levels = pow2(value.bits()) as int;
    let best = chosen(table, val, value) as int;
    lemma_chosen_bound(table, val, value);
    lemma_partition(f, table, val, levels - 1);
    if other > best {
        assert(midpoint_exact(f, table, val, best));
        assert(f(val) < f(midpoint(table, best)));
        assert(f(table[best]) <= f(table[best + 1]));
        assert(f(table[best + 1]) <= f(table[other]));
    } else if other < best {
        assert(midpoint_exact(f, table, val, best - 1));
        assert(f(val) >= f(midpoint(table, best - 1)));
        assert(f(table[best - 1]) <= f(table[best]));
        assert(f(table[other]) <= f(table[best - 1]));
    }
}

/// Larger values are never quantized to smaller indices.
pub proof fn law_chosen_is_monotone<R: Real>(
    f: spec_fn(R) -> real,
    table: Seq<R>,
    small: R,
    large: R,
    value: QuantValue,
)
    requires
        ascending(f, table, pow2(value.bits()) as int),
        forall|i: int|
            0 <= i < pow2(value.bits()) - 1 ==> #[trigger] midpoint_exact(f, table, small, i),
        forall|i: int|
            0 <= i < pow2(value.bits()) - 1 ==> #[trigger] midpoint_exact(f, table, large, i),
        f(small) <= f(large),
    ensures
        chosen(table, small, value) <= chosen(table, large, value),
{
    let n = pow2(value.bits()) - 1;
    vstd::arithmetic::power2::lemma_pow2_pos(value.bits());
    lemma_partition(f, table, small, n);
    lemma_partition(f, table, large, n);
    let i = chosen(table, large, value) as int;
    if chosen(table, small, value) > i {
        assert(f(small) >= f(midpoint(table, i)));
        assert(f(large) < f(midpoint(table, i)));
    }
}

/// The squared errors of sixteen values against multiples of centroids.
pub open spec fn squared_errors<R: Real>(
    f: spec_fn(R) -> real,
    half: Seq<R>,
    c: Seq<R>,
    d: real,
) -> spec_fn(int) -> real {
    |j: int| (f(half[j]) - f(c[j]) * d) * (f(half[j]) - f(c[j]) * d)
}

/// Whether the sum of the products of a half-block's values with those of another does
/// not round.
pub open spec fn products_exact<R: Real>(
    f: spec_fn(R) -> real,
    x: Seq<R>,
    y: Seq<R>,
) -> bool {
    &&& sums(f, products(x, y), 16)
    &&& forall|j: int| 0 <= j < 16 ==> multiplies(f, #[trigger] x[j], y[j])
}

/// The sum of products, read.
proof fn lemma_products<R: Real>(f: spec_fn(R) -> real, x: Seq<R>, y: Seq<R>)
    requires
        products_exact(f, x, y),
    ensures
        f(sum_of(products(x, y), 16)) == total(|j: int| f(x[j]) * f(y[j]), 16),
{
    let g = |j: int| f(x[j]) * f(y[j]);
    lemma_sums(f, products(x, y), 16);
    assert forall|j: int| 0 <= j < 16 implies #[trigger] read(f, products(x, y))(j) == g(j) by {
        assert(multiplies(f, x[j], y[j]));
    }
    lemma_total_same(read(f, products(x, y)), g, 16);
}

/// The square of a difference.
proof fn lemma_square(r: real, c: real, e: real)
    ensures
        (r - c * e) * (r - c * e) == r * r + ((r * c) * (-(e + e)) + (c * c) * (e * e)),
{
    let t = c * e;
    assert((r - t) * (r - t) == r * (r - t) - t * (r - t)) by (nonlinear_arith);
    assert(r * (r - t) == r * r - r * t) by (nonlinear_arith);
    assert(t * (r - t) == t * r - t * t) by (nonlinear_arith);
    assert(t * r == r * t) by (nonlinear_arith);
    assert(r * (c * e) == (r * c) * e) by (nonlinear_arith);
    assert((c * e) * (c * e) == (c * c) * (e * e)) by (nonlinear_arith);
    let q = r * c;
    assert(q * (-(e + e)) == -(q * e) - q * e) by (nonlinear_arith);
}

/// Where no operation rounds, one step of the refinement gives the scale with the least
/// sum of squared errors against the centroids that it was made for.
pub proof fn law_refined_scale_fits_best<R: Real>(
    f: spec_fn(R) -> real,
    table: Seq<R>,
    half: Seq<R>,
    d: R,
    value: QuantValue,
    other: real,
)
    requires
        ({
            let c = centroids(table, half, d, value);
            let num = sum_of(products(half, c), 16);
            let den = sum_of(products(c, c), 16);
            &&& products_exact(f, half, c)
            &&& products_exact(f, c, c)
            &&& den.exceeds_spec(R::decimal_spec(1, 10))
            &&& f(den) > 0 as real
            &&& f(num.over_spec(den)) * f(den) == f(num)
        }),
    ensures
        ({
            let c = centroids(table, half, d, value);
            total(squared_errors(f, half, c, f(refine_step(table, half, d, value))), 16) <= total(
                squared_errors(f, half, c, other),
                16,
            )
        }),
{
    let c = centroids(table, half, d, value);
    let best = f(refine_step(table, half, d, value));
    lemma_products(f, half, c);
    lemma_products(f, c, c);
    let e = other - best;
    let xc = |j: int| f(half[j]) * f(c[j]);
    let cc = |j: int| f(c[j]) * f(c[j]);
    let rc = |j: int| (f(half[j]) - f(c[j]) * best) * f(c[j]);
    let off = |j: int| cc(j) * (-best);
    let errors = squared_errors(f, half, c, best);
    let others = squared_errors(f, half, c, other);
    let cross = |j: int| rc(j) * (-(e + e));
    let square = |j: int| cc(j) * (e * e);
    let more = |j: int| cross(j) + square(j);
    assert forall|j: int| 0 <= j < 16 implies #[trigger] rc(j) == xc(j) + off(j) by {
        let (x, y) = (f(half[j]), f(c[j]));
        let t = y * best;
        assert((x - t) * y == x * y - t * y) by (nonlinear_arith);
        assert((y * best) * y == (y * y) * best) by (nonlinear_arith);
        let q = y * y;
        assert(q * (-best) == -(q * best)) by (nonlinear_arith);
    }
    lemma_total_plus(xc, off, rc, 16);
    lemma_total_scaled(cc, off, -best, 16);
    let den = total(cc, 16);
    assert(den * (-best) == -(best * den)) by (nonlinear_arith);
    assert(total(rc, 16) == 0 as real);
    assert forall|j: int| 0 <= j < 16 implies #[trigger] others(j) == errors(j) + more(j) by {
        let (x, y) = (f(half[j]), f(c[j]));
        let r = x - y * best;
        assert(y * other == y * best + y * e) by (nonlinear_arith)
            requires
                other == best + e,
        ;
        lemma_square(r, y, e);
    }
    lemma_total_plus(errors, more, others, 16);
    lemma_total_plus(cross, square, more, 16);
    lemma_total_scaled(rc, cross, -(e + e), 16);
    lemma_total_scaled(cc, square, e * e, 16);
    assert((0 as real) * (-(e + e)) == 0 as real) by (nonlinear_arith);
    let ee = e * e;
    assert(ee >= 0 as real) by (nonlinear_arith)
        requires
            ee == e * e,
    ;
    assert(den * ee >= 0 as real) by (nonlinear_arith)
        requires
            den > 0 as real,
            ee >= 0 as real,
    ;
}

/// Where the table ascends strictly and the midpoints do not round, a value on a midpoint
/// takes the upper of the two centroids.
pub proof fn law_midpoint_takes_the_upper<R: Real>(
    f: spec_fn(R) -> real,
    table: Seq<R>,
    val: R,
    value: QuantValue,
    i: int,
)
    requires
        forall|a: int, b: int|
            0 <= a < b < pow2(value.bits()) ==> f(#[trigger] table[a]) < f(#[trigger] table[b]),
        forall|a: int|
            0 <= a < pow2(value.bits()) - 1 ==> #[trigger] midpoint_exact(f, table, val, a),
        0 <= i < pow2(value.bits()) - 1,
        f(val) == f(midpoint(table, i)),
    ensures
        chosen(table, val, value) == i + 1,
{
    let n = pow2(value.bits()) - 1;
    assert(ascending(f, table, pow2(value.bits()) as int)) by {
        assert forall|a: int, b: int| 0 <= a <= b < pow2(value.bits()) implies f(
            #[trigger] table[a],
        ) <= f(#[trigger] table[b]) by {
            if a < b {
                assert(f(table[a]) < f(table[b]));
            }
        }
    }
    lemma_partition(f, table, val, n);
    let best = chosen(table, val, value) as int;
    assert(midpoint_exact(f, table, val, i));
    if best <= i {
        assert(f(val) < f(midpoint(table, i)));
    }
    if best > i + 1 {
        assert(midpoint_exact(f, table, val, i + 1));
        assert(f(val) >= f(midpoint(table, i + 1)));
        assert(f(table[i]) < f(table[i + 1]));
        assert(f(table[i + 1]) < f(table[i + 2]));
    }
}

/// Whether the choice of centroids under scale `d` does not round: the scale lies above
/// the threshold, its inverse is one over it, and the scaled values and the midpoints
/// are what they stand for.
pub open spec fn choice_exact<R: Real>(
    f: spec_fn(R) -> real,
    table: Seq<R>,
    half: Seq<R>,
    d: R,
    value: QuantValue,
) -> bool {
    &&& d.exceeds_spec(R::decimal_spec(1, 10))
    &&& f(d) > 0 as real
    &&& f(inverse(d)) * f(d) == 1 as real
    &&& forall|j: int|
        0 <= j < 16 ==> multiplies(f, #[trigger] half[j], inverse(d))
    &&& forall|j: int, i: int|
        0 <= j < 16 && 0 <= i < pow2(value.bits()) - 1 ==> #[trigger] midpoint_exact(
            f,
            table,
            half[j].times_spec(inverse(d)),
            i,
        )
}

/// Whether the refinement step from scale `d` does not round.
pub open spec fn step_exact<R: Real>(
    f: spec_fn(R) -> real,
    table: Seq<R>,
    half: Seq<R>,
    d: R,
    value: QuantValue,
) -> bool {
    let c = centroids(table, half, d, value);
    let num = sum_of(products(half, c), 16);
    let den = sum_of(products(c, c), 16);
    den.exceeds_spec(R::decimal_spec(1, 10)) ==> {
        &&& products_exact(f, half, c)
        &&& products_exact(f, c, c)
        &&& f(den) > 0 as real
        &&& f(num.over_spec(den)) * f(den) == f(num)
    }
}

/// The sum of squared errors of a half-block under scale `d`, with the centroids that the
/// scale chooses.
pub open spec fn fit_error<R: Real>(
    f: spec_fn(R) -> real,
    table: Seq<R>,
    half: Seq<R>,
    d: R,
    value: QuantValue,
) -> real {
    total(squared_errors(f, half, centroids(table, half, d, value), f(d)), 16)
}

/// What is nearer before it is scaled is nearer after.
proof fn lemma_nearer_scaled(x: real, u: real, d: real, c: real, o: real)
    requires
        d > 0 as real,
        u == x * d,
        distance(x, c) <= distance(x, o),
    ensures
        (u - c * d) * (u - c * d) <= (u - o * d) * (u - o * d),
{
    let (p, q) = (x - c, x - o);
    assert(u - c * d == p * d) by (nonlinear_arith)
        requires
            u == x * d,
            p == x - c,
    ;
    assert(u - o * d == q * d) by (nonlinear_arith)
        requires
            u == x * d,
            q == x - o,
    ;
    let (a, b) = (distance(x, c), distance(x, o));
    assert(p * p == a * a) by {
        if p < 0 as real {
            assert((-p) * (-p) == p * p) by (nonlinear_arith);
        }
    }
    assert(q * q == b * b) by {
        if q < 0 as real {
            assert((-q) * (-q) == q * q) by (nonlinear_arith);
        }
    }
    assert(a * a <= b * b) by (nonlinear_arith)
        requires
            0 as real <= a,
            a <= b,
    ;
    assert((p * d) * (p * d) == (p * p) * (d * d)) by (nonlinear_arith);
    assert((q * d) * (q * d) == (q * q) * (d * d)) by (nonlinear_arith);
    let dd = d * d;
    assert(dd >= 0 as real) by (nonlinear_arith)
        requires
            dd == d * d,
    ;
    let (pp, qq) = (p * p, q * q);
    assert(pp * dd <= qq * dd) by (nonlinear_arith)
        requires
            pp <= qq,
            dd >= 0 as real,
    ;
}

/// The centroids that a scale chooses fit no worse under it than those of another.
proof fn lemma_choice_fits<R: Real>(
    f: spec_fn(R) -> real,
    table: Seq<R>,
    half: Seq<R>,
    d: R,
    other: R,
    value: QuantValue,
)
    requires
        ascending(f, table, pow2(value.bits()) as int),
        choice_exact(f, table, half, d, value),
    ensures
        fit_error(f, table, half, d, value) <= total(
            squared_errors(f, half, centroids(table, half, other, value), f(d)),
            16,
        ),
{
    let c = centroids(table, half, d, value);
    let o = centroids(table, half, other, value);
    let own = squared_errors(f, half, c, f(d));
    let others = squared_errors(f, half, o, f(d));
    assert forall|j: int| 0 <= j < 16 implies #[trigger] own(j) <= others(j) by {
        let val = half[j].times_spec(inverse(d));
        assert(multiplies(f, half[j], inverse(d)));
        assert forall|i: int| 0 <= i < pow2(value.bits()) - 1 implies #[trigger] midpoint_exact(
            f,
            table,
            val,
            i,
        ) by {
        }
        let at = chosen(table, half[j].times_spec(inverse(other)), value) as int;
        lemma_chosen_bound(table, half[j].times_spec(inverse(other)), value);
        law_chosen_is_nearest(f, table, val, value, at);
        let (u, inv, s) = (f(half[j]), f(inverse(d)), f(d));
        assert((u * inv) * s == u * (inv * s)) by (nonlinear_arith);
        assert(u * (1 as real) == u) by (nonlinear_arith);
        lemma_nearer_scaled(f(val), u, s, f(c[j]), f(o[j]));
    }
    lemma_total_at_most(own, others, 16);
}

/// Where the table ascends and no operation rounds, and all scales on the way lie above
/// the threshold, the scale after any number of refinement steps, with the centroids that
/// it chooses, has no larger sum of squared errors than the seed with its centroids.
pub proof fn law_refinement_never_fits_worse<R: Real>(
    f: spec_fn(R) -> real,
    table: Seq<R>,
    half: Seq<R>,
    steps: nat,
    value: QuantValue,
)
    requires
        ascending(f, table, pow2(value.bits()) as int),
        forall|i: nat|
            i <= steps ==> choice_exact(
                f,
                table,
                half,
                #[trigger] refined(table, half, i, value),
                value,
            ),
        forall|i: nat|
            i < steps ==> step_exact(
                f,
                table,
                half,
                #[trigger] refined(table, half, i, value),
                value,
            ),
    ensures
        fit_error(f, table, half, refined(table, half, steps, value), value) <= fit_error(
            f,
            table,
            half,
            seed(half),
            value,
        ),
    decreases steps,
{
    if steps > 0 {
        let before = (steps - 1) as nat;
        law_refinement_never_fits_worse(f, table, half, before, value);
        let d = refined(table, half, before, value);
        let next = refined(table, half, steps, value);
        assert(next == refine_step(table, half, d, value));
        assert(choice_exact(f, table, half, next, value));
        assert(step_exact(f, table, half, d, value));
        let c = centroids(table, half, d, value);
        let den = sum_of(products(c, c), 16);
        if den.exceeds_spec(R::decimal_spec(1, 10)) {
            law_refined_scale_fits_best(f, table, half, d, value, f(d));
            lemma_choice_fits(f, table, half, next, d, value);
        }
    }
}

/// The squared errors of half `h` of a quantized block, read from its final codes and
/// its scale.
pub open spec fn coded_errors<R: Real>(
    f: spec_fn(R) -> real,
    table: Seq<R>,
    block: Seq<R>,
    h: int,
    value: QuantValue,
) -> spec_fn(int) -> real {
    |j: int|
        {
            let e = f(block[16 * h + j]) - f(
                table[block_code(table, block, 16 * h + j, value) as int],
            ) * f(half_scale(table, block, h, value));
            e * e
        }
}

/// Where the table ascends and no operation rounds, and all scales on the way lie above
/// the threshold, a quantized half-block with its codes and its scale has no larger sum
/// of squared errors than the seed with its centroids.
pub proof fn law_codes_fit_no_worse_than_the_seed<R: Real>(
    f: spec_fn(R) -> real,
    table: Seq<R>,
    block: Seq<R>,
    h: int,
    value: QuantValue,
)
    requires
        block.len() == 32,
        h == 0 || h == 1,
        ascending(f, table, pow2(value.bits()) as int),
        forall|i: nat|
            i <= 6 ==> choice_exact(
                f,
                table,
                half_of(block, h),
                #[trigger] refined(table, half_of(block, h), i, value),
                value,
            ),
        forall|i: nat|
            i < 6 ==> step_exact(
                f,
                table,
                half_of(block, h),
                #[trigger] refined(table, half_of(block, h), i, value),
                value,
            ),
    ensures
        total(coded_errors(f, table, block, h, value), 16) <= fit_error(
            f,
            table,
            half_of(block, h),
            seed(half_of(block, h)),
            value,
        ),
{
    let half = half_of(block, h);
    let d = half_scale(table, block, h, value);
    law_refinement_never_fits_worse(f, table, half, 6, value);
    let coded = coded_errors(f, table, block, h, value);
    let errors = squared_errors(f, half, centroids(table, half, d, value), f(d));
    assert forall|j: int| 0 <= j < 16 implies #[trigger] coded(j) == errors(j) by {
        let e = 16 * h + j;
        assert(e / 16 == h);
        assert(half[j] == block[e]);
    }
    lemma_total_same(coded, errors, 16);
}

/// Whatever the table, the index that stands for a value is the number of the midpoints
/// between neighbouring entries that do not lie above it.
pub proof fn law_chosen_counts_midpoints<R: Real>(table: Seq<R>, val: R, value: QuantValue)
    ensures
        chosen(table, val, value) == set_int_range(0, pow2(value.bits()) - 1).filter(
            |i: int|
                val.at_least_spec(
                    table[i].plus_spec(table[i + 1]).times_spec(R::decimal_spec(5, 1)),
                ),
        ).len(),
{
    vstd::arithmetic::power2::lemma_pow2_pos(value.bits());
    lemma_passed_counts(table, val, pow2(value.bits()) - 1);
}

/// The same of the first midpoints.
proof fn lemma_passed_counts<R: Real>(table: Seq<R>, val: R, n: int)
    requires
        0 <= n,
    ensures
        ({
            let below = |i: int|
                val.at_least_spec(
                    table[i].plus_spec(table[i + 1]).times_spec(R::decimal_spec(5, 1)),
                );
            &&& set_int_range(0, n).filter(below).finite()
            &&& passed(table, val, n) == set_int_range(0, n).filter(below).len()
        }),
    decreases n,
{
    let below = |i: int|
        val.at_least_spec(table[i].plus_spec(table[i + 1]).times_spec(R::decimal_spec(5, 1)));
    let here = set_int_range(0, n).filter(below);
    if n == 0 {
        assert(here =~= Set::<int>::empty());
    } else {
        lemma_passed_counts(table, val, n - 1);
        let before = set_int_range(0, n - 1).filter(below);
        if below(n - 1) {
            assert(here =~= before.insert(n - 1));
        } else {
            assert(here =~= before);
        }
    }
}

} // verus!
