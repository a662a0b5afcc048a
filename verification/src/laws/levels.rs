//! What the table quantizer writes, in terms of what goes in: in exact arithmetic a scale
//! that is fitted in six steps from the root mean square, and for every element the code
//! of the nearest centroid.
use vstd::prelude::*;
use vstd::arithmetic::power2::pow2;
use vstd::set_lib::set_int_range;
use crate::arith::{sum_of, Real, Stored};
use crate::dense::code_at;
use crate::exact::{lemma_sums, lemma_total_same, read, total};
use crate::laws::choice::{
    ascending, distance, law_chosen_counts_midpoints, lemma_partition, midpoint, midpoint_exact,
};
use crate::laws::ideal::{
    exact_decimals, exact_order, exact_quotients, exact_ring, exact_roots, lemma_exact_order,
    lemma_exact_pair, lemma_exact_quotient, lemma_exact_root, lemma_exact_sums,
    lemma_half_decimal, lemma_small_decimals, lemma_whole_decimal,
};
use crate::laws::outputs::{law_rotation_output, turned_number};
use crate::laws::transform::walsh;
use crate::quantize::{
    block_code, centroids, chosen, half_of, half_scale, inverse, lemma_chosen_bound, products,
    refine_step, refined, rotated_block, seed, table_codes, table_quantized,
};
use crate::scheme::QuantValue;

verus! {

/// Whether entry `i` of a table is nearest to a number, and of entries as near the last.
pub open spec fn nearest_index<R: Real>(
    f: spec_fn(R) -> real,
    table: Seq<R>,
    levels: int,
    x: real,
    i: int,
) -> bool {
    &&& 0 <= i < levels
    &&& forall|o: int|
        0 <= o < levels ==> distance(x, f(table[i])) <= distance(x, f(#[trigger] table[o])) && (i
            < o ==> distance(x, f(table[i])) < distance(x, f(table[o])))
}

/// Whether the first `levels` entries of a table ascend strictly.
pub open spec fn strictly_ascending<R: Real>(
    f: spec_fn(R) -> real,
    table: Seq<R>,
    levels: int,
) -> bool {
    forall|i: int, j: int|
        0 <= i < j < levels ==> f(#[trigger] table[i]) < f(#[trigger] table[j])
}

/// Whether entry `i` of a table stands for a number: as many midpoints between neighbours
/// as do not lie above the number come before it. Where the table ascends strictly, it is
/// the nearest.
pub open spec fn settled_index<R: Real>(
    f: spec_fn(R) -> real,
    table: Seq<R>,
    levels: int,
    x: real,
    i: int,
) -> bool {
    &&& i == set_int_range(0, levels - 1).filter(
        |n: int| x >= (f(table[n]) + f(table[n + 1])) / 2 as real,
    ).len()
    &&& strictly_ascending(f, table, levels) ==> nearest_index(f, table, levels, x, i)
}

/// In exact arithmetic the index that stands for a value is that of the entry that as many
/// midpoints come before as do not lie above the value; in a table that ascends strictly,
/// of the nearest entry, and of two as near of the upper.
pub proof fn law_chosen_output<R: Real>(
    f: spec_fn(R) -> real,
    table: Seq<R>,
    val: R,
    value: QuantValue,
)
    requires
        exact_ring(f),
        exact_decimals(f),
        exact_order(f),
    ensures
        settled_index(
            f,
            table,
            pow2(value.bits()) as int,
            f(val),
            chosen(table, val, value) as int,
        ),
{
    let levels = pow2(value.bits()) as int;
    law_chosen_counts_midpoints(table, val, value);
    lemma_half_decimal(f);
    let own = set_int_range(0, levels - 1).filter(
        |i: int|
            val.at_least_spec(
                table[i].plus_spec(table[i + 1]).times_spec(R::decimal_spec(5, 1)),
            ),
    );
    let want = set_int_range(0, levels - 1).filter(
        |n: int| f(val) >= (f(table[n]) + f(table[n + 1])) / 2 as real,
    );
    assert forall|n: int| own.contains(n) == want.contains(n) by {
        let (a, b) = (table[n], table[n + 1]);
        lemma_exact_pair(f, a, b);
        lemma_exact_pair(f, a.plus_spec(b), R::decimal_spec(5, 1));
        lemma_exact_order(f, val, a.plus_spec(b).times_spec(R::decimal_spec(5, 1)));
    }
    assert(own =~= want);
    if strictly_ascending(f, table, levels) {
        lemma_chosen_is_nearest(f, table, val, value);
    }
}

/// The index that stands for a value in a table that ascends strictly.
proof fn lemma_chosen_is_nearest<R: Real>(
    f: spec_fn(R) -> real,
    table: Seq<R>,
    val: R,
    value: QuantValue,
)
    requires
        exact_ring(f),
        exact_decimals(f),
        exact_order(f),
        strictly_ascending(f, table, pow2(value.bits()) as int),
    ensures
        nearest_index(
            f,
            table,
            pow2(value.bits()) as int,
            f(val),
            chosen(table, val, value) as int,
        ),
{
    let levels = pow2(value.bits()) as int;
    let best = chosen(table, val, value) as int;
    lemma_chosen_bound(table, val, value);
    assert(ascending(f, table, levels)) by {
        assert forall|a: int, b: int| 0 <= a <= b < levels implies f(#[trigger] table[a]) <= f(
            #[trigger] table[b],
        ) by {
            if a < b {
                assert(f(table[a]) < f(table[b]));
            }
        }
    }
    lemma_half_decimal(f);
    assert forall|i: int| 0 <= i < levels - 1 implies #[trigger] midpoint_exact(
        f,
        table,
        val,
        i,
    ) by {
        let (a, b) = (table[i], table[i + 1]);
        lemma_exact_pair(f, a, b);
        lemma_exact_pair(f, a.plus_spec(b), R::decimal_spec(5, 1));
        lemma_exact_order(f, val, midpoint(table, i));
    }
    lemma_partition(f, table, val, levels - 1);
    assert forall|o: int| 0 <= o < levels implies distance(f(val), f(table[best])) <= distance(
        f(val),
        f(#[trigger] table[o]),
    ) && (best < o ==> distance(f(val), f(table[best])) < distance(f(val), f(table[o]))) by {
        if o > best {
            assert(midpoint_exact(f, table, val, best));
            assert(f(val) < f(midpoint(table, best)));
            assert(f(table[best]) < f(table[best + 1]));
            assert(f(table[best + 1]) <= f(table[o]));
        } else if o < best {
            assert(midpoint_exact(f, table, val, best - 1));
            assert(f(val) >= f(midpoint(table, best - 1)));
            assert(f(table[best - 1]) < f(table[best]));
            assert(f(table[o]) <= f(table[best - 1]));
        }
    }
}

/// In exact arithmetic values are multiplied with one over a scale above one over ten to
/// the tenth, and with zero under any other.
pub proof fn law_inverse_output<R: Real>(f: spec_fn(R) -> real, d: R)
    requires
        exact_decimals(f),
        exact_quotients(f),
        exact_order(f),
    ensures
        f(d) * (10000000000 as real) > 1 as real ==> f(inverse(d)) * f(d) == 1 as real,
        f(d) * (10000000000 as real) <= 1 as real ==> f(inverse(d)) == 0 as real,
{
    lemma_small_decimals(f);
    lemma_exact_order(f, d, R::decimal_spec(1, 10));
    lemma_whole_decimal(f, 0);
    lemma_whole_decimal(f, 1);
    if f(d) != 0 as real {
        lemma_exact_quotient(f, R::decimal_spec(1, 0), d);
    }
}

/// In exact arithmetic the scale that the refinement starts from is the root mean square
/// of the sixteen values: it is not negative, and sixteen times its square is the sum of
/// their squares.
pub proof fn law_seed_is_root_mean_square<R: Real>(f: spec_fn(R) -> real, half: Seq<R>)
    requires
        exact_ring(f),
        exact_decimals(f),
        exact_quotients(f),
        exact_roots(f),
    ensures
        f(seed(half)) >= 0 as real,
        (f(seed(half)) * f(seed(half))) * (16 as real) == total(
            |j: int| f(half[j]) * f(half[j]),
            16,
        ),
{
    let sum = sum_of(products(half, half), 16);
    let count = R::decimal_spec(16, 0);
    lemma_products_read(f, half, half);
    lemma_whole_decimal(f, 16);
    lemma_exact_quotient(f, sum, count);
    let squares = |j: int| f(half[j]) * f(half[j]);
    lemma_square_sum(|j: int| f(half[j]), squares, 16);
    let mean = sum.over_spec(count);
    assert(f(mean) >= 0 as real);
    lemma_exact_root(f, mean);
}

/// Squares add up to no less than zero.
proof fn lemma_square_sum(g: spec_fn(int) -> real, h: spec_fn(int) -> real, n: int)
    requires
        forall|i: int| 0 <= i < n ==> #[trigger] h(i) == g(i) * g(i),
    ensures
        total(h, n) >= 0 as real,
    decreases n,
{
    if n > 0 {
        lemma_square_sum(g, h, n - 1);
        let (v, w) = (g(n - 1), h(n - 1));
        assert(w >= 0 as real) by (nonlinear_arith)
            requires
                w == v * v,
        ;
    }
}

/// The sum of products in exact arithmetic.
proof fn lemma_products_read<R: Real>(f: spec_fn(R) -> real, x: Seq<R>, y: Seq<R>)
    requires
        exact_ring(f),
        exact_decimals(f),
    ensures
        f(sum_of(products(x, y), 16)) == total(|j: int| f(x[j]) * f(y[j]), 16),
{
    let term = products(x, y);
    let want = |j: int| f(x[j]) * f(y[j]);
    lemma_exact_sums(f, term, 16);
    lemma_sums(f, term, 16);
    assert forall|j: int| 0 <= j < 16 implies #[trigger] read(f, term)(j) == want(j) by {
        lemma_exact_pair(f, x[j], y[j]);
    }
    lemma_total_same(read(f, term), want, 16);
}

/// A number under a scale: over a scale above one over ten to the tenth, and zero under
/// any other.
pub open spec fn under_scale(x: real, d: real) -> real {
    if d * (10000000000 as real) > 1 as real {
        x / d
    } else {
        0 as real
    }
}

/// Whether `index` holds, for each of sixteen numbers, the entry of the table that stands
/// for it under a scale.
pub open spec fn settled_indices<R: Real>(
    f: spec_fn(R) -> real,
    table: Seq<R>,
    levels: int,
    x: spec_fn(int) -> real,
    d: real,
    index: Seq<int>,
) -> bool {
    &&& index.len() == 16
    &&& forall|j: int|
        0 <= j < 16 ==> settled_index(
            f,
            table,
            levels,
            under_scale(x(j), d),
            #[trigger] index[j],
        )
}

/// Whether `next` is the scale that fits the entries chosen under scale `d` best: their
/// inner product with the numbers over their own, or `d` where they vanish.
pub open spec fn fitted_scale<R: Real>(
    f: spec_fn(R) -> real,
    table: Seq<R>,
    x: spec_fn(int) -> real,
    d: real,
    index: Seq<int>,
    next: real,
) -> bool {
    let num = total(|j: int| x(j) * f(table[index[j]]), 16);
    let den = total(|j: int| f(table[index[j]]) * f(table[index[j]]), 16);
    if den * (10000000000 as real) > 1 as real {
        next * den == num
    } else {
        next == d
    }
}

/// Whether one step of refinement leads from scale `d` to scale `next`.
pub open spec fn refines<R: Real>(
    f: spec_fn(R) -> real,
    table: Seq<R>,
    levels: int,
    x: spec_fn(int) -> real,
    d: real,
    next: real,
) -> bool {
    exists|index: Seq<int>| #[trigger]
        settled_indices(f, table, levels, x, d, index) && fitted_scale(
            f,
            table,
            x,
            d,
            index,
            next,
        )
}

/// Whether `scales` are the scales of a refinement of sixteen numbers: the first their
/// root mean square, then six, each one step from the one before.
pub open spec fn refinement<R: Real>(
    f: spec_fn(R) -> real,
    table: Seq<R>,
    levels: int,
    x: spec_fn(int) -> real,
    scales: Seq<real>,
) -> bool {
    &&& scales.len() == 7
    &&& scales[0] >= 0 as real
    &&& (scales[0] * scales[0]) * (16 as real) == total(|j: int| x(j) * x(j), 16)
    &&& forall|t: int|
        0 <= t < 6 ==> refines(f, table, levels, x, #[trigger] scales[t], scales[t + 1])
}

/// A product with the inverse of a scale in exact arithmetic.
proof fn lemma_under_scale<R: Real>(f: spec_fn(R) -> real, x: R, d: R)
    requires
        exact_ring(f),
        exact_decimals(f),
        exact_quotients(f),
        exact_order(f),
    ensures
        f(x.times_spec(inverse(d))) == under_scale(f(x), f(d)),
{
    law_inverse_output(f, d);
    lemma_exact_pair(f, x, inverse(d));
    let (v, inv, fd) = (f(x), f(inverse(d)), f(d));
    if fd * (10000000000 as real) > 1 as real {
        assert(fd > 0 as real);
        assert(v * inv == v / fd) by (nonlinear_arith)
            requires
                inv * fd == 1 as real,
                fd > 0 as real,
        {
            assert((v * inv) * fd == v * (inv * fd));
        }
    } else {
        assert(v * (0 as real) == 0 as real) by (nonlinear_arith);
    }
}

/// In exact arithmetic a step of the refinement leads to the scale that fits the chosen
/// entries best.
pub proof fn law_refinement_step_output<R: Real>(
    f: spec_fn(R) -> real,
    table: Seq<R>,
    half: Seq<R>,
    d: R,
    value: QuantValue,
)
    requires
        exact_ring(f),
        exact_decimals(f),
        exact_quotients(f),
        exact_order(f),
    ensures
        refines(
            f,
            table,
            pow2(value.bits()) as int,
            |j: int| f(half[j]),
            f(d),
            f(refine_step(table, half, d, value)),
        ),
{
    let levels = pow2(value.bits()) as int;
    let x = |j: int| f(half[j]);
    let index = Seq::new(
        16,
        |j: int| chosen(table, half[j].times_spec(inverse(d)), value) as int,
    );
    assert forall|j: int| 0 <= j < 16 implies settled_index(
        f,
        table,
        levels,
        under_scale(x(j), f(d)),
        #[trigger] index[j],
    ) by {
        lemma_under_scale(f, half[j], d);
        law_chosen_output(f, table, half[j].times_spec(inverse(d)), value);
    }
    assert(settled_indices(f, table, levels, x, f(d), index));
    let c = centroids(table, half, d, value);
    let (num, den) = (sum_of(products(half, c), 16), sum_of(products(c, c), 16));
    lemma_products_read(f, half, c);
    lemma_products_read(f, c, c);
    let nums = |j: int| x(j) * f(table[index[j]]);
    let dens = |j: int| f(table[index[j]]) * f(table[index[j]]);
    lemma_total_same(|j: int| f(half[j]) * f(c[j]), nums, 16);
    lemma_total_same(|j: int| f(c[j]) * f(c[j]), dens, 16);
    lemma_small_decimals(f);
    lemma_exact_order(f, den, R::decimal_spec(1, 10));
    if f(den) != 0 as real {
        lemma_exact_quotient(f, num, den);
    }
    assert(fitted_scale(f, table, x, f(d), index, f(refine_step(table, half, d, value))));
}

/// In exact arithmetic the scale of half `h` of a block is the last of a refinement of its
/// sixteen numbers.
pub proof fn law_half_scale_output<R: Real>(
    f: spec_fn(R) -> real,
    table: Seq<R>,
    block: Seq<R>,
    h: int,
    value: QuantValue,
) -> (scales: Seq<real>)
    requires
        exact_ring(f),
        exact_decimals(f),
        exact_quotients(f),
        exact_roots(f),
        exact_order(f),
        block.len() == 32,
        h == 0 || h == 1,
    ensures
        refinement(
            f,
            table,
            pow2(value.bits()) as int,
            |j: int| f(block[16 * h + j]),
            scales,
        ),
        scales[6] == f(half_scale(table, block, h, value)),
{
    let levels = pow2(value.bits()) as int;
    let half = half_of(block, h);
    let x = |j: int| f(block[16 * h + j]);
    let y = |j: int| f(half[j]);
    let scales = Seq::new(7, |t: int| f(refined(table, half, t as nat, value)));
    law_seed_is_root_mean_square(f, half);
    assert(refined(table, half, 0, value) == seed(half));
    assert forall|j: int| 0 <= j < 16 implies #[trigger] half[j] == block[16 * h + j] by {
    }
    lemma_total_same(|j: int| f(half[j]) * f(half[j]), |j: int| x(j) * x(j), 16);
    assert forall|t: int| 0 <= t < 6 implies refines(
        f,
        table,
        levels,
        x,
        #[trigger] scales[t],
        scales[t + 1],
    ) by {
        let d = refined(table, half, t as nat, value);
        assert(refined(table, half, (t + 1) as nat, value) == refine_step(table, half, d, value));
        law_refinement_step_output(f, table, half, d, value);
        let index = choose|index: Seq<int>| #[trigger]
            settled_indices(f, table, levels, y, scales[t], index) && fitted_scale(
                f,
                table,
                y,
                scales[t],
                index,
                scales[t + 1],
            );
        assert forall|j: int| 0 <= j < 16 implies settled_index(
            f,
            table,
            levels,
            under_scale(x(j), scales[t]),
            #[trigger] index[j],
        ) by {
            assert(half[j] == block[16 * h + j]);
        }
        assert(settled_indices(f, table, levels, x, scales[t], index));
        lemma_total_same(
            |j: int| y(j) * f(table[index[j]]),
            |j: int| x(j) * f(table[index[j]]),
            16,
        );
        assert(fitted_scale(f, table, x, scales[t], index, scales[t + 1]));
    }
    scales
}

/// A row of activations, as numbers.
pub open spec fn row_numbers<R: Real>(
    f: spec_fn(R) -> real,
    hidden: Seq<R>,
    row: int,
    k: int,
) -> spec_fn(int) -> real {
    |e: int| f(hidden[row * k + e])
}

/// The blocks of a row are those of all activations, and lie among them.
pub(crate) proof fn lemma_row_blocks(row: int, m: int, k: int, e: int)
    requires
        0 <= row < m,
        k % 32 == 0,
        0 <= e < k,
    ensures
        0 <= row * (k / 32) + e / 32 < m * k / 32,
        32 * (row * (k / 32) + e / 32) == row * k + 32 * (e / 32),
        row * k + 32 * (e / 32) + 32 <= m * k,
        row * (k / 16) + e / 16 == 2 * (row * (k / 32) + e / 32) + (e % 32) / 16,
        0 <= row * k,
{
    let q = k / 32;
    assert(k / 16 == 2 * q);
    assert(row * (2 * q) == 2 * (row * q) && row * k == 32 * (row * q) && m * k == 32 * (m * q))
        by (nonlinear_arith)
        requires
            k == 32 * q,
    ;
    assert(0 <= row * q && row * q + e / 32 < m * q) by (nonlinear_arith)
        requires
            0 <= row < m,
            0 <= e / 32 < q,
    ;
}

/// Element `e` of a row of activations, rotated.
pub(crate) proof fn lemma_rotated_element<R: Real>(
    f: spec_fn(R) -> real,
    hidden: Seq<R>,
    signs: Seq<R>,
    m: int,
    k: int,
    row: int,
    e: int,
)
    requires
        exact_ring(f),
        0 <= row < m,
        k % 32 == 0,
        0 <= e < k,
        m * k <= hidden.len(),
    ensures
        f(rotated_block(hidden, signs, row * (k / 32) + e / 32)[e % 32]) == turned_number(
            f,
            row_numbers(f, hidden, row, k),
            signs,
        )(e),
{
    lemma_row_blocks(row, m, k, e);
    let start = 32 * (row * (k / 32) + e / 32);
    let block = hidden.subrange(start, start + 32);
    law_rotation_output(f, block, signs, e % 32);
    let x = row_numbers(f, hidden, row, k);
    let got = |i: int| walsh(i, e % 32) * (f(signs[i]) * f(block[i]));
    let want = |i: int| walsh(i, e % 32) * (f(signs[i]) * x(32 * (e / 32) + i));
    assert forall|i: int| 0 <= i < 32 implies #[trigger] got(i) == want(i) by {
        assert(block[i] == hidden[row * k + (32 * (e / 32) + i)]);
    }
    lemma_total_same(got, want, 32);
}

/// In exact arithmetic, of activations that are transformed block by block and quantized
/// to a table: the scale of every sixteen is the last of a refinement of their numbers, as
/// it is stored, and the code of every element, in one stream over all rows, is that of
/// the entry that stands for it under the scale, the nearest where the table ascends
/// strictly.
pub proof fn law_table_quantizer_output<R: Real, H: Stored<R>>(
    f: spec_fn(R) -> real,
    hidden: Seq<R>,
    codes: Seq<u32>,
    scales: Seq<H>,
    table: Seq<R>,
    signs: Seq<R>,
    m: int,
    k: int,
    value: QuantValue,
    row: int,
    e: int,
) -> (found: (R, Seq<real>))
    requires
        exact_ring(f),
        exact_decimals(f),
        exact_quotients(f),
        exact_roots(f),
        exact_order(f),
        k % 32 == 0,
        0 <= row < m,
        0 <= e < k,
        m * k <= hidden.len(),
        forall|block: int|
            0 <= block < m * k / 32 ==> #[trigger] table_quantized(
                hidden,
                codes,
                scales,
                table,
                signs,
                block,
                value,
            ),
    ensures
        ({
            let x = turned_number(f, row_numbers(f, hidden, row, k), signs);
            let levels = pow2(value.bits()) as int;
            let (scale, steps) = found;
            &&& refinement(f, table, levels, |j: int| x(16 * (e / 16) + j), steps)
            &&& steps[6] == f(scale)
            &&& scales[row * (k / 16) + e / 16] == H::narrow_spec(scale)
            &&& settled_index(
                f,
                table,
                levels,
                under_scale(x(e), f(scale)),
                code_at(codes, 0, row * k + e, value) as int,
            )
        }),
{
    let block = row * (k / 32) + e / 32;
    let b = rotated_block(hidden, signs, block);
    let h = (e % 32) / 16;
    let levels = pow2(value.bits()) as int;
    let x = turned_number(f, row_numbers(f, hidden, row, k), signs);
    lemma_row_blocks(row, m, k, e);
    assert(table_quantized(hidden, codes, scales, table, signs, block, value));
    let start = 32 * block;
    crate::laws::symmetric::lemma_rotated_len(hidden.subrange(start, start + 32), signs);
    let scale = half_scale(table, b, h, value);
    let steps = law_half_scale_output(f, table, b, h, value);
    let own = |j: int| f(b[16 * h + j]);
    let want = |j: int| x(16 * (e / 16) + j);
    assert forall|j: int| 0 <= j < 16 implies #[trigger] own(j) == want(j) by {
        let e2 = 16 * (e / 16) + j;
        assert(e2 / 32 == e / 32 && e2 % 32 == 16 * h + j);
        lemma_rotated_element(f, hidden, signs, m, k, row, e2);
    }
    lemma_refinement_same(f, table, levels, own, want, steps);
    lemma_rotated_element(f, hidden, signs, m, k, row, e);
    lemma_under_scale(f, b[e % 32], scale);
    law_chosen_output(f, table, b[e % 32].times_spec(inverse(scale)), value);
    assert((e % 32) / 16 == h);
    assert(code_at(codes, block * value.bits(), e % 32, value) == table_codes(table, b, value)(
        e % 32,
    ));
    assert(block_code(table, b, e % 32, value) == chosen(
        table,
        b[e % 32].times_spec(inverse(scale)),
        value,
    ));
    lemma_block_stream(codes, block, e % 32, value);
    assert(32 * block + e % 32 == row * k + e);
    (scale, steps)
}

/// Codes of a block are codes of the stream of all blocks.
pub(crate) proof fn lemma_block_stream(words: Seq<u32>, block: int, j: int, value: QuantValue)
    ensures
        code_at(words, block * value.bits(), j, value) == code_at(words, 0, 32 * block + j, value),
{
    let bits = value.bits() as int;
    assert(32 * (block * bits) + bits * j == bits * (32 * block + j)) by (nonlinear_arith);
}

/// A refinement of numbers is one of equal numbers.
proof fn lemma_refinement_same<R: Real>(
    f: spec_fn(R) -> real,
    table: Seq<R>,
    levels: int,
    x: spec_fn(int) -> real,
    y: spec_fn(int) -> real,
    scales: Seq<real>,
)
    requires
        refinement(f, table, levels, x, scales),
        forall|j: int| 0 <= j < 16 ==> #[trigger] x(j) == y(j),
    ensures
        refinement(f, table, levels, y, scales),
{
    lemma_total_same(|j: int| x(j) * x(j), |j: int| y(j) * y(j), 16);
    assert forall|t: int| 0 <= t < 6 implies refines(
        f,
        table,
        levels,
        y,
        #[trigger] scales[t],
        scales[t + 1],
    ) by {
        let index = choose|index: Seq<int>| #[trigger]
            settled_indices(f, table, levels, x, scales[t], index) && fitted_scale(
                f,
                table,
                x,
                scales[t],
                index,
                scales[t + 1],
            );
        assert forall|j: int| 0 <= j < 16 implies settled_index(
            f,
            table,
            levels,
            under_scale(y(j), scales[t]),
            #[trigger] index[j],
        ) by {
            assert(x(j) == y(j));
        }
        assert(settled_indices(f, table, levels, y, scales[t], index));
        lemma_total_same(
            |j: int| x(j) * f(table[index[j]]),
            |j: int| y(j) * f(table[index[j]]),
            16,
        );
        assert(fitted_scale(f, table, y, scales[t], index, scales[t + 1]));
    }
}

} // verus!
