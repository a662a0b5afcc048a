//! What the symmetric quantizer writes, in terms of what goes in: in exact arithmetic the
//! largest absolute value of every sixteen over the largest level, and for every element
//! the level that is at most half a step off.
use vstd::prelude::*;
use vstd::arithmetic::power2::pow2;
use crate::arith::{Real, Stored};
use crate::dense::code_at;
use crate::laws::choice::distance;
use crate::laws::ideal::{
    exact_decimals, exact_levels, exact_order, exact_quotients, exact_ring, lemma_exact_order,
    lemma_exact_pair, lemma_exact_quotient, lemma_exact_round, lemma_exact_whole,
    lemma_small_decimals, lemma_whole_decimal,
};
use crate::laws::layout::{
    law_signed_code_comes_back, law_symmetric_levels_are_limited, symmetric_level,
};
use crate::laws::levels::{
    law_inverse_output, lemma_block_stream, lemma_rotated_element, lemma_row_blocks, row_numbers,
};
use crate::laws::outputs::{code_number, turned_number};
use crate::laws::symmetric::{
    is_whole, law_scaled_half_reaches_the_range, law_symmetric_error_is_half_a_step,
    law_unscaled_half_is_zero, lemma_peak_attained, lemma_peak_is_largest, lemma_rotated_len,
    level_exact, peak_exact, scale_exact, scaled,
};
use crate::quantize::{
    half_of, inverse, limited, peak, rotated_block, symmetric_code, symmetric_codes,
    symmetric_quantized, symmetric_scale,
};
use crate::scheme::QuantValue;

verus! {

/// Whether `scale` is the scale of the sixteen numbers `x(0)`, ..., `x(15)`: times the
/// largest level it is their largest absolute value.
pub open spec fn peak_scale(x: spec_fn(int) -> real, scale: real, largest: int) -> bool {
    &&& forall|j: int|
        0 <= j < 16 ==> distance(#[trigger] x(j), 0 as real) <= scale * (largest as real)
    &&& exists|j: int|
        0 <= j < 16 && distance(#[trigger] x(j), 0 as real) == scale * (largest as real)
}

/// Whether `level` stands for a number under a scale: at most half a step off where the
/// scale lies above one over ten to the tenth, and zero under any other.
pub open spec fn stands_for(x: real, level: real, scale: real) -> bool {
    if scale * (10000000000 as real) > 1 as real {
        2 as real * distance(x, level * scale) <= scale
    } else {
        level == 0 as real
    }
}

/// The scale of a half-block in exact arithmetic.
proof fn lemma_peak_scale<R: Real>(f: spec_fn(R) -> real, block: Seq<R>, h: int, value: QuantValue)
    requires
        exact_decimals(f),
        exact_quotients(f),
        exact_order(f),
        block.len() == 32,
        h == 0 || h == 1,
    ensures
        peak_exact(f, half_of(block, h)),
        peak_scale(
            |j: int| f(block[16 * h + j]),
            f(symmetric_scale(block, h, value)),
            value.largest(),
        ),
        f(symmetric_scale(block, h, value)) * (value.largest() as real) == f(
            peak(half_of(block, h), 16),
        ),
{
    let half = half_of(block, h);
    let x = |j: int| f(block[16 * h + j]);
    lemma_whole_decimal(f, 0);
    assert forall|i: int| 0 <= i < 16 implies {
        let size = (#[trigger] half[i]).abs_spec();
        &&& f(size) == distance(f(half[i]), 0 as real)
        &&& size.exceeds_spec(peak(half, i)) == (f(size) > f(peak(half, i)))
    } by {
        lemma_exact_order(f, half[i], half[i]);
        lemma_exact_order(f, half[i].abs_spec(), peak(half, i));
    }
    let largest = value.largest();
    let top = R::decimal_spec(largest as i64, 0);
    lemma_whole_decimal(f, largest as i64);
    lemma_exact_quotient(f, peak(half, 16), top);
    assert forall|j: int| 0 <= j < 16 implies distance(#[trigger] x(j), 0 as real) <= f(
        symmetric_scale(block, h, value),
    ) * (largest as real) by {
        assert(half[j] == block[16 * h + j]);
        lemma_peak_is_largest(f, half, 16, j);
    }
    let p = lemma_peak_attained(half, 16);
    if peak(half, 16) == R::decimal_spec(0, 0) {
        assert(half[0] == block[16 * h]);
        lemma_peak_is_largest(f, half, 16, 0);
        assert(distance(x(0), 0 as real) == 0 as real);
    } else {
        assert(half[p] == block[16 * h + p]);
        assert(f(half[p].abs_spec()) == distance(f(half[p]), 0 as real));
        assert(distance(x(p), 0 as real) == f(peak(half, 16)));
    }
}

/// A level in exact arithmetic.
proof fn lemma_level<R: Real>(f: spec_fn(R) -> real, block: Seq<R>, j: int, value: QuantValue)
    requires
        exact_ring(f),
        exact_decimals(f),
        exact_order(f),
        exact_levels(f),
        0 <= j < 32,
    ensures
        level_exact(f, block, j, value),
        2 as real * distance(
            f(scaled(block, j, value).round_spec()),
            f(scaled(block, j, value)),
        ) <= 1 as real,
{
    let y = scaled(block, j, value);
    let q = y.round_spec();
    let largest = value.largest();
    let top = R::decimal_spec(largest as i64, 0);
    let bottom = R::decimal_spec((-largest) as i64, 0);
    let upper = if q.exceeds_spec(top) {
        top
    } else {
        q
    };
    lemma_exact_pair(f, block[j], inverse(symmetric_scale(block, j / 16, value)));
    lemma_whole_decimal(f, largest as i64);
    lemma_whole_decimal(f, (-largest) as i64);
    lemma_exact_order(f, q, top);
    lemma_exact_order(f, bottom, upper);
    let n = lemma_exact_round(f, y);
    assert forall|w: int| #[trigger] is_whole(f(y), w) implies is_whole(f(q), w) by {
        assert(2 as real * distance(n as real, w as real) <= 1 as real);
        if n > w {
            assert(n as real >= w as real + 1 as real);
        }
        if w > n {
            assert(w as real >= n as real + 1 as real);
        }
    }
    let end = limited(q, value);
    let whole: int = if q.exceeds_spec(top) {
        largest
    } else if bottom.exceeds_spec(q) {
        -largest
    } else {
        n
    };
    assert(is_whole(f(end), whole));
    assert(-largest <= whole <= largest) by {
        if whole == n {
            assert(n as real <= largest as real);
            assert(n as real >= (-largest) as real);
        }
    }
    lemma_exact_whole(f, end, whole);
}

/// In exact arithmetic, of activations that are transformed block by block and quantized
/// symmetrically: the scale of every sixteen times the largest level is their largest
/// absolute value, as it is stored, and the code of every element, in one stream over all
/// rows, is the two's complement of a level within the range that stands for it.
pub proof fn law_symmetric_quantizer_output<R: Real, H: Stored<R>>(
    f: spec_fn(R) -> real,
    hidden: Seq<R>,
    codes: Seq<u32>,
    scales: Seq<H>,
    table: Seq<R>,
    signs: Seq<R>,
    m: int,
    k: int,
    value: QuantValue,
    row: int,
    e: int,
) -> (found: (R, int))
    requires
        exact_ring(f),
        exact_decimals(f),
        exact_quotients(f),
        exact_order(f),
        exact_levels(f),
        k % 32 == 0,
        0 <= row < m,
        0 <= e < k,
        m * k <= hidden.len(),
        forall|block: int|
            0 <= block < m * k / 32 ==> #[trigger] symmetric_quantized(
                hidden,
                codes,
                scales,
                signs,
                block,
                value,
            ),
    ensures
        ({
            let x = turned_number(f, row_numbers(f, hidden, row, k), signs);
            let code = code_at(codes, 0, row * k + e, value) as int;
            let (scale, level) = found;
            &&& peak_scale(|j: int| x(16 * (e / 16) + j), f(scale), value.largest())
            &&& scales[row * (k / 16) + e / 16] == H::narrow_spec(scale)
            &&& -value.largest() <= level <= value.largest()
            &&& stands_for(x(e), level as real, f(scale))
            &&& code == level % pow2(value.bits()) as int
            &&& value.symmetric() ==> code_number(f, table, code, value) == level as real
        }),
{
    let block = row * (k / 32) + e / 32;
    let b = rotated_block(hidden, signs, block);
    let h = (e % 32) / 16;
    let j = e % 32;
    let x = turned_number(f, row_numbers(f, hidden, row, k), signs);
    lemma_row_blocks(row, m, k, e);
    assert(symmetric_quantized(hidden, codes, scales, signs, block, value));
    let start = 32 * block;
    lemma_rotated_len(hidden.subrange(start, start + 32), signs);
    let scale = symmetric_scale(b, h, value);
    lemma_peak_scale(f, b, h, value);
    let own = |i: int| f(b[16 * h + i]);
    let want = |i: int| x(16 * (e / 16) + i);
    assert forall|i: int| 0 <= i < 16 implies #[trigger] own(i) == want(i) by {
        let e2 = 16 * (e / 16) + i;
        assert(e2 / 32 == e / 32 && e2 % 32 == 16 * h + i);
        lemma_rotated_element(f, hidden, signs, m, k, row, e2);
    }
    lemma_peak_scale_same(own, want, f(scale), value.largest());
    lemma_rotated_element(f, hidden, signs, m, k, row, e);
    lemma_level(f, b, j, value);
    lemma_half_level(f, b, j, value);
    assert(code_at(codes, block * value.bits(), j, value) == symmetric_codes(b, value)(j));
    lemma_block_stream(codes, block, j, value);
    assert(32 * block + j == row * k + e);
    lemma_level_of_code(f, b, table, j, value);
    (scale, symmetric_level(b, j, value) as int)
}

/// Numbers that are equal have the same scale.
proof fn lemma_peak_scale_same(
    x: spec_fn(int) -> real,
    y: spec_fn(int) -> real,
    scale: real,
    largest: int,
)
    requires
        peak_scale(x, scale, largest),
        forall|j: int| 0 <= j < 16 ==> #[trigger] x(j) == y(j),
    ensures
        peak_scale(y, scale, largest),
{
    let p = choose|j: int|
        0 <= j < 16 && distance(#[trigger] x(j), 0 as real) == scale * (largest as real);
    assert(distance(y(p), 0 as real) == scale * (largest as real));
    assert forall|j: int| 0 <= j < 16 implies distance(#[trigger] y(j), 0 as real) <= scale * (
    largest as real) by {
        assert(x(j) == y(j));
    }
}

/// A level stands for its value.
proof fn lemma_half_level<R: Real>(f: spec_fn(R) -> real, block: Seq<R>, j: int, value: QuantValue)
    requires
        exact_ring(f),
        exact_decimals(f),
        exact_quotients(f),
        exact_order(f),
        exact_levels(f),
        block.len() == 32,
        0 <= j < 32,
    ensures
        -value.largest() <= symmetric_level(block, j, value) <= value.largest(),
        stands_for(
            f(block[j]),
            symmetric_level(block, j, value) as real,
            f(symmetric_scale(block, j / 16, value)),
        ),
{
    let h = j / 16;
    let d = symmetric_scale(block, h, value);
    lemma_level(f, block, j, value);
    lemma_peak_scale(f, block, h, value);
    law_symmetric_levels_are_limited(f, scaled(block, j, value).round_spec(), value);
    law_inverse_output(f, d);
    lemma_small_decimals(f);
    lemma_whole_decimal(f, 0);
    lemma_exact_order(f, d, R::decimal_spec(1, 10));
    if f(d) * (10000000000 as real) > 1 as real {
        assert(scale_exact(f, block, h, value));
        law_symmetric_error_is_half_a_step(f, block, j, value);
    } else {
        law_unscaled_half_is_zero(f, block, j, value);
    }
}

/// A symmetric code reads as its level.
proof fn lemma_level_of_code<R: Real>(
    f: spec_fn(R) -> real,
    block: Seq<R>,
    table: Seq<R>,
    j: int,
    value: QuantValue,
)
    requires
        -value.largest() <= symmetric_level(block, j, value) <= value.largest(),
    ensures
        symmetric_code(block, j, value) as int == symmetric_level(block, j, value) as int % pow2(
            value.bits(),
        ) as int,
        value.symmetric() ==> code_number(
            f,
            table,
            symmetric_code(block, j, value) as int,
            value,
        ) == symmetric_level(block, j, value) as real,
{
    vstd::arithmetic::power2::lemma2_to64();
    let q = symmetric_level(block, j, value) as int;
    if value.symmetric() {
        law_signed_code_comes_back(q, value.bits());
    }
    vstd::arithmetic::div_mod::lemma_mod_bound(q, pow2(value.bits()) as int);
    assert(symmetric_code(block, j, value) as int == q % pow2(value.bits()) as int);
}

/// In exact arithmetic, sixteen activations of which one, transformed, is larger than the
/// largest level over ten to the tenth have a code at an end of the range.
pub proof fn law_symmetric_unit_reaches_the_range<R: Real, H: Stored<R>>(
    f: spec_fn(R) -> real,
    hidden: Seq<R>,
    codes: Seq<u32>,
    scales: Seq<H>,
    table: Seq<R>,
    signs: Seq<R>,
    m: int,
    k: int,
    value: QuantValue,
    row: int,
    e: int,
) -> (found: (int, int))
    requires
        exact_ring(f),
        exact_decimals(f),
        exact_quotients(f),
        exact_order(f),
        exact_levels(f),
        k % 32 == 0,
        0 <= row < m,
        0 <= e < k,
        m * k <= hidden.len(),
        distance(
            turned_number(f, row_numbers(f, hidden, row, k), signs)(e),
            0 as real,
        ) * (10000000000 as real) > value.largest() as real,
        forall|block: int|
            0 <= block < m * k / 32 ==> #[trigger] symmetric_quantized(
                hidden,
                codes,
                scales,
                signs,
                block,
                value,
            ),
    ensures
        ({
            let (end, level) = found;
            let code = code_at(codes, 0, row * k + end, value) as int;
            &&& 16 * (e / 16) <= end < 16 * (e / 16) + 16
            &&& level == value.largest() || level == -value.largest()
            &&& code == level % pow2(value.bits()) as int
            &&& value.symmetric() ==> code_number(f, table, code, value) == level as real
        }),
{
    let block = row * (k / 32) + e / 32;
    let b = rotated_block(hidden, signs, block);
    let h = (e % 32) / 16;
    lemma_row_blocks(row, m, k, e);
    assert(symmetric_quantized(hidden, codes, scales, signs, block, value));
    let start = 32 * block;
    lemma_rotated_len(hidden.subrange(start, start + 32), signs);
    let d = symmetric_scale(b, h, value);
    lemma_peak_scale(f, b, h, value);
    lemma_rotated_element(f, hidden, signs, m, k, row, e);
    let own = |i: int| f(b[16 * h + i]);
    let at = (e % 32) - 16 * h;
    assert(own(at) == f(b[e % 32]));
    let (fd, top) = (f(d), value.largest() as real);
    assert(distance(own(at), 0 as real) <= fd * top);
    let ten = 10000000000 as real;
    assert((fd * top) * ten == (fd * ten) * top) by (nonlinear_arith);
    let big = fd * ten;
    assert(big > 1 as real) by (nonlinear_arith)
        requires
            big * top > top,
            top >= 1 as real,
    ;
    law_inverse_output(f, d);
    lemma_small_decimals(f);
    lemma_whole_decimal(f, 0);
    lemma_whole_decimal(f, value.largest() as i64);
    lemma_exact_order(f, d, R::decimal_spec(1, 10));
    assert forall|i: int| 16 * h <= i < 16 * h + 16 implies #[trigger] level_exact(
        f,
        b,
        i,
        value,
    ) && f(b[i].abs_spec()) == (if f(b[i]) >= 0 as real {
        f(b[i])
    } else {
        -f(b[i])
    }) by {
        lemma_level(f, b, i, value);
        lemma_exact_order(f, b[i], b[i]);
    }
    law_scaled_half_reaches_the_range(f, b, h, value);
    let j = choose|i: int|
        16 * h <= i < 16 * h + 16 && (#[trigger] symmetric_level(b, i, value) == value.largest()
            || symmetric_level(b, i, value) == -value.largest());
    lemma_level_of_code(f, b, table, j, value);
    assert(code_at(codes, block * value.bits(), j, value) == symmetric_codes(b, value)(j));
    lemma_block_stream(codes, block, j, value);
    (32 * (e / 32) + j, symmetric_level(b, j, value) as int)
}

} // verus!
