//! Symmetric quantization: a half-block with a scale uses its whole range and is half a
//! step off at most, one without has only zeros, and the sign of the activations is the
//! sign of the codes.
use vstd::prelude::*;
use vstd::arithmetic::power2::pow2;
use crate::arith::Real;
use crate::exact::multiplies;
use crate::laws::choice::distance;
use crate::laws::layout::{law_symmetric_levels_are_limited, symmetric_level};
use crate::quantize::{
    half_of, inverse, limited, peak, rotated_block, symmetric_code, symmetric_scale,
};
use crate::rht::{butterfly, inv_sqrt32, is_step, rotated, stages, with_signs};
use crate::scheme::QuantValue;

verus! {

/// Element `j` of a rotated block, times the inverse of its half's scale.
pub open spec fn scaled<R: Real>(block: Seq<R>, j: int, value: QuantValue) -> R {
    block[j].times_spec(inverse(symmetric_scale(block, j / 16, value)))
}

/// Whether a number is the whole number `n`.
pub open spec fn is_whole(x: real, n: int) -> bool {
    x == n as real
}

/// Whether element `j` of a rotated block is scaled, rounded and limited as the numbers
/// are: a whole number stays what it is, comparisons with the ends of the range are those
/// of the numbers, and what is left is whole.
pub open spec fn level_exact<R: Real>(
    f: spec_fn(R) -> real,
    block: Seq<R>,
    j: int,
    value: QuantValue,
) -> bool {
    let y = scaled(block, j, value);
    let q = y.round_spec();
    let top = R::decimal_spec(value.largest() as i64, 0);
    let bottom = R::decimal_spec((-value.largest()) as i64, 0);
    let upper = if q.exceeds_spec(top) {
        top
    } else {
        q
    };
    &&& multiplies(f, block[j], inverse(symmetric_scale(block, j / 16, value)))
    &&& forall|n: int| #[trigger] is_whole(f(y), n) ==> is_whole(f(q), n)
    &&& f(top) == value.largest() as real
    &&& f(bottom) == (-value.largest()) as real
    &&& q.exceeds_spec(top) == (f(q) > f(top))
    &&& bottom.exceeds_spec(upper) == (f(bottom) > f(upper))
    &&& f(limited(q, value)) == limited(q, value).whole_spec() as real
}

/// The largest absolute value is that of an element, or zero.
pub(crate) proof fn lemma_peak_attained<R: Real>(half: Seq<R>, n: int) -> (p: int)
    requires
        0 <= n,
    ensures
        peak(half, n) == R::decimal_spec(0, 0) || (0 <= p < n && peak(half, n)
            == half[p].abs_spec()),
    decreases n,
{
    if n <= 0 {
        0
    } else if half[n - 1].abs_spec().exceeds_spec(peak(half, n - 1)) {
        n - 1
    } else {
        lemma_peak_attained(half, n - 1)
    }
}

/// Where no operation rounds, a half-block whose scale lies above the threshold has a
/// level at one end of the range.
pub proof fn law_scaled_half_reaches_the_range<R: Real>(
    f: spec_fn(R) -> real,
    block: Seq<R>,
    h: int,
    value: QuantValue,
)
    requires
        block.len() == 32,
        h == 0 || h == 1,
        ({
            let d = symmetric_scale(block, h, value);
            let top = R::decimal_spec(value.largest() as i64, 0);
            &&& d.exceeds_spec(R::decimal_spec(1, 10))
            &&& f(d) > 0 as real
            &&& f(inverse(d)) * f(d) == 1 as real
            &&& f(d) * f(top) == f(peak(half_of(block, h), 16))
        }),
        f(R::decimal_spec(0, 0)) == 0 as real,
        forall|j: int|
            16 * h <= j < 16 * h + 16 ==> #[trigger] level_exact(f, block, j, value) && f(
                block[j].abs_spec(),
            ) == (if f(block[j]) >= 0 as real {
                f(block[j])
            } else {
                -f(block[j])
            }),
    ensures
        exists|j: int|
            16 * h <= j < 16 * h + 16 && (#[trigger] symmetric_level(block, j, value)
                == value.largest() || symmetric_level(block, j, value) == -value.largest()),
{
    let half = half_of(block, h);
    let d = symmetric_scale(block, h, value);
    let p = lemma_peak_attained(half, 16);
    let largest = value.largest();
    let top = largest as real;
    let (fd, inv) = (f(d), f(inverse(d)));
    assert(level_exact(f, block, 16 * h, value));
    assert(fd * top > 0 as real) by (nonlinear_arith)
        requires
            fd > 0 as real,
            top >= 1 as real,
    ;
    assert(0 <= p < 16);
    let j = 16 * h + p;
    assert(j / 16 == h);
    assert(half[p] == block[j]);
    assert(level_exact(f, block, j, value));
    let v = f(block[j]);
    let y = scaled(block, j, value);
    assert(f(y) == v * inv);
    assert((fd * top) * inv == top * (inv * fd)) by (nonlinear_arith);
    assert(top * (1 as real) == top) by (nonlinear_arith);
    if v >= 0 as real {
        assert(is_whole(f(y), largest));
    } else {
        let u = -v;
        assert((-u) * inv == -(u * inv)) by (nonlinear_arith);
        assert(f(y) == -top);
        assert(is_whole(f(y), -largest));
    }
    law_symmetric_levels_are_limited(f, y.round_spec(), value);
    assert(symmetric_level(block, j, value) == largest || symmetric_level(block, j, value)
        == -largest);
}

/// Where no operation rounds, a half-block whose scale does not lie above the threshold
/// has only zeros.
pub proof fn law_unscaled_half_is_zero<R: Real>(
    f: spec_fn(R) -> real,
    block: Seq<R>,
    j: int,
    value: QuantValue,
)
    requires
        block.len() == 32,
        0 <= j < 32,
        !symmetric_scale(block, j / 16, value).exceeds_spec(R::decimal_spec(1, 10)),
        f(R::decimal_spec(0, 0)) == 0 as real,
        level_exact(f, block, j, value),
    ensures
        symmetric_level(block, j, value) == 0,
        symmetric_code(block, j, value) == 0,
{
    let v = f(block[j]);
    assert(v * (0 as real) == 0 as real) by (nonlinear_arith);
    let y = scaled(block, j, value);
    assert(is_whole(f(y), 0));
    vstd::arithmetic::power2::lemma_pow2_pos(value.bits());
    vstd::arithmetic::div_mod::lemma_small_mod(0, pow2(value.bits()));
}

/// Whether the largest absolute value of a half-block is found as that of the numbers.
pub open spec fn peak_exact<R: Real>(f: spec_fn(R) -> real, half: Seq<R>) -> bool {
    &&& f(R::decimal_spec(0, 0)) == 0 as real
    &&& forall|i: int|
        0 <= i < 16 ==> {
            let size = (#[trigger] half[i]).abs_spec();
            &&& f(size) == distance(f(half[i]), 0 as real)
            &&& size.exceeds_spec(peak(half, i)) == (f(size) > f(peak(half, i)))
        }
}

/// No value of a half-block is larger than the largest.
pub(crate) proof fn lemma_peak_is_largest<R: Real>(
    f: spec_fn(R) -> real,
    half: Seq<R>,
    n: int,
    i: int,
)
    requires
        peak_exact(f, half),
        0 <= i < n <= 16,
    ensures
        distance(f(half[i]), 0 as real) <= f(peak(half, n)),
    decreases n,
{
    assert(f(half[n - 1].abs_spec()) == distance(f(half[n - 1]), 0 as real));
    if i < n - 1 {
        lemma_peak_is_largest(f, half, n - 1, i);
    }
}

/// Whether the scale of half `h` does not round: the largest absolute value over the
/// largest level, and one over it.
pub open spec fn scale_exact<R: Real>(
    f: spec_fn(R) -> real,
    block: Seq<R>,
    h: int,
    value: QuantValue,
) -> bool {
    let d = symmetric_scale(block, h, value);
    &&& d.exceeds_spec(R::decimal_spec(1, 10))
    &&& f(d) > 0 as real
    &&& f(inverse(d)) * f(d) == 1 as real
    &&& f(d) * (value.largest() as real) == f(peak(half_of(block, h), 16))
}

/// Where no operation of the scale rounds, scaled values lie within the range.
pub proof fn law_scaled_values_lie_in_the_range<R: Real>(
    f: spec_fn(R) -> real,
    block: Seq<R>,
    j: int,
    value: QuantValue,
)
    requires
        block.len() == 32,
        0 <= j < 32,
        peak_exact(f, half_of(block, j / 16)),
        scale_exact(f, block, j / 16, value),
        multiplies(f, block[j], inverse(symmetric_scale(block, j / 16, value))),
    ensures
        distance(f(scaled(block, j, value)), 0 as real) <= value.largest() as real,
{
    let h = j / 16;
    let half = half_of(block, h);
    let i = j % 16;
    assert(half[i] == block[j]);
    lemma_peak_is_largest(f, half, 16, i);
    let d = symmetric_scale(block, h, value);
    let (v, inv, fd, top) = (f(block[j]), f(inverse(d)), f(d), value.largest() as real);
    assert(inv > 0 as real) by (nonlinear_arith)
        requires
            inv * fd == 1 as real,
            fd > 0 as real,
    ;
    let most = fd * top;
    assert(most * inv == top * (inv * fd)) by (nonlinear_arith)
        requires
            most == fd * top,
    ;
    assert(top * (1 as real) == top) by (nonlinear_arith);
    assert(v * inv <= most * inv) by (nonlinear_arith)
        requires
            v <= most,
            inv > 0 as real,
    ;
    assert((-v) * inv <= most * inv) by (nonlinear_arith)
        requires
            -v <= most,
            inv > 0 as real,
    ;
    assert((-v) * inv == -(v * inv)) by (nonlinear_arith);
}

/// Where no operation rounds but the rounding to levels, and that moves by half a level
/// at most, a symmetrically quantized value is at most half a scale away from its level
/// times the scale.
pub proof fn law_symmetric_error_is_half_a_step<R: Real>(
    f: spec_fn(R) -> real,
    block: Seq<R>,
    j: int,
    value: QuantValue,
)
    requires
        block.len() == 32,
        0 <= j < 32,
        level_exact(f, block, j, value),
        peak_exact(f, half_of(block, j / 16)),
        scale_exact(f, block, j / 16, value),
        ({
            let y = scaled(block, j, value);
            2 as real * distance(f(y.round_spec()), f(y)) <= 1 as real
        }),
    ensures
        2 as real * distance(
            f(block[j]),
            (symmetric_level(block, j, value) as real) * f(symmetric_scale(block, j / 16, value)),
        ) <= f(symmetric_scale(block, j / 16, value)),
{
    let d = symmetric_scale(block, j / 16, value);
    let y = scaled(block, j, value);
    law_scaled_values_lie_in_the_range(f, block, j, value);
    let (v, inv, fd, fy) = (f(block[j]), f(inverse(d)), f(d), f(y));
    let level = symmetric_level(block, j, value) as real;
    assert(f(limited(y.round_spec(), value)) == level);
    let e = fy - level;
    assert(-1 as real <= e + e && e + e <= 1 as real);
    assert(fy * fd == v * (inv * fd)) by (nonlinear_arith)
        requires
            fy == v * inv,
    ;
    assert(v * (1 as real) == v) by (nonlinear_arith);
    assert(e * fd == fy * fd - level * fd) by (nonlinear_arith)
        requires
            e == fy - level,
    ;
    let twice = e + e;
    assert(twice * fd == e * fd + e * fd) by (nonlinear_arith)
        requires
            twice == e + e,
    ;
    assert(twice * fd <= fd) by (nonlinear_arith)
        requires
            twice <= 1 as real,
            fd > 0 as real,
    ;
    assert(twice * fd >= -fd) by (nonlinear_arith)
        requires
            twice >= -1 as real,
            fd > 0 as real,
    ;
}

/// Where no level lies beyond the range of a symmetric value, the code that would stand
/// for one more than the negative end does not occur.
pub proof fn law_lowest_code_does_not_occur<R: Real>(block: Seq<R>, j: int, value: QuantValue)
    requires
        value.symmetric(),
        -value.largest() <= symmetric_level(block, j, value) <= value.largest(),
    ensures
        symmetric_code(block, j, value) != pow2((value.bits() - 1) as nat),
        symmetric_code(block, j, value) < pow2(value.bits()),
{
    vstd::arithmetic::power2::lemma2_to64();
    let m = pow2(value.bits()) as int;
    let q = symmetric_level(block, j, value) as int;
    if q >= 0 {
        vstd::arithmetic::div_mod::lemma_small_mod(q as nat, m as nat);
    } else {
        vstd::arithmetic::div_mod::lemma_fundamental_div_mod_converse(q, m, -1, q + m);
    }
}

/// Whether a format computes alike on both sides of zero, where `opposite` says of two of
/// its numbers that they are each other's negative. Rounding to the nearest number keeps
/// to this.
#[verifier::opaque]
pub open spec fn odd_format<R: Real>(opposite: spec_fn(R, R) -> bool) -> bool {
    &&& forall|a: R, b: R, c: R, d: R|
        opposite(a, b) && opposite(c, d) ==> opposite(
            #[trigger] a.plus_spec(c),
            #[trigger] b.plus_spec(d),
        )
    &&& forall|a: R, b: R, c: R, d: R|
        opposite(a, b) && opposite(c, d) ==> opposite(
            #[trigger] a.minus_spec(c),
            #[trigger] b.minus_spec(d),
        )
    &&& forall|a: R, b: R, s: R|
        opposite(a, b) ==> opposite(#[trigger] a.times_spec(s), #[trigger] b.times_spec(s))
    &&& forall|a: R, b: R|
        opposite(a, b) ==> #[trigger] a.abs_spec() == #[trigger] b.abs_spec()
    &&& forall|a: R, b: R|
        opposite(a, b) ==> opposite(#[trigger] a.round_spec(), #[trigger] b.round_spec())
    &&& forall|a: R, b: R, c: R, d: R|
        opposite(a, b) && opposite(c, d) ==> #[trigger] a.exceeds_spec(c)
            == #[trigger] d.exceeds_spec(b)
    &&& forall|a: R, b: R|
        #![trigger a.whole_spec(), b.whole_spec()]
        opposite(a, b) && a.whole_spec() != i32::MIN && b.whole_spec() != i32::MIN
            ==> b.whole_spec() == -a.whole_spec()
}

/// Sums and differences of negatives are negatives.
proof fn lemma_odd_sum<R: Real>(opposite: spec_fn(R, R) -> bool, a: R, b: R, c: R, d: R)
    requires
        odd_format(opposite),
        opposite(a, b),
        opposite(c, d),
    ensures
        opposite(a.plus_spec(c), b.plus_spec(d)),
        opposite(a.minus_spec(c), b.minus_spec(d)),
        a.exceeds_spec(c) == d.exceeds_spec(b),
{
    reveal(odd_format);
}

/// Multiples and rounded values of negatives are negatives.
proof fn lemma_odd_product<R: Real>(opposite: spec_fn(R, R) -> bool, a: R, b: R, s: R)
    requires
        odd_format(opposite),
        opposite(a, b),
    ensures
        opposite(a.times_spec(s), b.times_spec(s)),
        opposite(a.round_spec(), b.round_spec()),
        a.abs_spec() == b.abs_spec(),
        a.whole_spec() != i32::MIN && b.whole_spec() != i32::MIN ==> b.whole_spec()
            == -a.whole_spec(),
{
    reveal(odd_format);
}

/// Whether the ends of a range are each other's negative, and no number lies beyond
/// both.
pub open spec fn ends_apart<R: Real>(
    opposite: spec_fn(R, R) -> bool,
    value: QuantValue,
) -> bool {
    let top = R::decimal_spec(value.largest() as i64, 0);
    let bottom = R::decimal_spec((-value.largest()) as i64, 0);
    &&& opposite(top, bottom)
    &&& opposite(bottom, top)
    &&& !bottom.exceeds_spec(top)
    &&& forall|q: R| !(#[trigger] q.exceeds_spec(top) && bottom.exceeds_spec(q))
}

/// Whether two sequences are each other's negative.
pub open spec fn opposites<R: Real>(
    opposite: spec_fn(R, R) -> bool,
    x: Seq<R>,
    y: Seq<R>,
) -> bool {
    &&& x.len() == y.len()
    &&& forall|i: int|
        0 <= i < x.len() ==> opposite(#[trigger] x[i], y[i]) && opposite(y[i], x[i])
}

/// A butterfly stage keeps negatives.
proof fn lemma_butterfly_opposites<R: Real>(
    opposite: spec_fn(R, R) -> bool,
    x: Seq<R>,
    y: Seq<R>,
    step: int,
)
    requires
        odd_format(opposite),
        is_step(step),
        x.len() == 32,
        opposites(opposite, x, y),
    ensures
        opposites(opposite, butterfly(x, step), butterfly(y, step)),
        butterfly(x, step).len() == 32,
{
    let (p, q) = (butterfly(x, step), butterfly(y, step));
    assert forall|i: int| 0 <= i < 32 implies opposite(#[trigger] p[i], q[i]) && opposite(
        q[i],
        p[i],
    ) by {
        lemma_partner(i, step);
        assert(opposite(x[i], y[i]) && opposite(y[i], x[i]));
        if (i / step) % 2 == 0 {
            let k = i + step;
            assert(opposite(x[k], y[k]) && opposite(y[k], x[k]));
            lemma_odd_sum(opposite, x[i], y[i], x[k], y[k]);
            lemma_odd_sum(opposite, y[i], x[i], y[k], x[k]);
            assert(p[i] == x[i].plus_spec(x[k]) && q[i] == y[i].plus_spec(y[k]));
        } else {
            let k = i - step;
            assert(opposite(x[k], y[k]) && opposite(y[k], x[k]));
            lemma_odd_sum(opposite, x[k], y[k], x[i], y[i]);
            lemma_odd_sum(opposite, y[k], x[k], y[i], x[i]);
            assert(p[i] == x[k].minus_spec(x[i]) && q[i] == y[k].minus_spec(y[i]));
        }
    }
}

/// The partner of a position lies within the block.
proof fn lemma_partner(i: int, step: int)
    requires
        is_step(step),
        0 <= i < 32,
    ensures
        (i / step) % 2 == 0 ==> i + step < 32,
        (i / step) % 2 != 0 ==> 0 <= i - step,
{
    if step == 1 {
        assert((i / 1) % 2 == i % 2);
    } else if step == 2 {
        assert((i / 2) % 2 == 0 ==> i + 2 < 32);
        assert((i / 2) % 2 != 0 ==> 0 <= i - 2);
    } else if step == 4 {
        assert((i / 4) % 2 == 0 ==> i + 4 < 32);
        assert((i / 4) % 2 != 0 ==> 0 <= i - 4);
    } else if step == 8 {
        assert((i / 8) % 2 == 0 ==> i + 8 < 32);
        assert((i / 8) % 2 != 0 ==> 0 <= i - 8);
    } else {
        assert((i / 16) % 2 == 0 ==> i + 16 < 32);
        assert((i / 16) % 2 != 0 ==> 0 <= i - 16);
    }
}

/// A rotated block has as many values as the block.
pub(crate) proof fn lemma_rotated_len<R: Real>(x: Seq<R>, signs: Seq<R>)
    ensures
        rotated(x, signs).len() == 32,
{
    let s = with_signs(x, signs);
    assert(stages(s, 1).len() == 32);
    assert(stages(s, 2).len() == 32);
    assert(stages(s, 4).len() == 32);
    assert(stages(s, 8).len() == 32);
    assert(stages(s, 16).len() == 32);
    assert(stages(s, 32).len() == 32);
}

/// A rotation keeps negatives.
proof fn lemma_rotation_opposites<R: Real>(
    opposite: spec_fn(R, R) -> bool,
    x: Seq<R>,
    y: Seq<R>,
    signs: Seq<R>,
)
    requires
        odd_format(opposite),
        x.len() == 32,
        opposites(opposite, x, y),
    ensures
        opposites(opposite, rotated(x, signs), rotated(y, signs)),
        rotated(x, signs).len() == 32,
{
    let (u, v) = (with_signs(x, signs), with_signs(y, signs));
    assert forall|i: int| 0 <= i < 32 implies opposite(#[trigger] u[i], v[i]) && opposite(
        v[i],
        u[i],
    ) by {
        assert(opposite(x[i], y[i]) && opposite(y[i], x[i]));
        lemma_odd_product(opposite, x[i], y[i], signs[i]);
        lemma_odd_product(opposite, y[i], x[i], signs[i]);
        assert(u[i] == x[i].times_spec(signs[i]) && v[i] == y[i].times_spec(signs[i]));
    }
    assert(stages(u, 1) == u && stages(v, 1) == v);
    lemma_butterfly_opposites(opposite, u, v, 1);
    assert(stages(u, 2) == butterfly(stages(u, 1), 1) && stages(v, 2) == butterfly(
        stages(v, 1),
        1,
    ));
    lemma_butterfly_opposites(opposite, stages(u, 2), stages(v, 2), 2);
    assert(stages(u, 4) == butterfly(stages(u, 2), 2) && stages(v, 4) == butterfly(
        stages(v, 2),
        2,
    ));
    lemma_butterfly_opposites(opposite, stages(u, 4), stages(v, 4), 4);
    assert(stages(u, 8) == butterfly(stages(u, 4), 4) && stages(v, 8) == butterfly(
        stages(v, 4),
        4,
    ));
    lemma_butterfly_opposites(opposite, stages(u, 8), stages(v, 8), 8);
    assert(stages(u, 16) == butterfly(stages(u, 8), 8) && stages(v, 16) == butterfly(
        stages(v, 8),
        8,
    ));
    lemma_butterfly_opposites(opposite, stages(u, 16), stages(v, 16), 16);
    assert(stages(u, 32) == butterfly(stages(u, 16), 16) && stages(v, 32) == butterfly(
        stages(v, 16),
        16,
    ));
    let (s, t) = (stages(u, 32), stages(v, 32));
    let (p, q) = (rotated(x, signs), rotated(y, signs));
    assert forall|i: int| 0 <= i < 32 implies opposite(#[trigger] p[i], q[i]) && opposite(
        q[i],
        p[i],
    ) by {
        assert(opposite(s[i], t[i]) && opposite(t[i], s[i]));
        lemma_odd_product(opposite, s[i], t[i], inv_sqrt32::<R>());
        lemma_odd_product(opposite, t[i], s[i], inv_sqrt32::<R>());
        assert(p[i] == s[i].times_spec(inv_sqrt32::<R>()));
        assert(q[i] == t[i].times_spec(inv_sqrt32::<R>()));
    }
}

/// Negatives have the same largest absolute value.
proof fn lemma_peak_opposites<R: Real>(
    opposite: spec_fn(R, R) -> bool,
    x: Seq<R>,
    y: Seq<R>,
    n: int,
)
    requires
        odd_format(opposite),
        n <= x.len(),
        opposites(opposite, x, y),
    ensures
        peak(x, n) == peak(y, n),
    decreases n,
{
    if n > 0 {
        lemma_peak_opposites(opposite, x, y, n - 1);
        lemma_odd_product(opposite, x[n - 1], y[n - 1], x[n - 1]);
    }
}

/// Negatives are limited to negatives.
proof fn lemma_limited_opposites<R: Real>(
    opposite: spec_fn(R, R) -> bool,
    p: R,
    q: R,
    value: QuantValue,
)
    requires
        odd_format(opposite),
        ends_apart(opposite, value),
        opposite(p, q),
        opposite(q, p),
    ensures
        opposite(limited(p, value), limited(q, value)),
{
    let top = R::decimal_spec(value.largest() as i64, 0);
    let bottom = R::decimal_spec((-value.largest()) as i64, 0);
    lemma_odd_sum(opposite, p, q, top, bottom);
    lemma_odd_sum(opposite, q, p, top, bottom);
}

/// The remainder of a negative is that of the negated remainder.
proof fn lemma_negated_remainder(q: int, m: int)
    requires
        0 < m,
    ensures
        (-q) % m == (-(q % m)) % m,
{
    vstd::arithmetic::div_mod::lemma_fundamental_div_mod(q, m);
    let t = q / m;
    let r = q % m;
    assert(m * (-t) == -(m * t)) by (nonlinear_arith);
    vstd::arithmetic::div_mod::lemma_mod_multiples_vanish(-t, -r, m);
}

/// In a format that computes alike on both sides of zero, negated activations have the
/// same scales, negated levels, and codes that are the two's complement of each other.
/// Rounding is no exception; the smallest 32-bit level, which has no negative, is.
pub proof fn law_negated_activations_negate_codes<R: Real>(
    opposite: spec_fn(R, R) -> bool,
    hidden: Seq<R>,
    negated: Seq<R>,
    signs: Seq<R>,
    block: int,
    j: int,
    value: QuantValue,
)
    requires
        odd_format(opposite),
        ends_apart(opposite, value),
        0 <= block,
        32 * block + 32 <= hidden.len(),
        opposites(opposite, hidden, negated),
        0 <= j < 32,
        symmetric_level(rotated_block(hidden, signs, block), j, value) != i32::MIN,
        symmetric_level(rotated_block(negated, signs, block), j, value) != i32::MIN,
    ensures
        ({
            let x = rotated_block(hidden, signs, block);
            let y = rotated_block(negated, signs, block);
            &&& symmetric_scale(y, j / 16, value) == symmetric_scale(x, j / 16, value)
            &&& symmetric_level(y, j, value) == -symmetric_level(x, j, value)
            &&& symmetric_code(y, j, value) == (-(symmetric_code(x, j, value) as int)) % pow2(
                value.bits(),
            ) as int
        }),
{
    let a = hidden.subrange(32 * block, 32 * block + 32);
    let b = negated.subrange(32 * block, 32 * block + 32);
    assert forall|i: int| 0 <= i < 32 implies opposite(#[trigger] a[i], b[i]) && opposite(
        b[i],
        a[i],
    ) by {
        assert(opposite(hidden[32 * block + i], negated[32 * block + i]));
    }
    lemma_rotation_opposites(opposite, a, b, signs);
    let x = rotated_block(hidden, signs, block);
    let y = rotated_block(negated, signs, block);
    let h = j / 16;
    let (u, v) = (half_of(x, h), half_of(y, h));
    assert forall|i: int| 0 <= i < 16 implies opposite(#[trigger] u[i], v[i]) && opposite(
        v[i],
        u[i],
    ) by {
        assert(opposite(x[16 * h + i], y[16 * h + i]));
    }
    lemma_peak_opposites(opposite, u, v, 16);
    let inv = inverse(symmetric_scale(x, h, value));
    assert(opposite(x[j], y[j]) && opposite(y[j], x[j]));
    let (p, q) = (x[j].times_spec(inv), y[j].times_spec(inv));
    lemma_odd_product(opposite, x[j], y[j], inv);
    lemma_odd_product(opposite, y[j], x[j], inv);
    lemma_odd_product(opposite, p, q, inv);
    lemma_odd_product(opposite, q, p, inv);
    lemma_limited_opposites(opposite, p.round_spec(), q.round_spec(), value);
    lemma_odd_product(
        opposite,
        limited(p.round_spec(), value),
        limited(q.round_spec(), value),
        inv,
    );
    vstd::arithmetic::power2::lemma_pow2_pos(value.bits());
    let m = pow2(value.bits()) as int;
    let level = symmetric_level(x, j, value) as int;
    assert(symmetric_level(y, j, value) == -level);
    lemma_negated_remainder(level, m);
    vstd::arithmetic::div_mod::lemma_mod_bound(level, m);
    vstd::arithmetic::div_mod::lemma_mod_bound(-level, m);
}

} // verus!
