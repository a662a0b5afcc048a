//! Fixed-point operations do not round where their results are in range and whole
//! numbers of units; all others are cut off towards zero or held at an end of the range.
use vstd::prelude::*;
use vstd::arithmetic::power::pow;
use crate::arith::Real;
use crate::exact::{adds, multiplies, subtracts};
use crate::fixed::{
    clamped, drop_places, is_root, magnitude, running_total, signed, whole_root, Fixed,
};

verus! {

/// The number that a [`Fixed`] stands for.
pub open spec fn fixed_value() -> spec_fn(Fixed) -> real {
    |x: Fixed| x.raw as real / 65536 as real
}

/// A sum in range does not round.
pub proof fn law_fixed_sums_are_exact(a: Fixed, b: Fixed)
    requires
        i32::MIN <= a.raw + b.raw <= i32::MAX,
    ensures
        adds(fixed_value(), a, b),
{
}

/// A difference in range does not round.
pub proof fn law_fixed_differences_are_exact(a: Fixed, b: Fixed)
    requires
        i32::MIN <= a.raw - b.raw <= i32::MAX,
    ensures
        subtracts(fixed_value(), a, b),
{
}

/// A product in range that is a whole number of units does not round.
pub proof fn law_fixed_products_are_exact(a: Fixed, b: Fixed, product: int)
    requires
        a.raw * b.raw == 65536 * product,
        i32::MIN < product <= i32::MAX,
    ensures
        multiplies(fixed_value(), a, b),
{
    let (x, y) = (a.raw as int, b.raw as int);
    let (s, t) = (magnitude(x), magnitude(y));
    assert(s * t == 65536 * magnitude(product)) by (nonlinear_arith)
        requires
            x * y == 65536 * product,
            s == magnitude(x),
            t == magnitude(y),
    ;
    assert(product < 0 ==> (x < 0) != (y < 0)) by (nonlinear_arith)
        requires
            x * y == 65536 * product,
    ;
    assert(product > 0 ==> (x < 0) == (y < 0)) by (nonlinear_arith)
        requires
            x * y == 65536 * product,
    ;
    assert(a.times_spec(b).raw == product);
    assert((x * y) as real == (x as real) * (y as real)) by (nonlinear_arith);
    let (p, q, r) = (x as real, y as real, product as real);
    assert((p / 65536 as real) * (q / 65536 as real) == r / 65536 as real) by (nonlinear_arith)
        requires
            p * q == 65536 as real * r,
    ;
}

/// Whether `units` is what a [`Fixed`] holds of `num` over `den`: the quotient, cut off
/// towards zero, or the end of the range that it lies beyond.
pub open spec fn cut_off(units: int, num: int, den: int) -> bool {
    if units >= i32::MAX {
        units == i32::MAX && num >= units * den
    } else if units <= i32::MIN {
        units == i32::MIN && num <= units * den
    } else if num >= 0 {
        units * den <= num < (units + 1) * den
    } else {
        (units - 1) * den < num <= units * den
    }
}

/// What clamping leaves of a quotient whose sign was set aside.
proof fn lemma_cut_off(num: int, den: int, size: int, negative: bool)
    requires
        0 < den,
        size == magnitude(num) / den,
        negative == (num < 0) || size == 0,
    ensures
        cut_off(
            clamped(signed(negative, size)).raw as int,
            num,
            den,
        ),
{
    let mag = magnitude(num);
    vstd::arithmetic::div_mod::lemma_fundamental_div_mod(mag, den);
    let rest = mag % den;
    assert(den * size == size * den) by (nonlinear_arith);
    let units = clamped(signed(negative, size)).raw as int;
    let exact = signed(negative, size);
    assert(exact * den == (if negative {
        -(size * den)
    } else {
        size * den
    })) by (nonlinear_arith)
        requires
            exact == (if negative {
                -size
            } else {
                size
            }),
    ;
    assert(0 <= size) by (nonlinear_arith)
        requires
            0 <= mag,
            0 < den,
            mag == den * size + rest,
            0 <= rest < den,
    ;
    assert((exact + 1) * den == exact * den + den) by (nonlinear_arith);
    assert((exact - 1) * den == exact * den - den) by (nonlinear_arith);
    if exact > i32::MAX {
        assert(units * den <= exact * den) by (nonlinear_arith)
            requires
                units <= exact,
                0 < den,
        ;
    } else if exact < i32::MIN {
        assert(exact * den <= units * den) by (nonlinear_arith)
            requires
                exact <= units,
                0 < den,
        ;
    }
}

/// Sums and differences beyond the range are held at its ends.
pub proof fn law_fixed_sums_are_held(a: Fixed, b: Fixed)
    ensures
        cut_off(a.plus_spec(b).raw as int, a.raw + b.raw, 1),
        cut_off(a.minus_spec(b).raw as int, a.raw - b.raw, 1),
{
}

/// Products are cut off towards zero and held at the ends of the range.
pub proof fn law_fixed_products_are_cut_off(a: Fixed, b: Fixed)
    ensures
        cut_off(a.times_spec(b).raw as int, a.raw * b.raw, 65536),
{
    let (x, y) = (a.raw as int, b.raw as int);
    let num = x * y;
    assert(magnitude(num) == magnitude(x) * magnitude(y)) by (nonlinear_arith)
        requires
            num == x * y,
    ;
    assert(num != 0 ==> (num < 0) == ((x < 0) != (y < 0))) by (nonlinear_arith)
        requires
            num == x * y,
    ;
    lemma_cut_off(num, 65536, magnitude(x) * magnitude(y) / 65536, (x < 0) != (y < 0));
}

/// Quotients and reciprocals are cut off towards zero and held at the ends of the range;
/// what is divided by zero is held at the end of its sign.
pub proof fn law_fixed_quotients_are_cut_off(a: Fixed, b: Fixed)
    ensures
        b.raw > 0 ==> cut_off(a.over_spec(b).raw as int, a.raw * 65536, b.raw as int),
        b.raw < 0 ==> cut_off(a.over_spec(b).raw as int, -a.raw * 65536, -b.raw),
        b.raw > 0 ==> cut_off(b.recip_spec().raw as int, 65536int * 65536, b.raw as int),
        b.raw < 0 ==> cut_off(b.recip_spec().raw as int, -65536int * 65536, -b.raw),
        b.raw == 0 && a.raw > 0 ==> a.over_spec(b).raw == i32::MAX,
        b.raw == 0 && a.raw < 0 ==> a.over_spec(b).raw == i32::MIN,
        b.raw == 0 && a.raw == 0 ==> a.over_spec(b).raw == 0,
        b.raw == 0 ==> b.recip_spec().raw == i32::MAX,
{
    let (x, y) = (a.raw as int, b.raw as int);
    if y != 0 {
        let den = magnitude(y);
        let num = if y > 0 {
            x * 65536
        } else {
            -x * 65536
        };
        assert(magnitude(num) == magnitude(x) * 65536);
        if x == 0 {
            assert(0int / den == 0) by {
                vstd::arithmetic::div_mod::lemma_small_mod(0, den as nat);
                vstd::arithmetic::div_mod::lemma_basic_div(0, den);
            }
        }
        lemma_cut_off(num, den, magnitude(x) * 65536 / den, (x < 0) != (y < 0));
        let whole = if y > 0 {
            65536int * 65536
        } else {
            -65536int * 65536
        };
        lemma_cut_off(whole, den, 65536int * 65536 / den, y < 0);
    }
}

/// Decimal numbers are cut off towards zero and held at the ends of the range.
pub proof fn law_fixed_decimals_are_cut_off(mantissa: i64, places: u32)
    ensures
        cut_off(
            Fixed::decimal_spec(mantissa, places).raw as int,
            mantissa * 65536,
            pow(10, places as nat),
        ),
{
    let num = mantissa * 65536;
    let size = magnitude(mantissa as int) * 65536;
    assert(magnitude(num) == size);
    lemma_drop_places(size, places);
    vstd::arithmetic::power::lemma_pow_positive(10, places as nat);
    lemma_cut_off(num, pow(10, places as nat), drop_places(size, places), mantissa < 0);
}

/// Dropping places is dividing by a power of ten.
proof fn lemma_drop_places(x: int, places: u32)
    requires
        0 <= x,
    ensures
        drop_places(x, places) == x / pow(10, places as nat),
    decreases places,
{
    reveal(pow);
    if places > 0 {
        let fewer = (places - 1) as u32;
        lemma_drop_places(x / 10, fewer);
        vstd::arithmetic::power::lemma_pow_positive(10, fewer as nat);
        vstd::arithmetic::div_mod::lemma_div_denominator(x, 10, pow(10, fewer as nat));
    }
}

/// The square root is cut off, and that of a negative number is zero.
pub proof fn law_fixed_roots_are_cut_off(a: Fixed)
    ensures
        a.raw < 0 ==> a.sqrt_spec().raw == 0,
        a.raw >= 0 ==> ({
            let root = a.sqrt_spec().raw as int;
            0 <= root && root * root <= a.raw * 65536 < (root + 1) * (root + 1)
        }),
{
    if a.raw > 0 {
        let x = a.raw * 65536;
        lemma_root_exists(x, 0x100_0000);
        let root = whole_root(x);
        assert(is_root(x, root));
        assert(root <= 0x100_0000) by (nonlinear_arith)
            requires
                0 <= root,
                root * root <= x,
                x <= 0x100_0000 * 0x100_0000,
        ;
    }
}

/// Below the square of a bound, a number has a whole root below the bound.
proof fn lemma_root_exists(x: int, bound: int)
    requires
        0 <= x < bound * bound,
        0 <= bound,
    ensures
        exists|root: int| is_root(x, root),
    decreases bound,
{
    assert(bound > 0) by (nonlinear_arith)
        requires
            0 <= x < bound * bound,
            0 <= bound,
    ;
    let lower = bound - 1;
    if lower * lower <= x {
        assert(is_root(x, lower));
    } else {
        lemma_root_exists(x, lower);
    }
}

/// A number is rounded to the nearest whole one, a half away from zero, or to the end of
/// the range.
pub proof fn law_fixed_rounding(a: Fixed)
    ensures
        ({
            let r = a.round_spec().raw as int;
            if a.raw >= 32767 * 65536 + 32768 {
                r == i32::MAX
            } else {
                &&& r % 65536 == 0
                &&& -32768 <= r - a.raw <= 32768
                &&& r - a.raw == 32768 ==> a.raw > 0
                &&& r - a.raw == -32768 ==> a.raw < 0
            }
        }),
        cut_off(a.whole_spec() as int, a.raw as int, 65536),
{
    lemma_cut_off(a.raw as int, 65536, magnitude(a.raw as int) / 65536, a.raw < 0);
}

/// Comparisons are those of the numbers, the absolute value is the number without its
/// sign, held at the end of the range, and the bit pattern is the number's two's
/// complement.
pub proof fn law_fixed_order(a: Fixed, b: Fixed)
    ensures
        a.at_least_spec(b) == (a.raw >= b.raw),
        a.exceeds_spec(b) == (a.raw > b.raw),
        a.raw >= 0 ==> a.abs_spec() == a,
        i32::MIN < a.raw < 0 ==> a.abs_spec().raw == -a.raw,
        a.raw == i32::MIN ==> a.abs_spec().raw == i32::MAX,
        a.word_spec() as int == (if a.raw < 0 {
            a.raw + 0x1_0000_0000
        } else {
            a.raw as int
        }),
{
    let x = a.raw;
    assert(x as u32 as int == (if x < 0 {
        x + 0x1_0000_0000
    } else {
        x as int
    })) by (bit_vector);
}

/// The number of units that the first `n` lanes have together.
pub open spec fn units_of(lanes: Seq<Fixed>, n: int) -> int
    decreases n,
{
    if n <= 0 {
        0
    } else {
        units_of(lanes, n - 1) + lanes[n - 1].raw
    }
}

/// A sum over a plane does not round where no sum on the way is out of range.
pub proof fn law_fixed_plane_sums_are_exact(lanes: Seq<Fixed>)
    requires
        forall|n: int|
            0 <= n <= lanes.len() ==> i32::MIN <= #[trigger] units_of(lanes, n) <= i32::MAX,
    ensures
        Fixed::plane_sum_spec(lanes).raw == units_of(lanes, lanes.len() as int),
{
    lemma_running_total(lanes, lanes.len() as int);
}

/// The running total does not round either.
proof fn lemma_running_total(lanes: Seq<Fixed>, n: int)
    requires
        0 <= n <= lanes.len(),
        forall|i: int|
            0 <= i <= lanes.len() ==> i32::MIN <= #[trigger] units_of(lanes, i) <= i32::MAX,
    ensures
        running_total(lanes, n).raw == units_of(lanes, n),
    decreases n,
{
    if n > 0 {
        lemma_running_total(lanes, n - 1);
        assert(i32::MIN <= units_of(lanes, n) <= i32::MAX);
    }
}

} // verus!
