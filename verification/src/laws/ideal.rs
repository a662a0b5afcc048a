//! Exact arithmetic: what it is for a format not to round at all. Each predicate speaks of
//! the operations of the format and of nothing else. Numbers of unlimited size keep to
//! the first two, fractions to the third, real algebraic numbers to all of them.
use vstd::prelude::*;
use vstd::arithmetic::power::pow;
use crate::arith::{sum_of, Full, Real, Stored};
use crate::exact::{adds, multiplies, subtracts, sums, sums_plane};
use crate::laws::choice::distance;
use crate::laws::symmetric::is_whole;

verus! {

/// Whether decimal numbers are held exactly.
#[verifier::opaque]
pub open spec fn exact_decimals<R: Real>(f: spec_fn(R) -> real) -> bool {
    forall|mantissa: i64, places: u32|
        f(#[trigger] R::decimal_spec(mantissa, places)) * (pow(10, places as nat) as real)
            == mantissa as real
}

/// Whether sums, differences and products are exact.
#[verifier::opaque]
pub open spec fn exact_ring<R: Real>(f: spec_fn(R) -> real) -> bool {
    &&& forall|a: R, b: R| #[trigger] adds(f, a, b)
    &&& forall|a: R, b: R| #[trigger] subtracts(f, a, b)
    &&& forall|a: R, b: R| #[trigger] multiplies(f, a, b)
    &&& forall|lanes: Seq<R>| #[trigger] sums_plane(f, lanes)
}

/// Whether quotients and reciprocals are exact.
#[verifier::opaque]
pub open spec fn exact_quotients<R: Real>(f: spec_fn(R) -> real) -> bool {
    &&& forall|a: R, b: R|
        f(b) != 0 as real ==> f(#[trigger] a.over_spec(b)) * f(b) == f(a)
    &&& forall|a: R| f(a) != 0 as real ==> f(#[trigger] a.recip_spec()) * f(a) == 1 as real
}

/// Whether square roots are exact.
#[verifier::opaque]
pub open spec fn exact_roots<R: Real>(f: spec_fn(R) -> real) -> bool {
    forall|a: R|
        f(a) >= 0 as real ==> {
            let root = f(#[trigger] a.sqrt_spec());
            root >= 0 as real && root * root == f(a)
        }
}

/// Whether numbers are compared, and absolute values taken, as those of the reading.
#[verifier::opaque]
pub open spec fn exact_order<R: Real>(f: spec_fn(R) -> real) -> bool {
    &&& forall|a: R, b: R| #[trigger] a.at_least_spec(b) == (f(a) >= f(b))
    &&& forall|a: R, b: R| #[trigger] a.exceeds_spec(b) == (f(a) > f(b))
    &&& forall|a: R| f(#[trigger] a.abs_spec()) == distance(f(a), 0 as real)
}

/// Whether a number is whole.
pub open spec fn has_whole(x: real) -> bool {
    exists|n: int| is_whole(x, n)
}

/// Whether rounding gives a whole number at most a half away, and whole numbers of 32 bits
/// are taken for what they are.
#[verifier::opaque]
pub open spec fn exact_levels<R: Real>(f: spec_fn(R) -> real) -> bool {
    &&& forall|a: R|
        2 as real * distance(f(#[trigger] a.round_spec()), f(a)) <= 1 as real && has_whole(
            f(a.round_spec()),
        )
    &&& forall|a: R, n: int| #[trigger]
        is_whole(f(a), n) && i32::MIN <= n <= i32::MAX ==> a.whole_spec() == n
}

/// Whether storing and reading back gives the same number.
#[verifier::opaque]
pub open spec fn stores_exactly<R: Real, S: Stored<R>>(f: spec_fn(R) -> real) -> bool {
    forall|v: R| f((#[trigger] S::narrow_spec(v)).widen_spec()) == f(v)
}

/// Whole numbers, as decimals without places.
pub proof fn lemma_whole_decimal<R: Real>(f: spec_fn(R) -> real, n: i64)
    requires
        exact_decimals(f),
    ensures
        f(R::decimal_spec(n, 0)) == n as real,
{
    reveal(exact_decimals);
    reveal_with_fuel(pow, 2);
    let v = f(R::decimal_spec(n, 0));
    assert(v * (1 as real) == v) by (nonlinear_arith);
    assert(v * (pow(10, 0) as real) == n as real);
}

/// A half, as five tenths.
pub proof fn lemma_half_decimal<R: Real>(f: spec_fn(R) -> real)
    requires
        exact_decimals(f),
    ensures
        f(R::decimal_spec(5, 1)) == 1 as real / 2 as real,
{
    reveal(exact_decimals);
    reveal_with_fuel(pow, 3);
    let v = f(R::decimal_spec(5, 1));
    assert(pow(10, 1) == 10);
    assert(v * (pow(10, 1) as real) == 5 as real);
    assert(v * (10 as real) == 5 as real);
}

/// One over ten to the sixth and to the tenth.
pub proof fn lemma_small_decimals<R: Real>(f: spec_fn(R) -> real)
    requires
        exact_decimals(f),
    ensures
        f(R::decimal_spec(1, 6)) == 1 as real / 1000000 as real,
        f(R::decimal_spec(1, 10)) == 1 as real / 10000000000 as real,
{
    reveal(exact_decimals);
    reveal_with_fuel(pow, 12);
    let v = f(R::decimal_spec(1, 6));
    let w = f(R::decimal_spec(1, 10));
    assert(pow(10, 6) == 1000000);
    assert(pow(10, 10) == 10000000000);
    assert(v * (pow(10, 6) as real) == 1 as real);
    assert(w * (pow(10, 10) as real) == 1 as real);
    assert(v * (1000000 as real) == 1 as real);
    assert(w * (10000000000 as real) == 1 as real);
}

/// Sums of any terms are exact.
pub proof fn lemma_exact_sums<R: Real>(f: spec_fn(R) -> real, term: spec_fn(int) -> R, n: int)
    requires
        exact_ring(f),
        exact_decimals(f),
    ensures
        sums(f, term, n),
{
    reveal(exact_ring);
    lemma_whole_decimal(f, 0);
}

/// Sums, differences and products of two numbers are exact.
pub proof fn lemma_exact_pair<R: Real>(f: spec_fn(R) -> real, a: R, b: R)
    requires
        exact_ring(f),
    ensures
        adds(f, a, b),
        subtracts(f, a, b),
        multiplies(f, a, b),
{
    reveal(exact_ring);
}

/// Sums over a plane are exact.
pub proof fn lemma_exact_plane<R: Real>(f: spec_fn(R) -> real, lanes: Seq<R>)
    requires
        exact_ring(f),
    ensures
        sums_plane(f, lanes),
{
    reveal(exact_ring);
}

/// Quotients are exact.
pub proof fn lemma_exact_quotient<R: Real>(f: spec_fn(R) -> real, a: R, b: R)
    requires
        exact_quotients(f),
        f(b) != 0 as real,
    ensures
        f(a.over_spec(b)) * f(b) == f(a),
        f(b.recip_spec()) * f(b) == 1 as real,
{
    reveal(exact_quotients);
}

/// Square roots are exact.
pub proof fn lemma_exact_root<R: Real>(f: spec_fn(R) -> real, a: R)
    requires
        exact_roots(f),
        f(a) >= 0 as real,
    ensures
        f(a.sqrt_spec()) >= 0 as real,
        f(a.sqrt_spec()) * f(a.sqrt_spec()) == f(a),
{
    reveal(exact_roots);
}

/// Comparisons are those of the numbers.
pub proof fn lemma_exact_order<R: Real>(f: spec_fn(R) -> real, a: R, b: R)
    requires
        exact_order(f),
    ensures
        a.at_least_spec(b) == (f(a) >= f(b)),
        a.exceeds_spec(b) == (f(a) > f(b)),
        f(a.abs_spec()) == distance(f(a), 0 as real),
{
    reveal(exact_order);
}

/// The whole number that a number is rounded to.
pub proof fn lemma_exact_round<R: Real>(f: spec_fn(R) -> real, a: R) -> (n: int)
    requires
        exact_levels(f),
    ensures
        is_whole(f(a.round_spec()), n),
        2 as real * distance(n as real, f(a)) <= 1 as real,
{
    reveal(exact_levels);
    let v = f(a.round_spec());
    assert(2 as real * distance(f(a.round_spec()), f(a)) <= 1 as real);
    choose|n: int| is_whole(v, n)
}

/// A whole number of 32 bits is taken for what it is.
pub proof fn lemma_exact_whole<R: Real>(f: spec_fn(R) -> real, a: R, n: int)
    requires
        exact_levels(f),
        is_whole(f(a), n),
        i32::MIN <= n <= i32::MAX,
    ensures
        a.whole_spec() == n,
{
    reveal(exact_levels);
}

/// What is stored is what is read back.
pub proof fn lemma_exact_storage<R: Real, S: Stored<R>>(f: spec_fn(R) -> real, v: R)
    requires
        stores_exactly::<R, S>(f),
    ensures
        f(S::narrow_spec(v).widen_spec()) == f(v),
{
    reveal(stores_exactly);
}

/// Storage in the format that is computed in changes nothing.
pub proof fn law_full_storage_keeps_values<R: Real>(f: spec_fn(R) -> real, v: R)
    ensures
        Full::<R>::narrow_spec(v).widen_spec() == v,
        stores_exactly::<R, Full<R>>(f),
{
    reveal(stores_exactly);
}

/// In any format, exact or not, sums start at zero and take their terms one by one, the
/// first one first.
pub proof fn law_sums_ascend<R: Real>(term: spec_fn(int) -> R, n: int)
    requires
        0 <= n,
    ensures
        sum_of(term, 0) == R::decimal_spec(0, 0),
        sum_of(term, n + 1) == sum_of(term, n).plus_spec(term(n)),
{
}

} // verus!
