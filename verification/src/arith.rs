//! The arithmetic that the kernels run on. A kernel is written against [`Real`],
//! the format it accumulates in, and [`Stored`], a format that values are kept in
//! between; it says in which order which operations are made, and nothing here
//! says how an operation rounds.
use vstd::prelude::*;

verus! {

/// The format that a kernel computes in.
///
/// Each operation is a function of its operands: it returns what the spec function
/// of the same name gives, and an implementation has to define each of them. The default
/// bodies are one fixed, unknown value each, which no useful operation returns. They are
/// there for formats in code that is not verified, where spec functions cannot be
/// written: such a format is to be read as one that defines every spec function by what
/// its operation returns.
pub trait Real: Sized + Copy {
    /// What [`Real::decimal`] returns.
    open spec fn decimal_spec(mantissa: i64, places: u32) -> Self {
        arbitrary()
    }

    /// What [`Real::plus`] returns.
    open spec fn plus_spec(self, other: Self) -> Self {
        arbitrary()
    }

    /// What [`Real::minus`] returns.
    open spec fn minus_spec(self, other: Self) -> Self {
        arbitrary()
    }

    /// What [`Real::times`] returns.
    open spec fn times_spec(self, other: Self) -> Self {
        arbitrary()
    }

    /// What [`Real::over`] returns.
    open spec fn over_spec(self, other: Self) -> Self {
        arbitrary()
    }

    /// What [`Real::recip`] returns.
    open spec fn recip_spec(self) -> Self {
        arbitrary()
    }

    /// What [`Real::sqrt`] returns.
    open spec fn sqrt_spec(self) -> Self {
        arbitrary()
    }

    /// What [`Real::abs`] returns.
    open spec fn abs_spec(self) -> Self {
        arbitrary()
    }

    /// What [`Real::round`] returns.
    open spec fn round_spec(self) -> Self {
        arbitrary()
    }

    /// What [`Real::at_least`] returns.
    open spec fn at_least_spec(self, other: Self) -> bool {
        arbitrary()
    }

    /// What [`Real::exceeds`] returns.
    open spec fn exceeds_spec(self, other: Self) -> bool {
        arbitrary()
    }

    /// What [`Real::whole`] returns.
    open spec fn whole_spec(self) -> i32 {
        arbitrary()
    }

    /// What [`Real::word`] returns.
    open spec fn word_spec(self) -> u32 {
        arbitrary()
    }

    /// What [`Real::plane_sum`] returns.
    open spec fn plane_sum_spec(lanes: Seq<Self>) -> Self {
        arbitrary()
    }

    /// The number `mantissa` over ten to the power of `places`.
    fn decimal(mantissa: i64, places: u32) -> (r: Self)
        ensures
            r == Self::decimal_spec(mantissa, places),
    ;

    /// The sum.
    fn plus(self, other: Self) -> (r: Self)
        ensures
            r == self.plus_spec(other),
    ;

    /// The difference.
    fn minus(self, other: Self) -> (r: Self)
        ensures
            r == self.minus_spec(other),
    ;

    /// The product.
    fn times(self, other: Self) -> (r: Self)
        ensures
            r == self.times_spec(other),
    ;

    /// The quotient.
    fn over(self, other: Self) -> (r: Self)
        ensures
            r == self.over_spec(other),
    ;

    /// The reciprocal.
    fn recip(self) -> (r: Self)
        ensures
            r == self.recip_spec(),
    ;

    /// The square root.
    fn sqrt(self) -> (r: Self)
        ensures
            r == self.sqrt_spec(),
    ;

    /// The absolute value.
    fn abs(self) -> (r: Self)
        ensures
            r == self.abs_spec(),
    ;

    /// The nearest whole number.
    fn round(self) -> (r: Self)
        ensures
            r == self.round_spec(),
    ;

    /// Whether this is at least `other`.
    fn at_least(self, other: Self) -> (r: bool)
        ensures
            r == self.at_least_spec(other),
    ;

    /// Whether this is more than `other`.
    fn exceeds(self, other: Self) -> (r: bool)
        ensures
            r == self.exceeds_spec(other),
    ;

    /// The whole number that this holds.
    fn whole(self) -> (r: i32)
        ensures
            r == self.whole_spec(),
    ;

    /// The bit pattern, by which constants are told apart.
    fn word(self) -> (r: u32)
        ensures
            r == self.word_spec(),
    ;

    /// The sum over the lanes of a plane, in the order in which the device adds.
    fn plane_sum(lanes: &Vec<Self>) -> (r: Self)
        ensures
            r == Self::plane_sum_spec(lanes@),
    ;
}

/// A format that values of `R` are stored in. What is said of the spec functions of
/// [`Real`] holds of these, too.
pub trait Stored<R: Real>: Sized + Copy {
    /// What [`Stored::widen`] returns.
    open spec fn widen_spec(self) -> R {
        arbitrary()
    }

    /// What [`Stored::narrow`] returns.
    open spec fn narrow_spec(x: R) -> Self {
        arbitrary()
    }

    /// Converts a stored value for computing.
    fn widen(self) -> (r: R)
        ensures
            r == self.widen_spec(),
    ;

    /// Converts a computed value for storing.
    fn narrow(x: R) -> (r: Self)
        ensures
            r == Self::narrow_spec(x),
    ;
}

/// Storage in the format that is computed in.
#[derive(Copy)]
pub struct Full<R: Real>(pub R);

impl<R: Real> Clone for Full<R> {
    fn clone(&self) -> (r: Self)
        ensures
            r == *self,
    {
        *self
    }
}

impl<R: Real> Stored<R> for Full<R> {
    open spec fn widen_spec(self) -> R {
        self.0
    }

    open spec fn narrow_spec(x: R) -> Self {
        Full(x)
    }

    fn widen(self) -> (r: R) {
        self.0
    }

    fn narrow(x: R) -> (r: Self) {
        Full(x)
    }
}

/// Copies values one by one.
pub(crate) fn copy_all<R: Real>(values: &Vec<R>) -> (copy: Vec<R>)
    ensures
        copy@ == values@,
{
    let mut copy: Vec<R> = Vec::new();
    let mut i: usize = 0;
    while i < values.len()
        invariant
            i <= values@.len(),
            copy@ == values@.take(i as int),
        decreases values@.len() - i,
    {
        copy.push(values[i]);
        i += 1;
        proof {
            assert(values@.take(i as int) =~= values@.take(i - 1).push(values@[i - 1]));
        }
    }
    proof {
        assert(values@.take(i as int) =~= values@);
    }
    copy
}

/// Zero.
pub open spec fn zero<R: Real>() -> R {
    R::decimal_spec(0, 0)
}

/// One.
pub open spec fn one<R: Real>() -> R {
    R::decimal_spec(1, 0)
}

/// The sum of the first `n` terms, from zero on, in ascending order.
pub open spec fn sum_of<R: Real>(term: spec_fn(int) -> R, n: int) -> R
    decreases n,
{
    if n <= 0 {
        zero::<R>()
    } else {
        sum_of(term, n - 1).plus_spec(term(n - 1))
    }
}

/// Sums of equal terms are equal.
pub proof fn lemma_sum_of_same<R: Real>(f: spec_fn(int) -> R, g: spec_fn(int) -> R, n: int)
    requires
        forall|i: int| 0 <= i < n ==> #[trigger] f(i) == g(i),
    ensures
        sum_of(f, n) == sum_of(g, n),
    decreases n,
{
    if n > 0 {
        lemma_sum_of_same(f, g, n - 1);
        assert(f(n - 1) == g(n - 1));
    }
}

} // verus!
