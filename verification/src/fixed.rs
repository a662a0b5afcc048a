//! Fixed-point arithmetic, for running the kernels where there is no floating
//! point.
use vstd::prelude::*;
use crate::arith::Real;

verus! {

/// A number in units of one 65536th. Results beyond the range are held at its
/// ends; results between two units go to the one nearer to zero.
#[derive(Clone, Copy, Debug, PartialEq, Eq, Structural)]
pub struct Fixed {
    /// The number of units.
    pub raw: i32,
}

/// The unit count nearest to `x` that a [`Fixed`] can hold.
pub open spec fn clamped(x: int) -> Fixed {
    Fixed {
        raw: (if x > i32::MAX {
            i32::MAX as int
        } else if x < i32::MIN {
            i32::MIN as int
        } else {
            x
        }) as i32,
    }
}

/// The absolute value of a whole number.
pub open spec fn magnitude(x: int) -> int {
    if x < 0 {
        -x
    } else {
        x
    }
}

/// `size` with the sign that `negative` says.
pub open spec fn signed(negative: bool, size: int) -> int {
    if negative {
        -size
    } else {
        size
    }
}

/// `x` with `places` decimal places dropped.
pub open spec fn drop_places(x: int, places: u32) -> int
    decreases places,
{
    if places == 0 {
        x
    } else {
        drop_places(x / 10, (places - 1) as u32)
    }
}

/// The sum of the first `n` numbers, held within the range at every step.
pub open spec fn running_total(lanes: Seq<Fixed>, n: int) -> Fixed
    decreases n,
{
    if n <= 0 {
        clamped(0)
    } else {
        clamped(running_total(lanes, n - 1).raw + lanes[n - 1].raw)
    }
}

/// Whether `root` is the whole part of the square root of `x`.
pub open spec fn is_root(x: int, root: int) -> bool {
    0 <= root && root * root <= x < (root + 1) * (root + 1)
}

/// The whole part of the square root.
pub open spec fn whole_root(x: int) -> int {
    choose|root: int| is_root(x, root)
}

proof fn lemma_root_unique(x: int, a: int, b: int)
    requires
        is_root(x, a),
        is_root(x, b),
    ensures
        a == b,
{
    if a < b {
        assert((a + 1) * (a + 1) <= b * b) by (nonlinear_arith)
            requires
                0 <= a < b,
        ;
    }
    if b < a {
        assert((b + 1) * (b + 1) <= a * a) by (nonlinear_arith)
            requires
                0 <= b < a,
        ;
    }
}

fn clamp(x: i128) -> (r: Fixed)
    ensures
        r == clamped(x as int),
{
    if x > 2147483647 {
        Fixed { raw: 2147483647 }
    } else if x < -2147483648 {
        Fixed { raw: -2147483648 }
    } else {
        Fixed { raw: x as i32 }
    }
}

fn size(x: i32) -> (r: u64)
    ensures
        r == magnitude(x as int),
        r <= 2147483648,
{
    if x < 0 {
        (-(x as i64)) as u64
    } else {
        x as u64
    }
}

fn with_sign(negative: bool, size: u64) -> (r: Fixed)
    ensures
        r == clamped(signed(negative, size as int)),
{
    if negative {
        clamp(-(size as i128))
    } else {
        clamp(size as i128)
    }
}

/// The whole part of the square root, by halving the range that it lies in.
fn root(x: u64) -> (r: u64)
    requires
        x <= 0x1_0000_0000_0000,
    ensures
        r == whole_root(x as int),
{
    let mut low: u64 = 0;
    let mut high: u64 = 0x200_0000;
    assert(0x200_0000 * 0x200_0000 > x);
    while high - low > 1
        invariant
            low < high <= 0x200_0000,
            low * low <= x < high * high,
        decreases high - low,
    {
        let mid: u64 = low + (high - low) / 2;
        assert(mid * mid <= 0x200_0000 * 0x200_0000) by (nonlinear_arith)
            requires
                mid <= 0x200_0000,
        ;
        if mid * mid <= x {
            low = mid;
        } else {
            high = mid;
        }
    }
    proof {
        assert(is_root(x as int, low as int));
        lemma_root_unique(x as int, low as int, whole_root(x as int));
    }
    low
}

impl Real for Fixed {
    open spec fn decimal_spec(mantissa: i64, places: u32) -> Self {
        clamped(
            signed(mantissa < 0, drop_places(magnitude(mantissa as int) * 65536, places)),
        )
    }

    open spec fn plus_spec(self, other: Self) -> Self {
        clamped(self.raw + other.raw)
    }

    open spec fn minus_spec(self, other: Self) -> Self {
        clamped(self.raw - other.raw)
    }

    open spec fn times_spec(self, other: Self) -> Self {
        clamped(
            signed(
                (self.raw < 0) != (other.raw < 0),
                magnitude(self.raw as int) * magnitude(other.raw as int) / 65536,
            ),
        )
    }

    open spec fn over_spec(self, other: Self) -> Self {
        if other.raw == 0 {
            clamped(signed(self.raw < 0, if self.raw == 0 { 0 } else { 0x1_0000_0000 }))
        } else {
            clamped(
                signed(
                    (self.raw < 0) != (other.raw < 0),
                    magnitude(self.raw as int) * 65536 / magnitude(other.raw as int),
                ),
            )
        }
    }

    open spec fn recip_spec(self) -> Self {
        clamped(65536).over_spec(self)
    }

    open spec fn sqrt_spec(self) -> Self {
        clamped(if self.raw <= 0 { 0 } else { whole_root(self.raw * 65536) })
    }

    open spec fn abs_spec(self) -> Self {
        clamped(magnitude(self.raw as int))
    }

    open spec fn round_spec(self) -> Self {
        clamped(signed(self.raw < 0, (magnitude(self.raw as int) + 32768) / 65536 * 65536))
    }

    open spec fn at_least_spec(self, other: Self) -> bool {
        self.raw >= other.raw
    }

    open spec fn exceeds_spec(self, other: Self) -> bool {
        self.raw > other.raw
    }

    open spec fn whole_spec(self) -> i32 {
        signed(self.raw < 0, magnitude(self.raw as int) / 65536) as i32
    }

    open spec fn word_spec(self) -> u32 {
        self.raw as u32
    }

    open spec fn plane_sum_spec(lanes: Seq<Self>) -> Self {
        running_total(lanes, lanes.len() as int)
    }

    fn decimal(mantissa: i64, places: u32) -> (r: Self) {
        let mut size: i128 = if mantissa < 0 {
            -(mantissa as i128) * 65536
        } else {
            mantissa as i128 * 65536
        };
        let ghost start = size as int;
        let mut left: u32 = places;
        while left > 0
            invariant
                0 <= size <= 0x8000_0000_0000_0000 * 65536,
                drop_places(size as int, left) == drop_places(start, places),
            decreases left,
        {
            size = size / 10;
            left = left - 1;
        }
        if mantissa < 0 {
            clamp(-size)
        } else {
            clamp(size)
        }
    }

    fn plus(self, other: Self) -> (r: Self) {
        clamp(self.raw as i128 + other.raw as i128)
    }

    fn minus(self, other: Self) -> (r: Self) {
        clamp(self.raw as i128 - other.raw as i128)
    }

    fn times(self, other: Self) -> (r: Self) {
        let a: u64 = size(self.raw);
        let b: u64 = size(other.raw);
        assert(a * b <= 2147483648 * 2147483648) by (nonlinear_arith)
            requires
                a <= 2147483648,
                b <= 2147483648,
        ;
        with_sign((self.raw < 0) != (other.raw < 0), a * b / 65536)
    }

    fn over(self, other: Self) -> (r: Self) {
        if other.raw == 0 {
            with_sign(
                self.raw < 0,
                if self.raw == 0 {
                    0
                } else {
                    0x1_0000_0000
                },
            )
        } else {
            with_sign(
                (self.raw < 0) != (other.raw < 0),
                size(self.raw) * 65536 / size(other.raw),
            )
        }
    }

    fn recip(self) -> (r: Self) {
        clamp(65536).over(self)
    }

    fn sqrt(self) -> (r: Self) {
        if self.raw <= 0 {
            clamp(0)
        } else {
            clamp(root(self.raw as u64 * 65536) as i128)
        }
    }

    fn abs(self) -> (r: Self) {
        with_sign(false, size(self.raw))
    }

    fn round(self) -> (r: Self) {
        with_sign(self.raw < 0, (size(self.raw) + 32768) / 65536 * 65536)
    }

    fn at_least(self, other: Self) -> (r: bool) {
        self.raw >= other.raw
    }

    fn exceeds(self, other: Self) -> (r: bool) {
        self.raw > other.raw
    }

    fn whole(self) -> (r: i32) {
        let whole: i32 = (size(self.raw) / 65536) as i32;
        if self.raw < 0 {
            -whole
        } else {
            whole
        }
    }

    fn word(self) -> (r: u32) {
        self.raw as u32
    }

    fn plane_sum(lanes: &Vec<Self>) -> (r: Self) {
        let mut acc: Fixed = clamp(0);
        let mut i: usize = 0;
        while i < lanes.len()
            invariant
                i <= lanes.len(),
                acc == running_total(lanes@, i as int),
            decreases lanes.len() - i,
        {
            acc = clamp(acc.raw as i128 + lanes[i].raw as i128);
            i += 1;
        }
        acc
    }
}

} // verus!
