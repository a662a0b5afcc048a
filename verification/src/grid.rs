//! Launch grids: how many cubes of 256 units a launch takes, and how they are laid
//! out.
use vstd::prelude::*;

verus! {

/// Units per cube of the one-dimensional launches.
pub const CUBE_DIM: u32 = 256;

/// Planes per cube.
pub const WARPS: u32 = 8;

/// The most cubes that a grid has along one axis.
pub const MAX_GRID: u32 = 65535;

/// Number of cubes along each axis of a grid.
#[derive(Clone, Copy, Debug, PartialEq, Eq, Structural)]
pub struct CubeCount {
    /// Along x.
    pub x: u32,
    /// Along y.
    pub y: u32,
    /// Along z.
    pub z: u32,
}

/// The quotient, rounded up.
pub open spec fn ceil_div(a: int, b: int) -> int {
    (a + b - 1) / b
}

/// The quotient, rounded up.
pub fn div_ceil(a: usize, b: usize) -> (q: usize)
    requires
        b > 0,
    ensures
        q == ceil_div(a as int, b as int),
        q * b >= a,
        a > 0 ==> (q - 1) * b < a && q > 0,
        a == 0 ==> q == 0,
{
    proof {
        let (x, y) = (a as int, b as int);
        vstd::arithmetic::div_mod::lemma_fundamental_div_mod(x, y);
        let t = x / y;
        let r = x % y;
        assert(y * t == t * y) by (nonlinear_arith);
        assert(0 <= t && (t == x ==> r == 0) && t <= x) by (nonlinear_arith)
            requires
                x == y * t + r,
                0 <= r < y,
                0 <= x,
        ;
        if r == 0 {
            assert(ceil_div(x, y) == t) by {
                vstd::arithmetic::div_mod::lemma_fundamental_div_mod_converse(
                    x + y - 1,
                    y,
                    t,
                    y - 1,
                );
            }
            assert((t - 1) * y == t * y - y) by (nonlinear_arith);
            assert(x > 0 ==> t > 0) by (nonlinear_arith)
                requires
                    x == y * t,
                    0 <= t,
            ;
        } else {
            assert(ceil_div(x, y) == t + 1) by {
                assert((t + 1) * y == t * y + y) by (nonlinear_arith);
                vstd::arithmetic::div_mod::lemma_fundamental_div_mod_converse(
                    x + y - 1,
                    y,
                    t + 1,
                    r - 1,
                );
            }
            assert((t + 1) * y == t * y + y) by (nonlinear_arith);
        }
        if a == 0 {
            assert(t == 0) by (nonlinear_arith)
                requires
                    0 == y * t + r,
                    0 <= r < y,
                    0 <= t,
            ;
        }
    }
    if a % b == 0 {
        a / b
    } else {
        a / b + 1
    }
}

/// Cubes along x when `cubes` cubes are spread over a plane of cubes.
pub open spec fn grid_x(cubes: int) -> int {
    if cubes <= MAX_GRID {
        cubes
    } else {
        MAX_GRID as int
    }
}

/// Cubes along y when `cubes` cubes are spread over a plane of cubes.
pub open spec fn grid_y(cubes: int) -> int {
    ceil_div(cubes, grid_x(cubes))
}

/// A grid with one unit for each of `threads` outputs.
pub fn linear_grid(threads: u32) -> (count: CubeCount)
    ensures
        count.x == ceil_div(threads as int, 256),
        count.y == 1,
        count.z == 1,
        count.x * 256 >= threads,
        threads > 0 ==> (count.x - 1) * 256 < threads,
{
    let cubes: usize = div_ceil(threads as usize, CUBE_DIM as usize);
    CubeCount { x: cubes as u32, y: 1, z: 1 }
}

/// Lays cubes out across a plane, because an axis holds no more than 65535 of
/// them.
pub fn planar_grid(cubes: usize) -> (count: CubeCount)
    requires
        0 < cubes,
        grid_y(cubes as int) <= u32::MAX,
    ensures
        count.x == grid_x(cubes as int),
        count.y == grid_y(cubes as int),
        count.z == 1,
        0 < count.x <= MAX_GRID,
        count.x * count.y >= cubes,
{
    let x: usize = if cubes <= MAX_GRID as usize {
        cubes
    } else {
        MAX_GRID as usize
    };
    let y: usize = div_ceil(cubes, x);
    assert(x * y == y * x) by (nonlinear_arith);
    CubeCount { x: x as u32, y: y as u32, z: 1 }
}

/// Up to 32 bits of cubes take no more than 32 bits of rows.
pub proof fn lemma_grid_y_fits(cubes: int)
    requires
        0 < cubes <= u32::MAX,
    ensures
        0 < grid_y(cubes) <= u32::MAX,
{
    let x = grid_x(cubes);
    let y = grid_y(cubes);
    vstd::arithmetic::div_mod::lemma_fundamental_div_mod(cubes + x - 1, x);
    assert(0 < y <= cubes) by (nonlinear_arith)
        requires
            0 < x <= cubes,
            cubes + x - 1 == x * y + (cubes + x - 1) % x,
            0 <= (cubes + x - 1) % x < x,
    ;
}

} // verus!
