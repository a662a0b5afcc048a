//! What the routine plans and computes, in terms of what goes in.
use vstd::prelude::*;
use crate::arith::{Real, Stored};
use crate::definition::{
    CubeCountPlan, CubeDim, InvalidConfig, MatmulAvailabilityError, MatmulProblem,
    MatmulSetupError, MatrixLayout,
};
use crate::exact::{lemma_sums, lemma_total_same, read, total};
use crate::grid::{ceil_div, grid_x, grid_y, CubeCount};
use crate::laws::ideal::{exact_decimals, exact_ring, lemma_exact_pair, lemma_exact_sums};
use crate::laws::streams::{is_times, lemma_multiple};
use crate::qa_gemv::matmul::{
    gemv_at, gemv_result, gemv_term, lemma_batches_within, lemma_out_position, unit_row,
    MatrixView, Operand, UnitPosition,
};
use crate::qa_gemv::routine::{
    countable, extent, prepared, row_cubes, shape_plan, shape_verdict, DeviceSettings, ExpandInfo,
    LaunchInfo,
};
use crate::qa_gemv::setup::{batches_of_grid, rows_of_grid};
use crate::qa_matmul::panel_cubes;

verus! {

/// The numbers of a buffer from `start` on.
pub open spec fn numbers_from<A: Real, S: Stored<A>>(
    f: spec_fn(A) -> real,
    data: Seq<S>,
    start: int,
) -> spec_fn(int) -> real {
    |i: int| f(data[start + i].widen_spec())
}

/// In exact arithmetic an output row is the inner product of a row of the left matrix of
/// its batch, which lies row by row, and the first column of the right one, which lies
/// column by column.
pub proof fn law_row_output<A: Real, L: Stored<A>, Rh: Stored<A>>(
    f: spec_fn(A) -> real,
    lhs: Operand<'_, L>,
    rhs: Operand<'_, Rh>,
    b: int,
    row: int,
)
    requires
        exact_ring(f),
        exact_decimals(f),
    ensures
        ({
            let x = numbers_from(
                f,
                lhs.data@,
                lhs.batches@[b] * (lhs.rows * lhs.cols) + row * lhs.cols,
            );
            let y = numbers_from(f, rhs.data@, rhs.batches@[b] * (rhs.rows * rhs.cols));
            f(gemv_at::<A, L, Rh>(lhs, rhs, b, row)) == total(
                |c: int| x(c) * y(c),
                lhs.cols as int,
            )
        }),
{
    let x = numbers_from(
        f,
        lhs.data@,
        lhs.batches@[b] * (lhs.rows * lhs.cols) + row * lhs.cols,
    );
    let y = numbers_from(f, rhs.data@, rhs.batches@[b] * (rhs.rows * rhs.cols));
    let g = |c: int| x(c) * y(c);
    let term = gemv_term::<A, L, Rh>(lhs, rhs, b, row);
    lemma_exact_sums(f, term, lhs.cols as int);
    lemma_sums(f, term, lhs.cols as int);
    assert forall|c: int| 0 <= c < lhs.cols implies #[trigger] read(f, term)(c) == g(c) by {
        let l = lhs.at(MatrixLayout::RowMajor, b, row, c).widen_spec();
        let r = rhs.at(MatrixLayout::ColMajor, b, c, 0).widen_spec();
        lemma_exact_pair(f, l, r);
        assert(0 * rhs.rows + c == c);
    }
    lemma_total_same(read(f, term), g, lhs.cols as int);
}

/// A launch keeps the length of the buffer, writes to the first column of every row that
/// the grid has a unit for, and leaves the first column of the others as it was. What it
/// writes reads, in exact arithmetic and before it is stored, as the inner product.
pub proof fn law_launch_output<A: Real, L: Stored<A>, Rh: Stored<A>, O: Stored<A>>(
    f: spec_fn(A) -> real,
    before: Seq<O>,
    lhs: Operand<'_, L>,
    rhs: Operand<'_, Rh>,
    m: int,
    n: int,
    batches: int,
    rows: int,
    b: int,
    row: int,
) -> (v: A)
    requires
        exact_ring(f),
        exact_decimals(f),
        0 < n,
        0 <= b < batches,
        0 <= row < m,
        batches * (m * n) <= before.len(),
    ensures
        ({
            let after = gemv_result::<A, L, Rh, O>(before, lhs, rhs, m, n, batches, rows);
            let x = numbers_from(
                f,
                lhs.data@,
                lhs.batches@[b] * (lhs.rows * lhs.cols) + row * lhs.cols,
            );
            let y = numbers_from(f, rhs.data@, rhs.batches@[b] * (rhs.rows * rhs.cols));
            let at = b * (m * n) + row * n;
            &&& after.len() == before.len()
            &&& f(v) == total(|c: int| x(c) * y(c), lhs.cols as int)
            &&& row < rows ==> after[at] == O::narrow_spec(v)
            &&& row >= rows ==> after[at] == before[at]
        }),
{
    let v = gemv_at::<A, L, Rh>(lhs, rhs, b, row);
    law_row_output::<A, L, Rh>(f, lhs, rhs, b, row);
    lemma_out_position(m, n, b, row);
    lemma_batches_within(m, n, b, batches);
    v
}

/// The units of a grid and the rows that they compute are as many, and one belongs to the
/// other: the rows of a grid are those of its units.
pub proof fn law_rows_are_those_of_units(count: CubeCount, dim: CubeDim, row: int) -> (at:
    UnitPosition)
    requires
        0 <= row < count.x * dim.x * (count.y * dim.y),
        count.x * dim.x <= u32::MAX,
        count.y * dim.y <= u32::MAX,
    ensures
        rows_of_grid(count, dim) == (count.x * dim.x) * (count.y * dim.y),
        batches_of_grid(count, dim) == count.z * dim.z,
        at.absolute_x < count.x * dim.x,
        at.absolute_y < count.y * dim.y,
        at.cube_count_x == count.x,
        at.cube_dim_x == dim.x,
        unit_row(at) == row,
        unit_row(at) == at.absolute_y * (count.x * dim.x) + at.absolute_x,
{
    let (width, height) = (count.x * dim.x, count.y * dim.y);
    assert(0 < width) by (nonlinear_arith)
        requires
            0 <= row < width * height,
            0 <= width,
            0 <= height,
    ;
    vstd::arithmetic::div_mod::lemma_fundamental_div_mod(row, width);
    let (y, x) = (row / width, row % width);
    assert(0 <= y < height) by (nonlinear_arith)
        requires
            0 <= row < width * height,
            row == width * y + x,
            0 <= x < width,
    ;
    let at = UnitPosition {
        absolute_x: x as u32,
        absolute_y: y as u32,
        absolute_z: 0,
        cube_count_x: count.x,
        cube_dim_x: dim.x,
    };
    let (cx, dx) = (count.x as int, dim.x as int);
    assert(y * cx * dx == y * width && width * y == y * width) by (nonlinear_arith)
        requires
            width == cx * dx,
    ;
    at
}

/// A run of entries along the layout stands in memory one entry behind the other.
pub proof fn law_runs_lie_in_a_row<'a, T: Copy>(
    view: MatrixView<'a, T>,
    row: int,
    col: int,
    count: int,
    i: int,
)
    requires
        0 <= i < count,
    ensures
        view.run(row, col, count).len() == count,
        view.layout is RowMajor ==> view.run(row, col, count)[i] == view.data@[view.offset + (row
            * view.cols + col) + i],
        view.layout is ColMajor ==> view.run(row, col, count)[i] == view.data@[view.offset + (col
            * view.rows + row) + i],
{
}

/// The number of batches is the product of all extents but the last two.
pub proof fn law_batches_are_a_product(shape: Seq<usize>, n: int)
    requires
        0 <= n <= shape.len(),
    ensures
        extent(shape, n) == shape.take(n).fold_left(1int, |product: int, size: usize| product
            * size),
    decreases n,
{
    let times = |product: int, size: usize| product * size;
    if n > 0 {
        law_batches_are_a_product(shape, n - 1);
        assert(shape.take(n).drop_last() =~= shape.take(n - 1));
        assert(shape.take(n).last() == shape[n - 1]);
    }
}

/// Whether a grid has one row of cubes per `threads` of `m` rows of output along y, at
/// least one and as many as 32 bits count, all batches along z, and one cube along x.
pub open spec fn lays_out(count: CubeCount, m: int, threads: int, batches: int) -> bool {
    &&& count.x == 1
    &&& count.z == batches
    &&& count.y >= 1
    &&& count.y < u32::MAX ==> count.y * threads >= m
    &&& count.y > 1 ==> (count.y - 1) * threads < m
}

/// What a plan makes of rows.
proof fn lemma_row_cubes(m: int, threads: int)
    requires
        0 <= m,
        0 <= threads,
    ensures
        ({
            let cubes = row_cubes(m, threads);
            let y = if cubes > 1 {
                cubes
            } else {
                1
            };
            &&& 1 <= y <= u32::MAX
            &&& y < u32::MAX ==> y * threads >= m
            &&& y > 1 ==> (y - 1) * threads < m
        }),
{
    if threads == 0 {
        assert(forall|y: int| #[trigger] (y * threads) == 0) by {
            assert forall|y: int| #[trigger] (y * threads) == 0 by {
                vstd::arithmetic::mul::lemma_mul_by_zero_is_zero(y);
            }
        }
    } else {
        let cubes = ceil_div(m, threads);
        let rest = (m + threads - 1) % threads;
        vstd::arithmetic::div_mod::lemma_fundamental_div_mod(m + threads - 1, threads);
        assert(threads * cubes == cubes * threads) by (nonlinear_arith);
        assert((cubes - 1) * threads == cubes * threads - threads) by (nonlinear_arith);
        assert(0 <= cubes) by (nonlinear_arith)
            requires
                0 <= m,
                0 < threads,
                m + threads - 1 == threads * cubes + rest,
                0 <= rest < threads,
        ;
        if cubes > u32::MAX {
            let y = u32::MAX as int;
            assert((y - 1) * threads <= (cubes - 1) * threads) by (nonlinear_arith)
                requires
                    y <= cubes,
                    0 < threads,
            ;
        } else if cubes == 0 {
            assert(1 * threads == threads);
            assert(0 * threads == 0);
            assert(m == 0);
        }
    }
}

/// What comes of planning an output shape: a grid that is too long along y or z is
/// refused, and any other is the plan.
pub proof fn law_shape_outcome(shape: Seq<usize>, threads: int, count: CubeCount)
    requires
        countable(shape),
        0 <= threads,
        lays_out(
            count,
            shape[shape.len() - 2] as int,
            threads,
            extent(shape, shape.len() - 2),
        ),
    ensures
        shape_plan(shape, threads).problem_count == count,
        count.y > 65535 || count.z > 65535 ==> shape_verdict(shape, threads) == Err::<
            CubeCountPlan,
            MatmulSetupError,
        >(MatmulSetupError::Unavailable(MatmulAvailabilityError::CubeCountTooBig(count))),
        count.y <= 65535 && count.z <= 65535 ==> shape_verdict(shape, threads) == Ok::<
            CubeCountPlan,
            MatmulSetupError,
        >(CubeCountPlan { problem_count: count }),
{
    let m = shape[shape.len() - 2] as int;
    lemma_row_cubes(m, threads);
    let cubes = row_cubes(m, threads);
    let y = if cubes > 1 {
        cubes
    } else {
        1
    };
    let other = count.y as int;
    assert(other == y) by (nonlinear_arith)
        requires
            0 <= threads,
            1 <= y <= u32::MAX,
            1 <= other <= u32::MAX,
            y < u32::MAX ==> y * threads >= m,
            y > 1 ==> (y - 1) * threads < m,
            other < u32::MAX ==> other * threads >= m,
            other > 1 ==> (other - 1) * threads < m,
    {
        if other < y {
            assert(other * threads <= (y - 1) * threads);
        }
        if y < other {
            assert(y * threads <= (other - 1) * threads);
        }
    }
    assert(0 <= extent(shape, shape.len() - 2) <= u32::MAX);
}

/// What comes of preparing a product: a vectorized output and loads that do not make up
/// the sums are refused, and so is a grid that is too long along y or z; all others are
/// launched, with eight planes to a cube.
pub proof fn law_prepared_outcome(
    problem: MatmulProblem,
    settings: DeviceSettings,
    info: ExpandInfo,
    load: int,
    count: CubeCount,
)
    requires
        countable(problem.out_shape@),
        load == settings.vector_sizes.lhs || load == settings.vector_sizes.rhs,
        load >= settings.vector_sizes.lhs,
        load >= settings.vector_sizes.rhs,
        lays_out(
            count,
            problem.out_shape@[problem.out_shape@.len() - 2] as int,
            settings.plane_dim * 8,
            extent(problem.out_shape@, problem.out_shape@.len() - 2),
        ),
    ensures
        ({
            let whole = exists|q: int| is_times(problem.k as int, q, load);
            let single = settings.vector_sizes.out <= 1;
            let room = count.y <= 65535 && count.z <= 65535;
            let outcome = prepared(problem, settings, info);
            &&& !single ==> outcome == Err::<LaunchInfo, MatmulSetupError>(
                MatmulSetupError::InvalidConfig(InvalidConfig::VectorizedOutput),
            )
            &&& single && !whole ==> outcome == Err::<LaunchInfo, MatmulSetupError>(
                MatmulSetupError::InvalidConfig(
                    InvalidConfig::UnevenLoad { k: problem.k, load: load as usize },
                ),
            )
            &&& single && whole && !room ==> outcome == Err::<LaunchInfo, MatmulSetupError>(
                MatmulSetupError::Unavailable(MatmulAvailabilityError::CubeCountTooBig(count)),
            )
            &&& single && whole && room ==> {
                &&& outcome is Ok
                &&& outcome->Ok_0.cube_count_plan.problem_count == count
                &&& outcome->Ok_0.cube_dim == (CubeDim { x: settings.plane_dim, y: 8, z: 1 })
                &&& outcome->Ok_0.blueprint == info.blueprint
                &&& outcome->Ok_0.dtypes == info.dtypes
                &&& outcome->Ok_0.address_type == problem.address_type
                &&& outcome->Ok_0.vector_sizes == settings.vector_sizes
            }
        }),
{
    lemma_multiple(problem.k as int, load);
    law_shape_outcome(problem.out_shape@, settings.plane_dim * 8, count);
}

/// A quotient that is rounded up is the smallest number that is enough.
pub proof fn law_rounded_up_is_enough(a: int, b: int)
    requires
        0 <= a,
        0 < b,
    ensures
        ceil_div(a, b) * b >= a,
        (ceil_div(a, b) - 1) * b < a,
{
    let q = ceil_div(a, b);
    vstd::arithmetic::div_mod::lemma_fundamental_div_mod(a + b - 1, b);
    assert(b * q == q * b) by (nonlinear_arith);
    assert((q - 1) * b == q * b - b) by (nonlinear_arith);
}

/// Cubes that fit along one axis are laid out along it; more fill as few rows of the
/// longest axis as hold them.
pub proof fn law_cubes_fill_rows(cubes: int)
    requires
        0 < cubes,
    ensures
        cubes <= 65535 ==> grid_x(cubes) == cubes && grid_y(cubes) == 1,
        cubes > 65535 ==> grid_x(cubes) == 65535 && 65535 * (grid_y(cubes) - 1) < cubes <= 65535
            * grid_y(cubes),
{
    let (x, y) = (grid_x(cubes), grid_y(cubes));
    vstd::arithmetic::div_mod::lemma_fundamental_div_mod(cubes + x - 1, x);
    assert(x * y == 65535 * y || x != 65535);
    if cubes <= 65535 {
        vstd::arithmetic::div_mod::lemma_fundamental_div_mod_converse(
            cubes + x - 1,
            x,
            1,
            x - 1,
        );
    }
}

/// A panel launch has a plane, of which a cube has eight, for every column of a single
/// row, and a cube for every column of more.
pub proof fn law_panel_has_cubes_for_columns(m: int, n: int)
    requires
        0 <= n,
    ensures
        m == 1 ==> 8 * (panel_cubes(m, n) - 1) < n <= 8 * panel_cubes(m, n),
        m != 1 ==> panel_cubes(m, n) == n,
{
}

} // verus!
