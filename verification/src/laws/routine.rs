//! The routine from plan to result: a prepared grid has exactly one unit for every
//! output row, and the launch writes every row's inner product.
use vstd::prelude::*;
use crate::arith::{lemma_sum_of_same, Real, Stored};
use crate::definition::{MatmulProblem, MatrixLayout};
use crate::exact::{lemma_sums, lemma_total_same, multiplies, read, sums, total};
use crate::grid::{ceil_div, grid_x, grid_y};
use crate::qa_gemv::config::unchecked;
use crate::qa_gemv::matmul::{
    gemv_at, gemv_result, gemv_term, lemma_batches_within, lemma_out_position, out_position,
    unit_row, Operand, UnitPosition,
};
use crate::qa_gemv::routine::{
    countable, extent, prepared, row_cubes, DeviceSettings, ExpandInfo,
};
use crate::qa_gemv::setup::{batches_of_grid, load_width, rows_of_grid, whole_loads};

verus! {

/// A prepared grid has a unit for every row of every batch, and less than a cube too
/// many for the rows where there are any.
pub proof fn law_prepared_grid_covers_the_output(
    problem: MatmulProblem,
    settings: DeviceSettings,
    info: ExpandInfo,
)
    requires
        settings.plane_dim > 0,
        countable(problem.out_shape@),
        prepared(problem, settings, info) is Ok,
    ensures
        ({
            let launch = prepared(problem, settings, info)->Ok_0;
            let shape = problem.out_shape@;
            let m = shape[shape.len() - 2] as int;
            let count = launch.cube_count_plan.problem_count;
            &&& m <= rows_of_grid(count, launch.cube_dim)
            &&& 0 < m ==> rows_of_grid(count, launch.cube_dim) < m + 8 * settings.plane_dim
            &&& batches_of_grid(count, launch.cube_dim) == extent(shape, shape.len() - 2)
        }),
{
    let shape = problem.out_shape@;
    let m = shape[shape.len() - 2] as int;
    let threads = settings.plane_dim * 8;
    let launch = prepared(problem, settings, info)->Ok_0;
    let y = launch.cube_count_plan.problem_count.y as int;
    let cubes = ceil_div(m, threads);
    vstd::arithmetic::div_mod::lemma_fundamental_div_mod(m + threads - 1, threads);
    let rest = (m + threads - 1) % threads;
    assert(m + threads - 1 == threads * cubes + rest && 0 <= rest < threads);
    assert(0 <= cubes && (m > 0 ==> 0 < cubes) && (m == 0 ==> cubes == 0)) by (nonlinear_arith)
        requires
            0 <= m,
            0 < threads,
            m + threads - 1 == threads * cubes + rest,
            0 <= rest < threads,
    ;
    assert(threads * cubes == cubes * threads) by (nonlinear_arith);
    lemma_extent_not_negative(shape, shape.len() - 2);
    assert(extent(shape, shape.len() - 2) <= u32::MAX);
    assert(row_cubes(m, threads) <= 65535);
    assert(row_cubes(m, threads) == cubes);
    let dim = settings.plane_dim as int;
    assert(1 * dim * (y * 8) == y * (dim * 8)) by (nonlinear_arith);
    if m == 0 {
        assert(0 <= y * threads) by (nonlinear_arith)
            requires
                0 <= y,
                0 < threads,
        ;
    }
}

/// The grid that cubes are laid out on has room for all of them, no row of it is without
/// one, and its rows are no longer than an axis.
pub proof fn law_planar_grid_is_tight(cubes: int)
    requires
        0 < cubes,
    ensures
        0 < grid_x(cubes) <= 65535,
        grid_x(cubes) * grid_y(cubes) >= cubes,
        grid_x(cubes) * (grid_y(cubes) - 1) < cubes,
{
    let x = grid_x(cubes);
    let y = grid_y(cubes);
    vstd::arithmetic::div_mod::lemma_fundamental_div_mod(cubes + x - 1, x);
    assert(x * (y - 1) == x * y - x) by (nonlinear_arith);
}

/// The routine reads and writes without bounds checks, whatever the layout.
pub proof fn law_layouts_are_unchecked(layout: MatrixLayout)
    ensures
        unchecked(layout).matrix_layout == layout,
        !unchecked(layout).check_row_bounds,
        !unchecked(layout).check_col_bounds,
{
}

/// Numbers of batches are not negative.
proof fn lemma_extent_not_negative(shape: Seq<usize>, n: int)
    ensures
        0 <= extent(shape, n),
    decreases n,
{
    if n > 0 {
        lemma_extent_not_negative(shape, n - 1);
        let (e, s) = (extent(shape, n - 1), shape[n - 1] as int);
        assert(0 <= e * s) by (nonlinear_arith)
            requires
                0 <= e,
                0 <= s,
        ;
    }
}

/// What the routine prepares, its kernel can load: the output is written entry by
/// entry, and the sums are a whole number of loads long.
pub proof fn law_prepared_loads_are_whole(
    problem: MatmulProblem,
    settings: DeviceSettings,
    info: ExpandInfo,
)
    requires
        prepared(problem, settings, info) is Ok,
    ensures
        settings.vector_sizes.out <= 1,
        whole_loads(problem.k as int, load_width(settings.vector_sizes)),
{
}

/// Units of one grid that share a row are one unit.
pub proof fn law_rows_have_one_unit(a: UnitPosition, b: UnitPosition)
    requires
        a.cube_count_x == b.cube_count_x,
        a.cube_dim_x == b.cube_dim_x,
        a.absolute_x < a.cube_count_x * a.cube_dim_x,
        b.absolute_x < b.cube_count_x * b.cube_dim_x,
        unit_row(a) == unit_row(b),
    ensures
        a.absolute_x == b.absolute_x,
        a.absolute_y == b.absolute_y,
{
    let (count, dim) = (a.cube_count_x as int, a.cube_dim_x as int);
    let width = count * dim;
    let (ax, ay) = (a.absolute_x as int, a.absolute_y as int);
    let (bx, by) = (b.absolute_x as int, b.absolute_y as int);
    assert(ay * count * dim == ay * width && by * count * dim == by * width) by (nonlinear_arith)
        requires
            width == count * dim,
    ;
    vstd::arithmetic::div_mod::lemma_fundamental_div_mod_converse(
        ay * width + ax,
        width,
        ay,
        ax,
    );
    vstd::arithmetic::div_mod::lemma_fundamental_div_mod_converse(
        by * width + bx,
        width,
        by,
        bx,
    );
}

/// After a launch, every row of every batch that the grid has a unit for holds its
/// product.
pub proof fn law_launch_writes_every_row<A: Real, L: Stored<A>, Rh: Stored<A>, O: Stored<A>>(
    before: Seq<O>,
    lhs: Operand<'_, L>,
    rhs: Operand<'_, Rh>,
    m: int,
    n: int,
    batches: int,
    rows: int,
    b: int,
    row: int,
)
    requires
        0 < n,
        0 <= b < batches,
        0 <= row < m,
        row < rows,
        batches * (m * n) <= before.len(),
    ensures
        gemv_result::<A, L, Rh, O>(before, lhs, rhs, m, n, batches, rows)[out_position(
            m,
            n,
            b,
            row,
        )] == O::narrow_spec(gemv_at::<A, L, Rh>(lhs, rhs, b, row)),
{
    lemma_out_position(m, n, b, row);
    lemma_batches_within(m, n, b, batches);
}

/// A launch leaves the other columns, and what lies behind the batches, as they were.
pub proof fn law_launch_keeps_the_rest<A: Real, L: Stored<A>, Rh: Stored<A>, O: Stored<A>>(
    before: Seq<O>,
    lhs: Operand<'_, L>,
    rhs: Operand<'_, Rh>,
    m: int,
    n: int,
    batches: int,
    rows: int,
    i: int,
)
    requires
        0 <= i < before.len(),
        i % n != 0 || i >= batches * (m * n),
    ensures
        gemv_result::<A, L, Rh, O>(before, lhs, rhs, m, n, batches, rows)[i] == before[i],
{
}

/// How many entries a read takes does not change the product.
pub proof fn law_vector_sizes_do_not_matter<A: Real, L: Stored<A>, Rh: Stored<A>>(
    lhs: Operand<'_, L>,
    rhs: Operand<'_, Rh>,
    lhs_size: usize,
    rhs_size: usize,
    b: int,
    row: int,
)
    ensures
        gemv_at::<A, L, Rh>(lhs, rhs, b, row) == gemv_at::<A, L, Rh>(
            (Operand { vector_size: lhs_size, ..lhs }),
            (Operand { vector_size: rhs_size, ..rhs }),
            b,
            row,
        ),
{
    let other_lhs = Operand { vector_size: lhs_size, ..lhs };
    let other_rhs = Operand { vector_size: rhs_size, ..rhs };
    lemma_sum_of_same(
        gemv_term::<A, L, Rh>(lhs, rhs, b, row),
        gemv_term::<A, L, Rh>(other_lhs, other_rhs, b, row),
        lhs.cols as int,
    );
}

/// Where no operation rounds, an output row is the inner product of its weight row and
/// the vector.
pub proof fn law_row_is_inner_product<A: Real, L: Stored<A>, Rh: Stored<A>>(
    f: spec_fn(A) -> real,
    lhs: Operand<'_, L>,
    rhs: Operand<'_, Rh>,
    b: int,
    row: int,
)
    requires
        sums(f, gemv_term::<A, L, Rh>(lhs, rhs, b, row), lhs.cols as int),
        forall|c: int|
            0 <= c < lhs.cols ==> multiplies(
                f,
                (#[trigger] lhs.at(MatrixLayout::RowMajor, b, row, c)).widen_spec(),
                rhs.at(MatrixLayout::ColMajor, b, c, 0).widen_spec(),
            ),
    ensures
        f(gemv_at::<A, L, Rh>(lhs, rhs, b, row)) == total(
            |c: int|
                f(lhs.at(MatrixLayout::RowMajor, b, row, c).widen_spec()) * f(
                    rhs.at(MatrixLayout::ColMajor, b, c, 0).widen_spec(),
                ),
            lhs.cols as int,
        ),
{
    let term = gemv_term::<A, L, Rh>(lhs, rhs, b, row);
    let g = |c: int|
        f(lhs.at(MatrixLayout::RowMajor, b, row, c).widen_spec()) * f(
            rhs.at(MatrixLayout::ColMajor, b, c, 0).widen_spec(),
        );
    lemma_sums(f, term, lhs.cols as int);
    assert forall|c: int| 0 <= c < lhs.cols implies #[trigger] read(f, term)(c) == g(c) by {
        let l = lhs.at(MatrixLayout::RowMajor, b, row, c);
        assert(multiplies(
            f,
            l.widen_spec(),
            rhs.at(MatrixLayout::ColMajor, b, c, 0).widen_spec(),
        ));
    }
    lemma_total_same(read(f, term), g, lhs.cols as int);
}

} // verus!
