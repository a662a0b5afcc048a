//! Setting the routine up: what it needs of a cube, and which products it takes.
use vstd::prelude::*;
use crate::arith::{Real, Stored};
use crate::definition::{
    CubeDim, CubeDimResource, GlobalLayoutConfig, InvalidConfig, MatmulElems, MatmulProblem,
    MatmulSetupError, MatmulVectorSizes, MatrixLayout, NumStages,
};
use crate::grid::CubeCount;
use crate::qa_gemv::config::{unchecked, QaGemvConfig};
use crate::qa_gemv::matmul::{
    batch_of, gemv_progress, gemv_result, lemma_batches_within, lemma_progress, matmul_entry,
    operands_fit, row_of, unit_row, Operand, UnitPosition,
};

verus! {

/// Number of planes of a cube.
pub const QA_GEMV_NUM_PLANES: u32 = 8;

/// The family of kernels of the routine.
pub struct QaGemvBatchMatmulFamily {}

/// What distinguishes one kernel of the family from another.
#[derive(Debug, Clone, Copy, PartialEq, Eq, Hash, Structural)]
pub struct QaGemvBlueprint {
    /// Element types of the operands.
    pub dtypes: MatmulElems,
}

impl QaGemvBlueprint {
    /// Layout of the left operand.
    pub fn lhs_global_layout_config(&self) -> (config: GlobalLayoutConfig)
        ensures
            config == unchecked(MatrixLayout::RowMajor),
    {
        GlobalLayoutConfig {
            matrix_layout: MatrixLayout::RowMajor,
            check_row_bounds: false,
            check_col_bounds: false,
        }
    }

    /// Layout of the right operand.
    pub fn rhs_global_layout_config(&self) -> (config: GlobalLayoutConfig)
        ensures
            config == unchecked(MatrixLayout::ColMajor),
    {
        GlobalLayoutConfig {
            matrix_layout: MatrixLayout::ColMajor,
            check_row_bounds: false,
            check_col_bounds: false,
        }
    }

    /// Layout of the output.
    pub fn out_global_layout_config(&self) -> (config: GlobalLayoutConfig)
        ensures
            config == unchecked(MatrixLayout::RowMajor),
    {
        GlobalLayoutConfig {
            matrix_layout: MatrixLayout::RowMajor,
            check_row_bounds: false,
            check_col_bounds: false,
        }
    }
}

/// Entries that one load of the kernel takes: the larger of the two operands'
/// vectors.
pub open spec fn load_width(vector_sizes: MatmulVectorSizes) -> int {
    if vector_sizes.lhs >= vector_sizes.rhs {
        vector_sizes.lhs as int
    } else {
        vector_sizes.rhs as int
    }
}

/// Whether a sum of `k` terms is a whole number of loads of `load` entries long. An
/// empty load makes up an empty sum alone.
pub open spec fn whole_loads(k: int, load: int) -> bool {
    if load == 0 {
        k == 0
    } else {
        k % load == 0
    }
}

/// The verdict on a product: the kernel writes one entry per output row, and it does
/// not check the bounds of its loads.
pub open spec fn blueprint_verdict(k: usize, vector_sizes: MatmulVectorSizes) -> Result<
    (),
    MatmulSetupError,
> {
    if vector_sizes.out > 1 {
        Err(MatmulSetupError::InvalidConfig(InvalidConfig::VectorizedOutput))
    } else if !whole_loads(k as int, load_width(vector_sizes)) {
        Err(
            MatmulSetupError::InvalidConfig(
                InvalidConfig::UnevenLoad { k, load: load_width(vector_sizes) as usize },
            ),
        )
    } else {
        Ok(())
    }
}

/// Output rows that a grid has units for.
pub open spec fn rows_of_grid(count: CubeCount, dim: CubeDim) -> int {
    count.x * dim.x * (count.y * dim.y)
}

/// Batches that a grid has units for.
pub open spec fn batches_of_grid(count: CubeCount, dim: CubeDim) -> int {
    count.z * dim.z
}

/// Neither of two positive factors passes their product.
proof fn lemma_factors(a: int, b: int)
    ensures
        0 < a && 0 < b ==> a <= a * b && b <= a * b,
{
    if 0 < a && 0 < b {
        assert(a <= a * b && b <= a * b) by (nonlinear_arith)
            requires
                0 < a,
                0 < b,
        ;
    }
}

/// The row of a unit is one of the grid's.
proof fn lemma_unit_row(at: UnitPosition, width: int, height: int)
    requires
        width == at.cube_count_x * at.cube_dim_x,
        at.absolute_x < width,
        at.absolute_y < height,
    ensures
        unit_row(at) == at.absolute_y * width + at.absolute_x,
        0 <= unit_row(at) < width * height,
{
    let x = at.absolute_x as int;
    let y = at.absolute_y as int;
    let count = at.cube_count_x as int;
    let dim = at.cube_dim_x as int;
    assert(y * count * dim == y * width) by (nonlinear_arith)
        requires
            width == count * dim,
    ;
    assert(0 <= y * width + x < width * height) by (nonlinear_arith)
        requires
            0 <= x < width,
            0 <= y < height,
    ;
}

/// A grid without units leaves the buffer as it is.
proof fn lemma_nothing_done<A: Real, L: Stored<A>, Rh: Stored<A>, O: Stored<A>>(
    before: Seq<O>,
    lhs: Operand<'_, L>,
    rhs: Operand<'_, Rh>,
    m: int,
    n: int,
    batches: int,
)
    requires
        0 <= m,
        0 < n,
        0 <= batches,
    ensures
        before == gemv_result::<A, L, Rh, O>(before, lhs, rhs, m, n, batches, 0),
{
    assert forall|i: int| 0 <= i < before.len() implies before[i] == #[trigger] gemv_result::<
        A,
        L,
        Rh,
        O,
    >(before, lhs, rhs, m, n, batches, 0)[i] by {
        if i < batches * (m * n) {
            lemma_row_of(m, n, batches, i);
        }
    }
    assert(before =~= gemv_result::<A, L, Rh, O>(before, lhs, rhs, m, n, batches, 0));
}

/// Entries of the matrices have rows and batches that are not negative.
proof fn lemma_row_of(m: int, n: int, batches: int, i: int)
    requires
        0 <= m,
        0 < n,
        0 <= batches,
        0 <= i < batches * (m * n),
    ensures
        0 < m,
        0 <= row_of(m, n, i),
        0 <= batch_of(m, n, i) < batches,
{
    assert(0 < m) by (nonlinear_arith)
        requires
            0 <= m,
            0 <= i < batches * (m * n),
    ;
    let q = i / n;
    vstd::arithmetic::div_mod::lemma_div_pos_is_pos(i, n);
    vstd::arithmetic::div_mod::lemma_div_pos_is_pos(q, m);
    vstd::arithmetic::div_mod::lemma_fundamental_div_mod(i, n);
    vstd::arithmetic::div_mod::lemma_fundamental_div_mod(q, m);
    let b = q / m;
    assert(b < batches) by (nonlinear_arith)
        requires
            0 < m,
            0 < n,
            i < batches * (m * n),
            i >= n * q,
            q >= m * b,
    {
        assert(n * q >= n * (m * b));
        assert(n * (m * b) == b * (m * n));
        assert(b >= batches ==> b * (m * n) >= batches * (m * n));
    }
}

/// Before the first unit nothing is done.
proof fn lemma_start<A: Real, L: Stored<A>, Rh: Stored<A>, O: Stored<A>>(
    before: Seq<O>,
    lhs: Operand<'_, L>,
    rhs: Operand<'_, Rh>,
    m: int,
    n: int,
    batches: int,
    rows: int,
)
    requires
        0 <= m,
        0 < n,
        0 <= batches,
    ensures
        before == gemv_progress::<A, L, Rh, O>(before, lhs, rhs, m, n, batches, rows, 0, 0),
{
    let start = gemv_progress::<A, L, Rh, O>(before, lhs, rhs, m, n, batches, rows, 0, 0);
    assert forall|i: int| 0 <= i < before.len() implies before[i] == #[trigger] start[i] by {
        if i < batches * (m * n) {
            lemma_row_of(m, n, batches, i);
        }
    }
    assert(before =~= start);
}

/// After the last row of a batch the batch is done.
proof fn lemma_batch_done<A: Real, L: Stored<A>, Rh: Stored<A>, O: Stored<A>>(
    before: Seq<O>,
    lhs: Operand<'_, L>,
    rhs: Operand<'_, Rh>,
    m: int,
    n: int,
    batches: int,
    rows: int,
    b: int,
)
    requires
        0 <= m,
        0 < n,
        0 <= b < batches,
    ensures
        gemv_progress::<A, L, Rh, O>(before, lhs, rhs, m, n, batches, rows, b, rows)
            == gemv_progress::<A, L, Rh, O>(before, lhs, rhs, m, n, batches, rows, b + 1, 0),
{
    let last = gemv_progress::<A, L, Rh, O>(before, lhs, rhs, m, n, batches, rows, b, rows);
    let next = gemv_progress::<A, L, Rh, O>(before, lhs, rhs, m, n, batches, rows, b + 1, 0);
    assert forall|i: int| 0 <= i < before.len() implies #[trigger] last[i] == next[i] by {
        if i < batches * (m * n) {
            lemma_row_of(m, n, batches, i);
        }
    }
    assert(last =~= next);
}

/// After the last batch everything is done.
proof fn lemma_end<A: Real, L: Stored<A>, Rh: Stored<A>, O: Stored<A>>(
    before: Seq<O>,
    lhs: Operand<'_, L>,
    rhs: Operand<'_, Rh>,
    m: int,
    n: int,
    batches: int,
    rows: int,
)
    requires
        0 <= m,
        0 < n,
        0 <= batches,
    ensures
        gemv_progress::<A, L, Rh, O>(before, lhs, rhs, m, n, batches, rows, batches, 0)
            == gemv_result::<A, L, Rh, O>(before, lhs, rhs, m, n, batches, rows),
{
    let end = gemv_progress::<A, L, Rh, O>(before, lhs, rhs, m, n, batches, rows, batches, 0);
    let done = gemv_result::<A, L, Rh, O>(before, lhs, rhs, m, n, batches, rows);
    assert forall|i: int| 0 <= i < before.len() implies #[trigger] end[i] == done[i] by {
        if i < batches * (m * n) {
            lemma_row_of(m, n, batches, i);
        }
    }
    assert(end =~= done);
}

impl QaGemvBatchMatmulFamily {
    /// The configuration of a kernel; there is but one.
    pub fn expand_config(
        _blueprint: &QaGemvBlueprint,
        _dtypes: &MatmulElems,
        _vector_sizes: &MatmulVectorSizes,
    ) -> (config: Result<QaGemvConfig, MatmulSetupError>)
        ensures
            config == Ok::<QaGemvConfig, MatmulSetupError>(QaGemvConfig {  }),
    {
        Ok(QaGemvConfig {  })
    }

    /// A single stage for either operand.
    pub fn num_stages() -> (stages: NumStages)
        ensures
            stages.lhs == 1,
            stages.rhs == 1,
    {
        NumStages { lhs: 1, rhs: 1 }
    }

    /// Runs the kernel on every unit of a grid. The x and y axes of the grid run over
    /// the output rows, the z axis over the batches.
    pub fn launch_unchecked<A: Real, L: Stored<A>, Rh: Stored<A>, O: Stored<A>>(
        cube_dim: CubeDim,
        cube_count: CubeCount,
        lhs: &Operand<'_, L>,
        rhs: &Operand<'_, Rh>,
        out: &mut Vec<O>,
        m: usize,
        n: usize,
        blueprint: &QaGemvBlueprint,
        vector_sizes: &MatmulVectorSizes,
    ) -> (r: Result<(), MatmulSetupError>)
        requires
            cube_dim.x > 0,
            rows_of_grid(cube_count, cube_dim) <= u32::MAX,
            batches_of_grid(cube_count, cube_dim) <= u32::MAX,
            lhs.vector_size == vector_sizes.lhs,
            rhs.vector_size == vector_sizes.rhs,
            n > 0,
            operands_fit(*lhs, *rhs, batches_of_grid(cube_count, cube_dim), m as int),
            batches_of_grid(cube_count, cube_dim) * (m * n) <= old(out)@.len(),
        ensures
            r == Ok::<(), MatmulSetupError>(()),
            final(out)@ == gemv_result::<A, L, Rh, O>(
                old(out)@,
                *lhs,
                *rhs,
                m as int,
                n as int,
                batches_of_grid(cube_count, cube_dim),
                rows_of_grid(cube_count, cube_dim),
            ),
    {
        let ghost before = out@;
        let ghost rows = rows_of_grid(cube_count, cube_dim);
        let ghost batches = batches_of_grid(cube_count, cube_dim);
        let ghost wide = cube_count.x * cube_dim.x;
        let ghost high = cube_count.y * cube_dim.y;
        if cube_count.x == 0 || cube_count.y == 0 || cube_dim.y == 0 {
            proof {
                assert(rows == 0) by (nonlinear_arith)
                    requires
                        cube_count.x == 0 || cube_count.y == 0 || cube_dim.y == 0,
                        rows == cube_count.x * cube_dim.x * (cube_count.y * cube_dim.y),
                ;
                lemma_nothing_done::<A, L, Rh, O>(before, *lhs, *rhs, m as int, n as int, batches);
            }
            return Ok(());
        }
        proof {
            lemma_factors(wide, high);
            assert(wide > 0 && high > 0) by (nonlinear_arith)
                requires
                    wide == cube_count.x * cube_dim.x,
                    high == cube_count.y * cube_dim.y,
                    cube_count.x > 0,
                    cube_dim.x > 0,
                    cube_count.y > 0,
                    cube_dim.y > 0,
            ;
            lemma_factors(wide, high);
        }
        let width: u32 = cube_count.x * cube_dim.x;
        let height: u32 = cube_count.y * cube_dim.y;
        let depth: u32 = cube_count.z * cube_dim.z;
        let mut z: u32 = 0;
        proof {
            lemma_start::<A, L, Rh, O>(before, *lhs, *rhs, m as int, n as int, batches, rows);
        }
        while z < depth
            invariant
                z <= depth,
                depth == batches,
                width == cube_count.x * cube_dim.x,
                0 < width,
                0 < height,
                cube_dim.x > 0,
                rows == width * height,
                rows <= u32::MAX,
                n > 0,
                operands_fit(*lhs, *rhs, batches, m as int),
                batches * (m * n) <= before.len(),
                out@ == gemv_progress::<A, L, Rh, O>(
                    before,
                    *lhs,
                    *rhs,
                    m as int,
                    n as int,
                    batches,
                    rows,
                    z as int,
                    0,
                ),
            decreases depth - z,
        {
            let mut y: u32 = 0;
            while y < height
                invariant
                    z < depth,
                    y <= height,
                    depth == batches,
                    width == cube_count.x * cube_dim.x,
                    0 < width,
                    cube_dim.x > 0,
                    rows == width * height,
                    rows <= u32::MAX,
                    n > 0,
                    operands_fit(*lhs, *rhs, batches, m as int),
                    batches * (m * n) <= before.len(),
                    out@ == gemv_progress::<A, L, Rh, O>(
                        before,
                        *lhs,
                        *rhs,
                        m as int,
                        n as int,
                        batches,
                        rows,
                        z as int,
                        y * width,
                    ),
                decreases height - y,
            {
                let mut x: u32 = 0;
                while x < width
                    invariant
                        z < depth,
                        y < height,
                        x <= width,
                        depth == batches,
                        width == cube_count.x * cube_dim.x,
                        cube_dim.x > 0,
                        rows == width * height,
                        rows <= u32::MAX,
                        n > 0,
                        operands_fit(*lhs, *rhs, batches, m as int),
                        batches * (m * n) <= before.len(),
                        out@ == gemv_progress::<A, L, Rh, O>(
                            before,
                            *lhs,
                            *rhs,
                            m as int,
                            n as int,
                            batches,
                            rows,
                            z as int,
                            y * width + x,
                        ),
                    decreases width - x,
                {
                    let at: UnitPosition = UnitPosition {
                        absolute_x: x,
                        absolute_y: y,
                        absolute_z: z,
                        cube_count_x: cube_count.x,
                        cube_dim_x: cube_dim.x,
                    };
                    proof {
                        lemma_unit_row(at, width as int, height as int);
                        lemma_batches_within(m as int, n as int, z as int, batches);
                    }
                    let entered: Result<(), MatmulSetupError> = matmul_entry::<A, L, Rh, O>(
                        at,
                        lhs,
                        rhs,
                        out,
                        m,
                        n,
                        blueprint,
                        vector_sizes.out,
                    );
                    if let Err(error) = entered {
                        return Err(error);
                    }
                    proof {
                        lemma_progress::<A, L, Rh, O>(
                            before,
                            out@,
                            *lhs,
                            *rhs,
                            m as int,
                            n as int,
                            batches,
                            rows,
                            z as int,
                            y * width + x,
                        );
                    }
                    x += 1;
                }
                proof {
                    assert(y * width + width == (y + 1) * width) by (nonlinear_arith);
                }
                y += 1;
            }
            proof {
                assert(height * width == rows) by (nonlinear_arith)
                    requires
                        rows == width * height,
                ;
                lemma_batch_done::<A, L, Rh, O>(
                    before,
                    *lhs,
                    *rhs,
                    m as int,
                    n as int,
                    batches,
                    rows,
                    z as int,
                );
            }
            z += 1;
        }
        proof {
            lemma_end::<A, L, Rh, O>(before, *lhs, *rhs, m as int, n as int, batches, rows);
        }
        Ok(())
    }

    /// A cube takes eight planes.
    pub fn cubedim_resource(
        _blueprint: &QaGemvBlueprint,
        _dtypes: &MatmulElems,
        _vector_sizes: &MatmulVectorSizes,
    ) -> (resource: Result<CubeDimResource, MatmulSetupError>)
        ensures
            resource == Ok::<CubeDimResource, MatmulSetupError>(CubeDimResource::Planes(8)),
    {
        Ok(CubeDimResource::Planes(QA_GEMV_NUM_PLANES))
    }

    /// Checks that the kernel can compute the product.
    pub fn validate_blueprint(
        _blueprint: &QaGemvBlueprint,
        problem: &MatmulProblem,
        _dtypes: &MatmulElems,
        vector_sizes: &MatmulVectorSizes,
    ) -> (verdict: Result<(), MatmulSetupError>)
        ensures
            verdict == blueprint_verdict(problem.k, *vector_sizes),
    {
        if vector_sizes.out > 1 {
            return Err(MatmulSetupError::InvalidConfig(InvalidConfig::VectorizedOutput));
        }
        let load: usize = if vector_sizes.lhs >= vector_sizes.rhs {
            vector_sizes.lhs
        } else {
            vector_sizes.rhs
        };
        if !problem.k.is_multiple_of(load) {
            return Err(
                MatmulSetupError::InvalidConfig(InvalidConfig::UnevenLoad { k: problem.k, load }),
            );
        }
        Ok(())
    }
}

} // verus!
