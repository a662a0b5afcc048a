//! The routine as an autotuner sees it: from a problem and a device to a launch.
use vstd::prelude::*;
use crate::arith::{Real, Stored};
use crate::definition::{
    AddressType, CubeCountPlan, CubeDim, MatmulAvailabilityError, MatmulElems, MatmulProblem,
    MatmulSetupError, MatmulVectorSizes, NumStages,
};
use crate::grid::{ceil_div, div_ceil, CubeCount, MAX_GRID};
use crate::qa_gemv::matmul::{gemv_result, operands_fit, Operand};
use crate::qa_gemv::setup::{
    batches_of_grid, blueprint_verdict, rows_of_grid, QaGemvBatchMatmulFamily, QaGemvBlueprint,
};

verus! {

/// A product of a weight matrix and one vector: one unit of the device per output row.
pub struct QaGemvRoutine {}

/// How to choose a blueprint. There is nothing to choose.
#[derive(Clone, Copy, Debug)]
pub struct QaGemvStrategy {}

impl Default for QaGemvStrategy {
    fn default() -> (strategy: Self)
        ensures
            strategy == (QaGemvStrategy {  }),
    {
        QaGemvStrategy {  }
    }
}

impl From<()> for QaGemvStrategy {
    fn from(_value: ()) -> (strategy: Self) {
        QaGemvStrategy {  }
    }
}

impl vstd::std_specs::convert::FromSpecImpl<()> for QaGemvStrategy {
    open spec fn obeys_from_spec() -> bool {
        true
    }

    open spec fn from_spec(_value: ()) -> Self {
        QaGemvStrategy {  }
    }
}

impl QaGemvStrategy {
    /// The text of the strategy, which is empty.
    pub fn text(&self) -> (text: String)
        ensures
            text@ == Seq::<char>::empty(),
    {
        String::new()
    }
}

/// What a device settles.
#[derive(Clone, Copy, Debug, PartialEq, Eq, Structural)]
pub struct DeviceSettings {
    /// Units per plane.
    pub plane_dim: u32,
    /// Vector sizes of the operands.
    pub vector_sizes: MatmulVectorSizes,
}

/// A blueprint and the element types that it was made for.
#[derive(Clone, Copy, Debug, PartialEq, Eq, Structural)]
pub struct ExpandInfo {
    /// The blueprint.
    pub blueprint: QaGemvBlueprint,
    /// The element types.
    pub dtypes: MatmulElems,
}

/// All that a launch takes beside its operands.
#[derive(Clone, Copy, Debug, PartialEq, Eq, Structural)]
pub struct LaunchInfo {
    /// The blueprint.
    pub blueprint: QaGemvBlueprint,
    /// The element types.
    pub dtypes: MatmulElems,
    /// The cubes.
    pub cube_dim: CubeDim,
    /// The grid.
    pub cube_count_plan: CubeCountPlan,
    /// Width of addresses.
    pub address_type: AddressType,
    /// Vector sizes of the operands.
    pub vector_sizes: MatmulVectorSizes,
}

/// Cubes that `m` rows take, with as many rows per cube as it has units. Without
/// units no number of cubes is enough for a row.
pub open spec fn row_cubes(m: int, threads_per_cube: int) -> int {
    let cubes = if threads_per_cube == 0 {
        if m == 0 {
            0
        } else {
            u32::MAX as int
        }
    } else {
        ceil_div(m, threads_per_cube)
    };
    if cubes > u32::MAX {
        u32::MAX as int
    } else {
        cubes
    }
}

/// Product of the first `n` extents of a shape.
pub open spec fn extent(shape: Seq<usize>, n: int) -> int
    decreases n,
{
    if n <= 0 {
        1
    } else {
        extent(shape, n - 1) * shape[n - 1]
    }
}

/// Whether a shape has rows and columns, and numbers of batches that 32 bits hold.
pub open spec fn countable(shape: Seq<usize>) -> bool {
    &&& shape.len() >= 2
    &&& forall|n: int| 0 <= n <= shape.len() - 2 ==> #[trigger] extent(shape, n) <= u32::MAX
}

/// The plan of an output shape: all rows along y, batches along z.
pub open spec fn shape_plan(shape: Seq<usize>, threads_per_cube: int) -> CubeCountPlan {
    let rows = row_cubes(shape[shape.len() - 2] as int, threads_per_cube);
    CubeCountPlan {
        problem_count: CubeCount {
            x: 1,
            y: (if rows > 1 {
                rows
            } else {
                1
            }) as u32,
            z: extent(shape, shape.len() - 2) as u32,
        },
    }
}

/// The plan of an output shape, where a grid has room for it.
pub open spec fn shape_verdict(shape: Seq<usize>, threads_per_cube: int) -> Result<
    CubeCountPlan,
    MatmulSetupError,
> {
    let plan = shape_plan(shape, threads_per_cube);
    if plan.problem_count.y > MAX_GRID || plan.problem_count.z > MAX_GRID {
        Err(
            MatmulSetupError::Unavailable(
                MatmulAvailabilityError::CubeCountTooBig(plan.problem_count),
            ),
        )
    } else {
        Ok(plan)
    }
}

/// The launch of a problem, or what keeps it from being launched.
pub open spec fn prepared(
    problem: MatmulProblem,
    settings: DeviceSettings,
    info: ExpandInfo,
) -> Result<LaunchInfo, MatmulSetupError> {
    match blueprint_verdict(problem.k, settings.vector_sizes) {
        Err(error) => Err(error),
        Ok(_) => match shape_verdict(problem.out_shape@, settings.plane_dim * 8) {
            Err(error) => Err(error),
            Ok(plan) => Ok(
                LaunchInfo {
                    blueprint: info.blueprint,
                    dtypes: info.dtypes,
                    cube_dim: CubeDim { x: settings.plane_dim, y: 8, z: 1 },
                    cube_count_plan: plan,
                    address_type: problem.address_type,
                    vector_sizes: settings.vector_sizes,
                },
            ),
        },
    }
}

impl QaGemvRoutine {
    /// Computes the product on the units of a grid.
    pub fn launch<A: Real, L: Stored<A>, Rh: Stored<A>, O: Stored<A>>(
        cube_dim: CubeDim,
        cube_count: CubeCount,
        lhs: &Operand<'_, L>,
        rhs: &Operand<'_, Rh>,
        out: &mut Vec<O>,
        m: usize,
        n: usize,
        blueprint: &QaGemvBlueprint,
        vector_sizes: &MatmulVectorSizes,
    ) -> (r: Result<(), MatmulSetupError>)
        requires
            cube_dim.x > 0,
            rows_of_grid(cube_count, cube_dim) <= u32::MAX,
            batches_of_grid(cube_count, cube_dim) <= u32::MAX,
            lhs.vector_size == vector_sizes.lhs,
            rhs.vector_size == vector_sizes.rhs,
            n > 0,
            operands_fit(*lhs, *rhs, batches_of_grid(cube_count, cube_dim), m as int),
            batches_of_grid(cube_count, cube_dim) * (m * n) <= old(out)@.len(),
        ensures
            r == Ok::<(), MatmulSetupError>(()),
            final(out)@ == gemv_result::<A, L, Rh, O>(
                old(out)@,
                *lhs,
                *rhs,
                m as int,
                n as int,
                batches_of_grid(cube_count, cube_dim),
                rows_of_grid(cube_count, cube_dim),
            ),
    {
        QaGemvBatchMatmulFamily::launch_unchecked::<A, L, Rh, O>(
            cube_dim,
            cube_count,
            lhs,
            rhs,
            out,
            m,
            n,
            blueprint,
            vector_sizes,
        )
    }

    /// Checks that the family can compute the product.
    pub fn validate_blueprint(
        blueprint: &QaGemvBlueprint,
        problem: &MatmulProblem,
        dtypes: &MatmulElems,
        vector_sizes: &MatmulVectorSizes,
    ) -> (verdict: Result<(), MatmulSetupError>)
        ensures
            verdict == blueprint_verdict(problem.k, *vector_sizes),
    {
        QaGemvBatchMatmulFamily::validate_blueprint(blueprint, problem, dtypes, vector_sizes)
    }

    /// A single stage for either operand.
    pub fn num_stages() -> (stages: NumStages)
        ensures
            stages.lhs == 1,
            stages.rhs == 1,
    {
        QaGemvBatchMatmulFamily::num_stages()
    }

    /// The blueprint for operands of the given element types, whatever the device and
    /// the strategy.
    pub fn expand_blueprint(
        dtypes: &MatmulElems,
        _device_settings: &DeviceSettings,
        _strategy: &QaGemvStrategy,
    ) -> (info: Result<ExpandInfo, MatmulSetupError>)
        ensures
            info == Ok::<ExpandInfo, MatmulSetupError>(
                ExpandInfo { blueprint: QaGemvBlueprint { dtypes: *dtypes }, dtypes: *dtypes },
            ),
    {
        let blueprint: QaGemvBlueprint = QaGemvBlueprint { dtypes: *dtypes };
        Ok(ExpandInfo { blueprint, dtypes: *dtypes })
    }

    /// Prepares the launch of a problem on a device.
    pub fn prepare(
        problem: &MatmulProblem,
        device_settings: &DeviceSettings,
        expand_info: ExpandInfo,
    ) -> (launch: Result<LaunchInfo, MatmulSetupError>)
        requires
            blueprint_verdict(problem.k, device_settings.vector_sizes) is Ok ==> countable(
                problem.out_shape@,
            ) && device_settings.plane_dim * 8 <= u32::MAX,
        ensures
            launch == prepared(*problem, *device_settings, expand_info),
    {
        let ExpandInfo { blueprint, dtypes } = expand_info;
        let vector_sizes: MatmulVectorSizes = device_settings.vector_sizes;
        if let Err(error) = Self::validate_blueprint(&blueprint, problem, &dtypes, &vector_sizes) {
            return Err(error);
        }
        let cube_dim: CubeDim = match QaGemvBatchMatmulFamily::cubedim_resource(
            &blueprint,
            &dtypes,
            &vector_sizes,
        ) {
            Err(error) => {
                return Err(error);
            },
            Ok(resource) => resource.to_cube_dim(device_settings.plane_dim),
        };
        match qa_gemv_cube_count(problem.out_shape.as_slice(), cube_dim.x * cube_dim.y) {
            Err(error) => Err(error),
            Ok(cube_count_plan) => Ok(
                LaunchInfo {
                    blueprint,
                    dtypes,
                    cube_dim,
                    cube_count_plan,
                    address_type: problem.address_type,
                    vector_sizes,
                },
            ),
        }
    }
}

/// One unit per output row: the kernel flattens the x and y axes of the grid into the
/// row, so the rows take `ceil(m / threads_per_cube)` cubes along y, and x stays a
/// single cube. The batches lie along z.
pub fn qa_gemv_cube_count(output_shape: &[usize], threads_per_cube: u32) -> (plan: Result<
    CubeCountPlan,
    MatmulSetupError,
>)
    requires
        countable(output_shape@),
    ensures
        plan == shape_verdict(output_shape@, threads_per_cube as int),
{
    let ndims: usize = output_shape.len();
    let m: usize = output_shape[ndims - 2];
    let rows: u32 = if threads_per_cube == 0 {
        if m == 0 {
            0
        } else {
            u32::MAX
        }
    } else {
        let cubes: usize = div_ceil(m, threads_per_cube as usize);
        if cubes > u32::MAX as usize {
            u32::MAX
        } else {
            cubes as u32
        }
    };
    let mut batch_cubes: u32 = 1;
    let mut i: usize = 0;
    while i < ndims - 2
        invariant
            ndims == output_shape@.len(),
            countable(output_shape@),
            i <= ndims - 2,
            batch_cubes == extent(output_shape@, i as int),
        decreases ndims - i,
    {
        proof {
            let e = output_shape@[i as int] as int;
            let c = batch_cubes as int;
            assert(extent(output_shape@, i + 1) == c * e);
            assert(extent(output_shape@, i + 1) <= u32::MAX);
            assert(c > 0 ==> e <= c * e) by (nonlinear_arith)
                requires
                    0 <= e,
            ;
            assert(c == 0 ==> c * e == 0) by (nonlinear_arith);
        }
        if batch_cubes > 0 {
            batch_cubes = batch_cubes * output_shape[i] as u32;
        }
        i += 1;
    }
    let count: CubeCount = CubeCount {
        x: 1,
        y: if rows > 1 {
            rows
        } else {
            1
        },
        z: batch_cubes,
    };
    let cube_count_plan: CubeCountPlan = CubeCountPlan::new_from_problem(count);
    if rows > MAX_GRID || batch_cubes > MAX_GRID {
        return Err(
            MatmulSetupError::Unavailable(
                MatmulAvailabilityError::CubeCountTooBig(cube_count_plan.resolve()),
            ),
        );
    }
    Ok(cube_count_plan)
}

} // verus!
