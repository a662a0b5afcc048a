//! The vocabulary of a matrix product: operand layouts, element types, sizes, and
//! what can keep a product from being set up.
use vstd::prelude::*;
use crate::grid::CubeCount;
use crate::scheme::ElemType;

verus! {

/// Order of the entries of a matrix in memory.
#[derive(Clone, Copy, Debug, Hash, PartialEq, Eq, Structural)]
pub enum MatrixLayout {
    /// Rows one after another.
    RowMajor,
    /// Columns one after another.
    ColMajor,
}

/// How an operand is read from global memory.
#[derive(Clone, Copy, Debug, Hash, PartialEq, Eq, Structural)]
pub struct GlobalLayoutConfig {
    /// Order of its entries.
    pub matrix_layout: MatrixLayout,
    /// Whether reads beyond the last row are caught.
    pub check_row_bounds: bool,
    /// Whether reads beyond the last column are caught.
    pub check_col_bounds: bool,
}

/// Number of entries that one read or write of an operand takes.
#[derive(Clone, Copy, Debug, Hash, PartialEq, Eq, Structural)]
pub struct MatmulVectorSizes {
    /// Of the left operand.
    pub lhs: usize,
    /// Of the right operand.
    pub rhs: usize,
    /// Of the output.
    pub out: usize,
}

/// Element types of the operands, in memory and in registers.
#[derive(Clone, Copy, Debug, Hash, PartialEq, Eq, Structural)]
pub struct MatmulElems {
    /// Left operand in memory.
    pub lhs_global: ElemType,
    /// Right operand in memory.
    pub rhs_global: ElemType,
    /// Output in memory.
    pub acc_global: ElemType,
    /// Left operand in registers.
    pub lhs_register: ElemType,
    /// Right operand in registers.
    pub rhs_register: ElemType,
    /// Accumulator in registers.
    pub acc_register: ElemType,
}

/// Width of the addresses of a launch.
#[derive(Clone, Copy, Debug, Hash, PartialEq, Eq, Structural)]
pub enum AddressType {
    /// 32-bit addresses.
    U32,
    /// 64-bit addresses.
    U64,
}

/// A matrix product to be set up.
#[derive(Debug)]
pub struct MatmulProblem {
    /// Length of the sums.
    pub k: usize,
    /// Shape of the output; the last two entries are rows and columns, those before
    /// them batches.
    pub out_shape: Vec<usize>,
    /// Width of addresses.
    pub address_type: AddressType,
}

/// Why a kernel cannot be configured for a product.
#[derive(Clone, Copy, Debug, PartialEq, Eq, Structural)]
pub enum InvalidConfig {
    /// The output is written more than one entry at a time.
    VectorizedOutput,
    /// The sums are not a whole number of loads long.
    UnevenLoad {
        /// Length of the sums.
        k: usize,
        /// Entries per load.
        load: usize,
    },
}

/// Why a kernel is not available for a product.
#[derive(Clone, Copy, Debug, PartialEq, Eq, Structural)]
pub enum MatmulAvailabilityError {
    /// The launch would take this many cubes, more than a grid has.
    CubeCountTooBig(CubeCount),
}

/// Why a product cannot be set up.
#[derive(Clone, Copy, Debug, PartialEq, Eq, Structural)]
pub enum MatmulSetupError {
    /// The configuration is not valid.
    InvalidConfig(InvalidConfig),
    /// The kernel is not available.
    Unavailable(MatmulAvailabilityError),
}

/// Number of units along each axis of a cube.
#[derive(Clone, Copy, Debug, PartialEq, Eq, Structural)]
pub struct CubeDim {
    /// Along x.
    pub x: u32,
    /// Along y.
    pub y: u32,
    /// Along z.
    pub z: u32,
}

/// What a kernel asks of a cube.
#[derive(Clone, Copy, Debug, PartialEq, Eq, Structural)]
pub enum CubeDimResource {
    /// A number of planes.
    Planes(u32),
}

impl CubeDimResource {
    /// The cube that has the resources, for planes of `plane_dim` units.
    pub fn to_cube_dim(self, plane_dim: u32) -> (dim: CubeDim)
        ensures
            dim == (CubeDim { x: plane_dim, y: self->Planes_0, z: 1 }),
    {
        match self {
            CubeDimResource::Planes(planes) => CubeDim { x: plane_dim, y: planes, z: 1 },
        }
    }
}

/// A grid that follows the problem, cube for cube.
#[derive(Clone, Copy, Debug, PartialEq, Eq, Structural)]
pub struct CubeCountPlan {
    /// Cubes that the problem takes.
    pub problem_count: CubeCount,
}

impl CubeCountPlan {
    /// The plan of a problem.
    pub fn new_from_problem(problem_count: CubeCount) -> (plan: Self)
        ensures
            plan.problem_count == problem_count,
    {
        CubeCountPlan { problem_count }
    }

    /// The grid of the plan.
    pub fn resolve(&self) -> (count: CubeCount)
        ensures
            count == self.problem_count,
    {
        self.problem_count
    }
}

/// Number of stages that the operands go through.
#[derive(Clone, Copy, Debug, PartialEq, Eq, Structural)]
pub struct NumStages {
    /// Of the left operand.
    pub lhs: u32,
    /// Of the right operand.
    pub rhs: u32,
}

} // verus!
