//! Operand layouts of the routine.
use vstd::prelude::*;
use crate::definition::{GlobalLayoutConfig, MatrixLayout};

verus! {

/// An operand that is read without bounds checks.
pub open spec fn unchecked(matrix_layout: MatrixLayout) -> GlobalLayoutConfig {
    GlobalLayoutConfig { matrix_layout, check_row_bounds: false, check_col_bounds: false }
}

/// Configuration of the routine: the left operand, the weights, is row-major
/// `[m, k]`; the right one, the activations, column-major `[k, n]`; the output
/// row-major `[m, n]`.
#[derive(Copy, Clone, Debug, Hash, PartialEq, Eq, Structural)]
pub struct QaGemvConfig {}

impl QaGemvConfig {
    /// Layout of the left operand.
    pub fn lhs_global_layout_config(&self) -> (config: GlobalLayoutConfig)
        ensures
            config == unchecked(MatrixLayout::RowMajor),
    {
        GlobalLayoutConfig {
            matrix_layout: MatrixLayout::RowMajor,
            check_row_bounds: false,
            check_col_bounds: false,
        }
    }

    /// Layout of the right operand.
    pub fn rhs_global_layout_config(&self) -> (config: GlobalLayoutConfig)
        ensures
            config == unchecked(MatrixLayout::ColMajor),
    {
        GlobalLayoutConfig {
            matrix_layout: MatrixLayout::ColMajor,
            check_row_bounds: false,
            check_col_bounds: false,
        }
    }

    /// Layout of the output.
    pub fn out_global_layout_config(&self) -> (config: GlobalLayoutConfig)
        ensures
            config == unchecked(MatrixLayout::RowMajor),
    {
        GlobalLayoutConfig {
            matrix_layout: MatrixLayout::RowMajor,
            check_row_bounds: false,
            check_col_bounds: false,
        }
    }
}

} // verus!
