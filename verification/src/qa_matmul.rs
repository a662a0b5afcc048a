//! The launches: each lays its kernel out over a grid of cubes and runs every unit
//! of it.
use vstd::prelude::*;
use vstd::arithmetic::power2::pow2;
use crate::arith::{Full, Real, Stored};
use crate::codebook::Codebook;
use crate::dense::{unit_words, words_per_unit, BLOCK, UNIT};
use crate::gemv::{decode_at, qa_gemv_kernel};
use crate::grid::{
    ceil_div, div_ceil, grid_x, grid_y, lemma_grid_y_fits, linear_grid, planar_grid, CubeCount,
    CUBE_DIM, WARPS,
};
use crate::panel::{cube_dot, qa_gemm_panel_kernel, widened_row};
use crate::product::{cell, holds_rows, lemma_position, product_at, qa_matmul_kernel};
use crate::quantize::{
    lemma_block_kept, lemma_block_words, lemma_blocks, quantize_activations_kernel,
    quantize_symmetric_activations_kernel, rotated_block, symmetric_codes, symmetric_quantized,
    table_codes, table_quantized,
};
use crate::rht::RhtSigns;
use crate::scheme::QuantValue;
use crate::weights::{table_fits, weight_row};

verus! {

/// The grid of a product launch, and how many elements each of its buffers has.
#[derive(Clone, Copy, Debug, PartialEq, Eq, Structural)]
pub struct ProductPlan {
    /// Number of cubes.
    pub cube_count: CubeCount,
    /// Units per cube.
    pub cube_dim: u32,
    /// Words of activation codes.
    pub a_codes: usize,
    /// Activation scales.
    pub a_scales: usize,
    /// Words of weight codes.
    pub w_codes: usize,
    /// Weight scales.
    pub w_scales: usize,
    /// Outputs.
    pub out: usize,
}

/// Plans a product launch: one unit of the device per output.
pub fn product_plan(value: QuantValue, m: usize, n: usize, k: usize) -> (plan: ProductPlan)
    requires
        m * n <= u32::MAX,
        m * (k as int / 16) * unit_words(value) <= usize::MAX,
        n * (k as int / 16) * unit_words(value) <= usize::MAX,
        m * (k as int / 16) <= usize::MAX,
        n * (k as int / 16) <= usize::MAX,
    ensures
        plan.cube_count.x == ceil_div(m * n, 256),
        plan.cube_count.y == 1,
        plan.cube_count.z == 1,
        plan.cube_dim == 256,
        plan.a_codes == m * (k as int / 16) * unit_words(value),
        plan.a_scales == m * (k as int / 16),
        plan.w_codes == n * (k as int / 16) * unit_words(value),
        plan.w_scales == n * (k as int / 16),
        plan.out == m * n,
        plan.cube_count.x * 256 >= m * n,
{
    let units: usize = k / UNIT;
    let wpu: usize = words_per_unit(value);
    let threads: u32 = (m * n) as u32;
    ProductPlan {
        cube_count: linear_grid(threads),
        cube_dim: CUBE_DIM,
        a_codes: m * units * wpu,
        a_scales: m * units,
        w_codes: n * units * wpu,
        w_scales: n * units,
        out: m * n,
    }
}

/// The product of two operands quantized with one codebook: activations `[m, k]`
/// times weights `[n, k]`, both in rows of dense codes with one scale per unit of
/// sixteen, into `out`, `[m, n]`.
pub fn launch<R: Real, H: Stored<R>>(
    value: QuantValue,
    a_codes: &[u32],
    a_scales: &[H],
    w_codes: &[u32],
    w_scales: &[H],
    codebook: &Codebook<R>,
    out: &mut Vec<R>,
    m: usize,
    n: usize,
    k: usize,
)
    requires
        m * n <= u32::MAX,
        k % 16 == 0,
        value.bits() % 2 == 0,
        codebook.0@.len() >= pow2(value.bits()),
        holds_rows(a_codes@, a_scales@, m as int, k as int / 16, value),
        holds_rows(w_codes@, w_scales@, n as int, k as int / 16, value),
        old(out)@.len() >= m * n,
    ensures
        final(out)@.len() == old(out)@.len(),
        forall|row: int, col: int|
            0 <= row < m && 0 <= col < n ==> #[trigger] cell(final(out)@, n as int, row, col)
                == product_at(
                codebook.0@,
                a_codes@,
                a_scales@,
                w_codes@,
                w_scales@,
                row,
                col,
                k as int / 16,
                value,
            ),
        forall|i: int| m * n <= i < old(out)@.len() ==> #[trigger] final(out)@[i] == old(out)@[i],
{
    proof {
        assert(a_codes@.len() == a_codes.len());
        assert(w_codes@.len() == w_codes.len());
        assert(a_scales@.len() == a_scales.len());
        assert(w_scales@.len() == w_scales.len());
    }
    let ghost before = out@;
    let plan: ProductPlan = product_plan(value, m, n, k);
    let mut cube: u32 = 0;
    while cube < plan.cube_count.x
        invariant
            cube <= plan.cube_count.x,
            plan.cube_count.x * 256 >= m * n,
            plan.out == m * n,
            plan.cube_dim == 256,
            k % 16 == 0,
            value.bits() % 2 == 0,
            codebook.0@.len() >= pow2(value.bits()),
            holds_rows(a_codes@, a_scales@, m as int, k as int / 16, value),
            holds_rows(w_codes@, w_scales@, n as int, k as int / 16, value),
            out@.len() == before.len(),
            before.len() >= m * n,
            forall|i: int|
                0 <= i < before.len() ==> #[trigger] out@[i] == (if i < cube * 256 && i < m * n {
                    product_at(
                        codebook.0@,
                        a_codes@,
                        a_scales@,
                        w_codes@,
                        w_scales@,
                        i / n as int,
                        i % n as int,
                        k as int / 16,
                        value,
                    )
                } else {
                    before[i]
                }),
        decreases plan.cube_count.x - cube,
    {
        let mut unit: u32 = 0;
        while unit < plan.cube_dim
            invariant
                unit <= 256,
                cube < plan.cube_count.x,
                plan.out == m * n,
                plan.cube_dim == 256,
                k % 16 == 0,
                value.bits() % 2 == 0,
                codebook.0@.len() >= pow2(value.bits()),
                holds_rows(a_codes@, a_scales@, m as int, k as int / 16, value),
                holds_rows(w_codes@, w_scales@, n as int, k as int / 16, value),
                out@.len() == before.len(),
                before.len() >= m * n,
                forall|i: int|
                    0 <= i < before.len() ==> #[trigger] out@[i] == (if i < cube * 256 + unit && i
                        < m * n {
                        product_at(
                            codebook.0@,
                            a_codes@,
                            a_scales@,
                            w_codes@,
                            w_scales@,
                            i / n as int,
                            i % n as int,
                            k as int / 16,
                            value,
                        )
                    } else {
                        before[i]
                    }),
            decreases 256 - unit,
        {
            let absolute: u64 = cube as u64 * 256 + unit as u64;
            if absolute < plan.out as u64 {
                let pos: usize = absolute as usize;
                let acc: R = qa_matmul_kernel(
                    pos,
                    a_codes,
                    a_scales,
                    w_codes,
                    w_scales,
                    codebook,
                    m,
                    n,
                    k,
                    value,
                );
                out[pos] = acc;
            }
            unit += 1;
        }
        cube += 1;
    }
    proof {
        assert forall|row: int, col: int| 0 <= row < m && 0 <= col < n implies #[trigger] cell(
            out@,
            n as int,
            row,
            col,
        ) == product_at(
            codebook.0@,
            a_codes@,
            a_scales@,
            w_codes@,
            w_scales@,
            row,
            col,
            k as int / 16,
            value,
        ) by {
            lemma_position(row, col, m as int, n as int);
        }
    }
}

/// Whether the columns of `cubes` cubes, `per_cube` to a cube, can be counted by the
/// units of the grid that [`planar_grid`] lays out.
pub open spec fn grid_fits(cubes: int, per_cube: int) -> bool {
    per_cube * (grid_x(cubes) * grid_y(cubes)) <= 0x1_0000_0000
}

/// Cubes that a panel launch takes: one per eight columns where there is a single
/// row, one per column otherwise.
pub open spec fn panel_cubes(m: int, n: int) -> int {
    if m == 1 {
        ceil_div(n, 8)
    } else {
        n
    }
}

/// The grid of a panel launch, and how many elements each of its buffers has.
#[derive(Clone, Copy, Debug, PartialEq, Eq, Structural)]
pub struct PanelPlan {
    /// Whether a single row is decoded, a plane per column.
    pub decode: bool,
    /// Number of cubes.
    pub cube_count: CubeCount,
    /// Units per cube.
    pub cube_dim: u32,
    /// Activations.
    pub a: usize,
    /// Words of weight codes.
    pub w_codes: usize,
    /// Weight scales.
    pub w_scales: usize,
    /// Outputs.
    pub out: usize,
    /// Gains; a single one that is not read where there is no normalization.
    pub gamma: usize,
}

/// Plans a panel launch. A single row has no use for a staged column, so that it is
/// decoded instead.
pub fn panel_plan(value: QuantValue, m: usize, n: usize, k: usize, do_norm: bool) -> (plan:
    PanelPlan)
    requires
        0 < n <= u32::MAX,
        m * k <= usize::MAX,
        m * n <= usize::MAX,
        n * (k as int / 16) <= usize::MAX,
        n * (k as int / 16) * unit_words(value) <= usize::MAX,
    ensures
        plan.decode == (m == 1),
        plan.cube_count.x == grid_x(panel_cubes(m as int, n as int)),
        plan.cube_count.y == grid_y(panel_cubes(m as int, n as int)),
        plan.cube_count.z == 1,
        plan.cube_dim == 256,
        plan.a == m * k,
        plan.w_codes == n * (k as int / 16) * unit_words(value),
        plan.w_scales == n * (k as int / 16),
        plan.out == m * n,
        plan.gamma == (if do_norm {
            k
        } else {
            1
        }),
        plan.cube_count.x > 0,
        plan.cube_count.x * plan.cube_count.y >= panel_cubes(m as int, n as int),
{
    let units: usize = k / UNIT;
    let wpu: usize = words_per_unit(value);
    let cubes: usize = if m == 1 {
        div_ceil(n, WARPS as usize)
    } else {
        n
    };
    proof {
        lemma_grid_y_fits(cubes as int);
    }
    PanelPlan {
        decode: m == 1,
        cube_count: planar_grid(cubes),
        cube_dim: CUBE_DIM,
        a: m * k,
        w_codes: n * units * wpu,
        w_scales: n * units,
        out: m * n,
        gamma: if do_norm {
            k
        } else {
            1
        },
    }
}

/// Columns `done` on, of every row, are as before; those below hold the product.
spec fn panel_done<R: Real, H: Stored<R>, F: Stored<R>>(
    before: Seq<R>,
    out: Seq<R>,
    done: int,
    a: Seq<F>,
    w_codes: Seq<u32>,
    w_scales: Seq<H>,
    table: Seq<R>,
    signs: Seq<R>,
    m: int,
    n: int,
    k: int,
    value: QuantValue,
) -> bool {
    &&& out.len() == before.len()
    &&& forall|row: int, col: int|
        0 <= row < m && 0 <= col < n && col < done ==> #[trigger] cell(out, n, row, col)
            == cube_dot(
            widened_row::<R, F>(a, row, k),
            weight_row(table, w_codes, w_scales, col, k / 16, value),
            signs,
        )
    &&& forall|i: int| m * n <= i < before.len() ==> #[trigger] out[i] == before[i]
}

/// Runs the cubes of a panel launch, one per column.
fn run_panel<R: Real, H: Stored<R>, F: Stored<R>>(
    count: CubeCount,
    value: QuantValue,
    a: &[F],
    w_codes: &[u32],
    w_scales: &[H],
    codebook: &Codebook<R>,
    rht_signs: &RhtSigns<R>,
    out: &mut Vec<R>,
    m: usize,
    n: usize,
    k: usize,
)
    requires
        count.x * count.y >= n,
        count.x * count.y <= 0x1_0000_0000,
        n <= u32::MAX,
        k % 16 == 0,
        value.bits() % 2 == 0,
        table_fits(codebook.0@, value),
        rht_signs.0@.len() == 0 || rht_signs.0@.len() >= 32,
        rht_signs.0@.len() > 0 ==> k % 32 == 0,
        m * k <= a@.len(),
        holds_rows(w_codes@, w_scales@, n as int, k as int / 16, value),
        m * n <= old(out)@.len(),
    ensures
        panel_done(
            old(out)@,
            final(out)@,
            n as int,
            a@,
            w_codes@,
            w_scales@,
            codebook.0@,
            rht_signs.0@,
            m as int,
            n as int,
            k as int,
            value,
        ),
{
    let ghost before = out@;
    let mut y: u32 = 0;
    while y < count.y
        invariant
            y <= count.y,
            count.x * count.y >= n,
            count.x * count.y <= 0x1_0000_0000,
            n <= u32::MAX,
            k % 16 == 0,
            value.bits() % 2 == 0,
            table_fits(codebook.0@, value),
            rht_signs.0@.len() == 0 || rht_signs.0@.len() >= 32,
            rht_signs.0@.len() > 0 ==> k % 32 == 0,
            m * k <= a@.len(),
            holds_rows(w_codes@, w_scales@, n as int, k as int / 16, value),
            m * n <= before.len(),
            panel_done(
                before,
                out@,
                y * count.x,
                a@,
                w_codes@,
                w_scales@,
                codebook.0@,
                rht_signs.0@,
                m as int,
                n as int,
                k as int,
                value,
            ),
        decreases count.y - y,
    {
        assert(y * count.x + count.x <= count.x * count.y && (y + 1) * count.x == y * count.x
            + count.x) by (nonlinear_arith)
            requires
                y < count.y,
        ;
        let mut x: u32 = 0;
        while x < count.x
            invariant
                x <= count.x,
                y * count.x + count.x <= 0x1_0000_0000,
                n <= u32::MAX,
                k % 16 == 0,
                value.bits() % 2 == 0,
                table_fits(codebook.0@, value),
                rht_signs.0@.len() == 0 || rht_signs.0@.len() >= 32,
                rht_signs.0@.len() > 0 ==> k % 32 == 0,
                m * k <= a@.len(),
                holds_rows(w_codes@, w_scales@, n as int, k as int / 16, value),
                m * n <= before.len(),
                panel_done(
                    before,
                    out@,
                    y * count.x + x,
                    a@,
                    w_codes@,
                    w_scales@,
                    codebook.0@,
                    rht_signs.0@,
                    m as int,
                    n as int,
                    k as int,
                    value,
                ),
            decreases count.x - x,
        {
            let col: usize = (x + y * count.x) as usize;
            if col < n {
                let ghost prior = out@;
                qa_gemm_panel_kernel(
                    col,
                    a,
                    w_codes,
                    w_scales,
                    out,
                    codebook,
                    rht_signs,
                    m,
                    n,
                    k,
                    value,
                );
                proof {
                    assert forall|row: int, c: int|
                        0 <= row < m && 0 <= c < n && c < col + 1 implies #[trigger] cell(
                        out@,
                        n as int,
                        row,
                        c,
                    ) == cube_dot(
                        widened_row::<R, F>(a@, row, k as int),
                        weight_row(codebook.0@, w_codes@, w_scales@, c, k as int / 16, value),
                        rht_signs.0@,
                    ) by {
                        lemma_position(row, c, m as int, n as int);
                        if c < col {
                            assert(cell(prior, n as int, row, c) == cell(out@, n as int, row, c));
                        }
                    }
                }
            }
            x += 1;
        }
        y += 1;
    }
    assert(y * count.x == count.x * count.y) by (nonlinear_arith)
        requires
            y == count.y,
    ;
}

/// Runs the cubes of a decode launch, eight columns each.
fn run_decode<R: Real, H: Stored<R>, F: Stored<R>, S: Stored<R>>(
    count: CubeCount,
    value: QuantValue,
    a: &[F],
    w_codes: &[u32],
    w_scales: &[H],
    codebook: &Codebook<R>,
    rht_signs: &RhtSigns<R>,
    out: &mut Vec<R>,
    n: usize,
    k: usize,
    gamma: &[F],
    do_norm: bool,
)
    requires
        8 * (count.x * count.y) >= n,
        8 * (count.x * count.y) <= 0x1_0000_0000,
        n <= u32::MAX,
        k <= u32::MAX,
        k % 16 == 0,
        value.bits() % 2 == 0,
        table_fits(codebook.0@, value),
        rht_signs.0@.len() == 0 || rht_signs.0@.len() >= 32,
        rht_signs.0@.len() > 0 ==> k % 32 == 0,
        k <= a@.len(),
        do_norm ==> k <= gamma@.len(),
        holds_rows(w_codes@, w_scales@, n as int, k as int / 16, value),
        n <= old(out)@.len(),
    ensures
        final(out)@.len() == old(out)@.len(),
        forall|i: int|
            0 <= i < old(out)@.len() ==> #[trigger] final(out)@[i] == (if i < n {
                decode_at::<R, H, F, S>(
                    codebook.0@,
                    w_codes@,
                    w_scales@,
                    a@,
                    gamma@,
                    rht_signs.0@,
                    i,
                    k as int,
                    value,
                    do_norm,
                )
            } else {
                old(out)@[i]
            }),
{
    let ghost before = out@;
    let mut y: u32 = 0;
    while y < count.y
        invariant
            y <= count.y,
            8 * (count.x * count.y) >= n,
            8 * (count.x * count.y) <= 0x1_0000_0000,
            n <= u32::MAX,
            k <= u32::MAX,
            k % 16 == 0,
            value.bits() % 2 == 0,
            table_fits(codebook.0@, value),
            rht_signs.0@.len() == 0 || rht_signs.0@.len() >= 32,
            rht_signs.0@.len() > 0 ==> k % 32 == 0,
            k <= a@.len(),
            do_norm ==> k <= gamma@.len(),
            holds_rows(w_codes@, w_scales@, n as int, k as int / 16, value),
            n <= before.len(),
            out@.len() == before.len(),
            forall|i: int|
                0 <= i < before.len() ==> #[trigger] out@[i] == (if i < n && i < 8 * (y
                    * count.x) {
                    decode_at::<R, H, F, S>(
                        codebook.0@,
                        w_codes@,
                        w_scales@,
                        a@,
                        gamma@,
                        rht_signs.0@,
                        i,
                        k as int,
                        value,
                        do_norm,
                    )
                } else {
                    before[i]
                }),
        decreases count.y - y,
    {
        assert(y * count.x + count.x <= count.x * count.y && (y + 1) * count.x == y * count.x
            + count.x) by (nonlinear_arith)
            requires
                y < count.y,
        ;
        let mut x: u32 = 0;
        while x < count.x
            invariant
                x <= count.x,
                8 * (y * count.x + count.x) <= 0x1_0000_0000,
                n <= u32::MAX,
                k <= u32::MAX,
                k % 16 == 0,
                value.bits() % 2 == 0,
                table_fits(codebook.0@, value),
                rht_signs.0@.len() == 0 || rht_signs.0@.len() >= 32,
                rht_signs.0@.len() > 0 ==> k % 32 == 0,
                k <= a@.len(),
                do_norm ==> k <= gamma@.len(),
                holds_rows(w_codes@, w_scales@, n as int, k as int / 16, value),
                n <= before.len(),
                out@.len() == before.len(),
                forall|i: int|
                    0 <= i < before.len() ==> #[trigger] out@[i] == (if i < n && i < 8 * (y
                        * count.x + x) {
                        decode_at::<R, H, F, S>(
                            codebook.0@,
                            w_codes@,
                            w_scales@,
                            a@,
                            gamma@,
                            rht_signs.0@,
                            i,
                            k as int,
                            value,
                            do_norm,
                        )
                    } else {
                        before[i]
                    }),
            decreases count.x - x,
        {
            let cube: usize = (x + y * count.x) as usize;
            qa_gemv_kernel::<R, H, F, S>(
                cube,
                a,
                w_codes,
                w_scales,
                out,
                gamma,
                codebook,
                rht_signs,
                n,
                k,
                value,
                do_norm,
            );
            x += 1;
        }
        y += 1;
    }
    assert(y * count.x == count.x * count.y) by (nonlinear_arith)
        requires
            y == count.y,
    ;
}

/// The weight-reuse product: activations `a`, `[m, k]`, as they are or rotated with
/// `rht_signs`, times quantized weights, `[n, k]`, into `out`, `[m, n]`. A single
/// row is decoded, a plane per column, with its root-mean-square normalization
/// folded in where `do_norm` says so; `stage_f32` keeps the staged row in full
/// precision. The normalization adds 0.000001, whatever `_eps` is.
pub fn launch_panel<R: Real, H: Stored<R>, F: Stored<R>>(
    value: QuantValue,
    a: &[F],
    w_codes: &[u32],
    w_scales: &[H],
    codebook: &Codebook<R>,
    rht_signs: &RhtSigns<R>,
    out: &mut Vec<R>,
    m: usize,
    n: usize,
    k: usize,
    gamma: &[F],
    do_norm: bool,
    _eps: R,
    stage_f32: bool,
)
    requires
        do_norm ==> m == 1,
        0 < n <= u32::MAX,
        k <= u32::MAX,
        k % 16 == 0,
        m == 1 ==> grid_fits(ceil_div(n as int, 8), 8),
        m != 1 ==> grid_fits(n as int, 1),
        value.bits() % 2 == 0,
        table_fits(codebook.0@, value),
        rht_signs.0@.len() == 0 || rht_signs.0@.len() >= 32,
        rht_signs.0@.len() > 0 ==> k % 32 == 0,
        m * k <= a@.len(),
        do_norm ==> k <= gamma@.len(),
        holds_rows(w_codes@, w_scales@, n as int, k as int / 16, value),
        m * n <= old(out)@.len(),
    ensures
        final(out)@.len() == old(out)@.len(),
        m == 1 ==> forall|col: int|
            0 <= col < n ==> #[trigger] final(out)@[col] == (if stage_f32 {
                decode_at::<R, H, F, Full<R>>(
                    codebook.0@,
                    w_codes@,
                    w_scales@,
                    a@,
                    gamma@,
                    rht_signs.0@,
                    col,
                    k as int,
                    value,
                    do_norm,
                )
            } else {
                decode_at::<R, H, F, H>(
                    codebook.0@,
                    w_codes@,
                    w_scales@,
                    a@,
                    gamma@,
                    rht_signs.0@,
                    col,
                    k as int,
                    value,
                    do_norm,
                )
            }),
        m != 1 ==> forall|row: int, col: int|
            0 <= row < m && 0 <= col < n ==> #[trigger] cell(final(out)@, n as int, row, col)
                == cube_dot(
                widened_row::<R, F>(a@, row, k as int),
                weight_row(codebook.0@, w_codes@, w_scales@, col, k as int / 16, value),
                rht_signs.0@,
            ),
        forall|i: int| m * n <= i < old(out)@.len() ==> #[trigger] final(out)@[i] == old(out)@[i],
{
    proof {
        assert(a@.len() == a.len());
        assert(w_codes@.len() == w_codes.len());
        assert(w_scales@.len() == w_scales.len());
        assert(out@.len() == out.len());
    }
    let plan: PanelPlan = panel_plan(value, m, n, k, do_norm);
    if plan.decode {
        if stage_f32 {
            run_decode::<R, H, F, Full<R>>(
                plan.cube_count,
                value,
                a,
                w_codes,
                w_scales,
                codebook,
                rht_signs,
                out,
                n,
                k,
                gamma,
                do_norm,
            );
        } else {
            run_decode::<R, H, F, H>(
                plan.cube_count,
                value,
                a,
                w_codes,
                w_scales,
                codebook,
                rht_signs,
                out,
                n,
                k,
                gamma,
                do_norm,
            );
        }
    } else {
        run_panel(
            plan.cube_count,
            value,
            a,
            w_codes,
            w_scales,
            codebook,
            rht_signs,
            out,
            m,
            n,
            k,
        );
    }
}

/// The grid of a quantization launch, and how many elements each of its buffers has.
#[derive(Clone, Copy, Debug, PartialEq, Eq, Structural)]
pub struct QuantPlan {
    /// Number of cubes.
    pub cube_count: CubeCount,
    /// Units per cube.
    pub cube_dim: u32,
    /// Activations.
    pub hidden: usize,
    /// Words of codes.
    pub codes: usize,
    /// Scales.
    pub scales: usize,
}

/// Plans a quantization launch: one unit of the device per block.
pub fn quant_plan(value: QuantValue, m: usize, k: usize) -> (plan: QuantPlan)
    requires
        m * k * value.bits() <= usize::MAX,
        m * k / 32 <= u32::MAX,
    ensures
        plan.cube_count.x == ceil_div(m * k / 32, 256),
        plan.cube_count.y == 1,
        plan.cube_count.z == 1,
        plan.cube_dim == 256,
        plan.hidden == m * k,
        plan.codes == m * k * value.bits() / 32,
        plan.scales == m * k / 16,
        plan.cube_count.x * 256 >= m * k / 32,
{
    let bits: usize = value.size_bits();
    assert(m * k <= m * k * bits) by (nonlinear_arith)
        requires
            bits >= 1,
            m >= 0,
            k >= 0,
    ;
    let n_blocks: u32 = (m * k / 32) as u32;
    QuantPlan {
        cube_count: linear_grid(n_blocks),
        cube_dim: CUBE_DIM,
        hidden: m * k,
        codes: m * k * bits / 32,
        scales: m * k / 16,
    }
}

/// Quantizes activations `[m, k]` to the table of `value` in rotated space: `bits`
/// words and two scales per block of thirty-two, ready for [`launch`].
pub fn launch_activation_quant<R: Real, H: Stored<R>>(
    value: QuantValue,
    hidden: &[R],
    codes: &mut Vec<u32>,
    scales: &mut Vec<H>,
    codebook: &Codebook<R>,
    rht_signs: &RhtSigns<R>,
    m: usize,
    k: usize,
)
    requires
        k % 32 == 0,
        m * k * value.bits() <= usize::MAX,
        m * k / 32 <= u32::MAX,
        codebook.0@.len() >= pow2(value.bits()),
        rht_signs.0@.len() >= 32,
        m * k <= hidden@.len(),
        m * k * value.bits() / 32 <= old(codes)@.len(),
        m * k / 16 <= old(scales)@.len(),
    ensures
        final(codes)@.len() == old(codes)@.len(),
        final(scales)@.len() == old(scales)@.len(),
        forall|block: int|
            0 <= block < m * k / 32 ==> #[trigger] table_quantized(
                hidden@,
                final(codes)@,
                final(scales)@,
                codebook.0@,
                rht_signs.0@,
                block,
                value,
            ),
        forall|i: int|
            m * k * value.bits() / 32 <= i < old(codes)@.len() ==> #[trigger] final(codes)@[i]
                == old(codes)@[i],
        forall|i: int|
            m * k / 16 <= i < old(scales)@.len() ==> #[trigger] final(scales)@[i] == old(
                scales,
            )@[i],
{
    let plan: QuantPlan = quant_plan(value, m, k);
    let ghost codes_before = codes@;
    let ghost scales_before = scales@;
    let n_blocks: usize = plan.hidden / BLOCK;
    proof {
        lemma_blocks(m as int, k as int, value.bits() as int);
    }
    let mut cube: u32 = 0;
    while cube < plan.cube_count.x
        invariant
            cube <= plan.cube_count.x,
            plan.cube_dim == 256,
            plan.cube_count.x * 256 >= n_blocks,
            k % 32 == 0,
            n_blocks > 0 ==> k > 0,
            32 * n_blocks <= hidden@.len(),
            codebook.0@.len() >= pow2(value.bits()),
            rht_signs.0@.len() >= 32,
            n_blocks * value.bits() <= codes@.len(),
            2 * n_blocks <= scales@.len(),
            codes@.len() == codes_before.len(),
            scales@.len() == scales_before.len(),
            forall|b: int|
                0 <= b < n_blocks && b < cube * 256 ==> #[trigger] table_quantized(
                    hidden@,
                    codes@,
                    scales@,
                    codebook.0@,
                    rht_signs.0@,
                    b,
                    value,
                ),
            forall|i: int|
                n_blocks * value.bits() <= i < codes_before.len() ==> #[trigger] codes@[i]
                    == codes_before[i],
            forall|i: int|
                2 * n_blocks <= i < scales_before.len() ==> #[trigger] scales@[i]
                    == scales_before[i],
        decreases plan.cube_count.x - cube,
    {
        let mut unit: u32 = 0;
        while unit < plan.cube_dim
            invariant
                unit <= 256,
                plan.cube_dim == 256,
                cube < plan.cube_count.x,
                k % 32 == 0,
                n_blocks > 0 ==> k > 0,
                32 * n_blocks <= hidden@.len(),
                codebook.0@.len() >= pow2(value.bits()),
                rht_signs.0@.len() >= 32,
                n_blocks * value.bits() <= codes@.len(),
                2 * n_blocks <= scales@.len(),
                codes@.len() == codes_before.len(),
                scales@.len() == scales_before.len(),
                forall|b: int|
                    0 <= b < n_blocks && b < cube * 256 + unit ==> #[trigger] table_quantized(
                        hidden@,
                        codes@,
                        scales@,
                        codebook.0@,
                        rht_signs.0@,
                        b,
                        value,
                    ),
                forall|i: int|
                    n_blocks * value.bits() <= i < codes_before.len() ==> #[trigger] codes@[i]
                        == codes_before[i],
                forall|i: int|
                    2 * n_blocks <= i < scales_before.len() ==> #[trigger] scales@[i]
                        == scales_before[i],
            decreases 256 - unit,
        {
            let absolute: u64 = cube as u64 * 256 + unit as u64;
            if absolute < n_blocks as u64 {
                let block: usize = absolute as usize;
                let ghost codes_prior = codes@;
                let ghost scales_prior = scales@;
                proof {
                    lemma_block_words(block as int, n_blocks as int, value.bits() as int);
                }
                quantize_activations_kernel(
                    block,
                    hidden,
                    codes,
                    scales,
                    codebook,
                    rht_signs,
                    k,
                    value,
                );
                proof {
                    assert forall|b: int| 0 <= b < block implies #[trigger] table_quantized(
                        hidden@,
                        codes@,
                        scales@,
                        codebook.0@,
                        rht_signs.0@,
                        b,
                        value,
                    ) by {
                        assert(table_quantized(
                            hidden@,
                            codes_prior,
                            scales_prior,
                            codebook.0@,
                            rht_signs.0@,
                            b,
                            value,
                        ));
                        lemma_block_kept(
                            codes_prior,
                            codes@,
                            b,
                            block as int,
                            value,
                            table_codes(
                                codebook.0@,
                                rotated_block(hidden@, rht_signs.0@, b),
                                value,
                            ),
                        );
                    }
                }
            }
            unit += 1;
        }
        cube += 1;
    }
}

/// Quantizes activations `[m, k]` to the symmetric `value` in rotated space: `bits`
/// words and two scales per block of thirty-two. The counterpart of
/// [`launch_activation_quant`] that needs no table.
pub fn launch_symmetric_activation_quant<R: Real, H: Stored<R>>(
    value: QuantValue,
    hidden: &[R],
    codes: &mut Vec<u32>,
    scales: &mut Vec<H>,
    rht_signs: &RhtSigns<R>,
    m: usize,
    k: usize,
)
    requires
        k % 32 == 0,
        m * k * value.bits() <= usize::MAX,
        m * k / 32 <= u32::MAX,
        rht_signs.0@.len() >= 32,
        m * k <= hidden@.len(),
        m * k * value.bits() / 32 <= old(codes)@.len(),
        m * k / 16 <= old(scales)@.len(),
    ensures
        final(codes)@.len() == old(codes)@.len(),
        final(scales)@.len() == old(scales)@.len(),
        forall|block: int|
            0 <= block < m * k / 32 ==> #[trigger] symmetric_quantized(
                hidden@,
                final(codes)@,
                final(scales)@,
                rht_signs.0@,
                block,
                value,
            ),
        forall|i: int|
            m * k * value.bits() / 32 <= i < old(codes)@.len() ==> #[trigger] final(codes)@[i]
                == old(codes)@[i],
        forall|i: int|
            m * k / 16 <= i < old(scales)@.len() ==> #[trigger] final(scales)@[i] == old(
                scales,
            )@[i],
{
    let plan: QuantPlan = quant_plan(value, m, k);
    let ghost codes_before = codes@;
    let ghost scales_before = scales@;
    let n_blocks: usize = plan.hidden / BLOCK;
    proof {
        lemma_blocks(m as int, k as int, value.bits() as int);
    }
    let mut cube: u32 = 0;
    while cube < plan.cube_count.x
        invariant
            cube <= plan.cube_count.x,
            plan.cube_dim == 256,
            plan.cube_count.x * 256 >= n_blocks,
            k % 32 == 0,
            n_blocks > 0 ==> k > 0,
            32 * n_blocks <= hidden@.len(),
            rht_signs.0@.len() >= 32,
            n_blocks * value.bits() <= codes@.len(),
            2 * n_blocks <= scales@.len(),
            codes@.len() == codes_before.len(),
            scales@.len() == scales_before.len(),
            forall|b: int|
                0 <= b < n_blocks && b < cube * 256 ==> #[trigger] symmetric_quantized(
                    hidden@,
                    codes@,
                    scales@,
                    rht_signs.0@,
                    b,
                    value,
                ),
            forall|i: int|
                n_blocks * value.bits() <= i < codes_before.len() ==> #[trigger] codes@[i]
                    == codes_before[i],
            forall|i: int|
                2 * n_blocks <= i < scales_before.len() ==> #[trigger] scales@[i]
                    == scales_before[i],
        decreases plan.cube_count.x - cube,
    {
        let mut unit: u32 = 0;
        while unit < plan.cube_dim
            invariant
                unit <= 256,
                plan.cube_dim == 256,
                cube < plan.cube_count.x,
                k % 32 == 0,
                n_blocks > 0 ==> k > 0,
                32 * n_blocks <= hidden@.len(),
                rht_signs.0@.len() >= 32,
                n_blocks * value.bits() <= codes@.len(),
                2 * n_blocks <= scales@.len(),
                codes@.len() == codes_before.len(),
                scales@.len() == scales_before.len(),
                forall|b: int|
                    0 <= b < n_blocks && b < cube * 256 + unit ==> #[trigger] symmetric_quantized(
                        hidden@,
                        codes@,
                        scales@,
                        rht_signs.0@,
                        b,
                        value,
                    ),
                forall|i: int|
                    n_blocks * value.bits() <= i < codes_before.len() ==> #[trigger] codes@[i]
                        == codes_before[i],
                forall|i: int|
                    2 * n_blocks <= i < scales_before.len() ==> #[trigger] scales@[i]
                        == scales_before[i],
            decreases 256 - unit,
        {
            let absolute: u64 = cube as u64 * 256 + unit as u64;
            if absolute < n_blocks as u64 {
                let block: usize = absolute as usize;
                let ghost codes_prior = codes@;
                let ghost scales_prior = scales@;
                proof {
                    lemma_block_words(block as int, n_blocks as int, value.bits() as int);
                }
                quantize_symmetric_activations_kernel(
                    block,
                    hidden,
                    codes,
                    scales,
                    rht_signs,
                    k,
                    value,
                );
                proof {
                    assert forall|b: int| 0 <= b < block implies #[trigger] symmetric_quantized(
                        hidden@,
                        codes@,
                        scales@,
                        rht_signs.0@,
                        b,
                        value,
                    ) by {
                        assert(symmetric_quantized(
                            hidden@,
                            codes_prior,
                            scales_prior,
                            rht_signs.0@,
                            b,
                            value,
                        ));
                        lemma_block_kept(
                            codes_prior,
                            codes@,
                            b,
                            block as int,
                            value,
                            symmetric_codes(
                                rotated_block(hidden@, rht_signs.0@, b),
                                value,
                            ),
                        );
                    }
                }
            }
            unit += 1;
        }
        cube += 1;
    }
}

} // verus!
