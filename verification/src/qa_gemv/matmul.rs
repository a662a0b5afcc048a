//! The kernel of the routine: `out[m, 0] = sum over k of lhs[m, k] * rhs[k, 0]`, with
//! the weights as the left operand. One unit of the device per output row computes
//! the whole sum.
use vstd::prelude::*;
use crate::arith::{sum_of, Real, Stored};
use crate::definition::{MatmulSetupError, MatmulVectorSizes, MatrixLayout};
use crate::product::lemma_position;
use crate::qa_gemv::config::QaGemvConfig;
use crate::qa_gemv::setup::{QaGemvBatchMatmulFamily, QaGemvBlueprint};

verus! {

/// An operand in memory: matrices of one shape, and which of them each batch reads.
pub struct Operand<'a, T> {
    /// The entries of all matrices.
    pub data: &'a [T],
    /// Rows of a matrix.
    pub rows: usize,
    /// Columns of a matrix.
    pub cols: usize,
    /// The matrix of each batch.
    pub batches: &'a [usize],
    /// Entries that one read takes.
    pub vector_size: usize,
}

/// One matrix of an operand, with its layout.
pub struct MatrixView<'a, T> {
    /// The entries of all matrices.
    pub data: &'a [T],
    /// Where the matrix starts.
    pub offset: usize,
    /// Rows of the matrix.
    pub rows: usize,
    /// Columns of the matrix.
    pub cols: usize,
    /// Order of the entries.
    pub layout: MatrixLayout,
    /// Entries that one read takes.
    pub vector_size: usize,
}

/// Position of entry (`row`, `col`) within a matrix.
pub open spec fn entry_position(
    layout: MatrixLayout,
    rows: int,
    cols: int,
    row: int,
    col: int,
) -> int {
    match layout {
        MatrixLayout::RowMajor => row * cols + col,
        MatrixLayout::ColMajor => col * rows + row,
    }
}

/// The position `i` entries behind (`row`, `col`), along the rows of a row-major
/// matrix and along the columns of a column-major one.
pub open spec fn stepped(layout: MatrixLayout, row: int, col: int, i: int) -> (int, int) {
    match layout {
        MatrixLayout::RowMajor => (row, col + i),
        MatrixLayout::ColMajor => (row + i, col),
    }
}

impl<'a, T: Copy> Operand<'a, T> {
    /// Whether every batch has its matrix in memory, and reads take at least an
    /// entry.
    pub open spec fn valid(self) -> bool {
        &&& self.vector_size > 0
        &&& forall|b: int|
            0 <= b < self.batches@.len() ==> (#[trigger] self.batches@[b] + 1) * (self.rows
                * self.cols) <= self.data@.len()
    }

    /// Entry (`row`, `col`) of the matrix of batch `b`.
    pub open spec fn at(self, layout: MatrixLayout, b: int, row: int, col: int) -> T {
        self.data@[self.batches@[b] * (self.rows * self.cols) + entry_position(
            layout,
            self.rows as int,
            self.cols as int,
            row,
            col,
        )]
    }

    /// The matrix of batch `b`.
    pub fn view_batch(&self, b: usize, layout: MatrixLayout) -> (view: MatrixView<'a, T>)
        requires
            self.valid(),
            b < self.batches@.len(),
        ensures
            view.valid(),
            view.layout == layout,
            view.rows == self.rows,
            view.cols == self.cols,
            view.vector_size == self.vector_size,
            forall|row: int, col: int| #[trigger]
                view.at(row, col) == self.at(layout, b as int, row, col),
    {
        let which: usize = self.batches[b];
        proof {
            let size = self.rows * self.cols;
            assert(self.data@.len() == self.data.len());
            assert((which + 1) * size == which * size + size) by (nonlinear_arith);
            assert(0 <= which * size && 0 <= size) by (nonlinear_arith)
                requires
                    0 <= which,
                    size == self.rows * self.cols,
            ;
            assert(size <= (which + 1) * size);
        }
        MatrixView {
            data: self.data,
            offset: which * (self.rows * self.cols),
            rows: self.rows,
            cols: self.cols,
            layout,
            vector_size: self.vector_size,
        }
    }
}

/// Positions of entries lie within the matrix.
proof fn lemma_entry_within(layout: MatrixLayout, rows: int, cols: int, row: int, col: int)
    requires
        0 <= row < rows,
        0 <= col < cols,
    ensures
        0 <= entry_position(layout, rows, cols, row, col) < rows * cols,
{
    lemma_position(row, col, rows, cols);
    lemma_position(col, row, cols, rows);
    assert(rows * cols == cols * rows) by (nonlinear_arith);
}

impl<'a, T: Copy> MatrixView<'a, T> {
    /// Whether the matrix lies in memory.
    pub open spec fn valid(self) -> bool {
        &&& self.vector_size > 0
        &&& self.offset + self.rows * self.cols <= self.data@.len()
    }

    /// Entry (`row`, `col`).
    pub open spec fn at(self, row: int, col: int) -> T {
        self.data@[self.offset + entry_position(
            self.layout,
            self.rows as int,
            self.cols as int,
            row,
            col,
        )]
    }

    /// Whether `count` entries from (`row`, `col`) on lie within the matrix.
    pub open spec fn has(self, row: int, col: int, count: int) -> bool {
        match self.layout {
            MatrixLayout::RowMajor => 0 <= row < self.rows && 0 <= col && col + count <= self.cols,
            MatrixLayout::ColMajor => 0 <= row && row + count <= self.rows && 0 <= col < self.cols,
        }
    }

    /// The `count` entries from (`row`, `col`) on, along the layout.
    pub open spec fn run(self, row: int, col: int, count: int) -> Seq<T> {
        Seq::new(
            count as nat,
            |i: int|
                {
                    let (r, c) = stepped(self.layout, row, col, i);
                    self.at(r, c)
                },
        )
    }

    /// Reads one vector.
    pub fn read(&self, row: usize, col: usize) -> (vector: Vec<T>)
        requires
            self.valid(),
            self.has(row as int, col as int, self.vector_size as int),
        ensures
            vector@ == self.run(row as int, col as int, self.vector_size as int),
    {
        let ghost all = self.run(row as int, col as int, self.vector_size as int);
        let mut vector: Vec<T> = Vec::new();
        let mut i: usize = 0;
        while i < self.vector_size
            invariant
                i <= self.vector_size,
                self.valid(),
                self.has(row as int, col as int, self.vector_size as int),
                all == self.run(row as int, col as int, self.vector_size as int),
                vector@ == all.take(i as int),
            decreases self.vector_size - i,
        {
            proof {
                let (r, c) = stepped(self.layout, row as int, col as int, i as int);
                lemma_entry_within(self.layout, self.rows as int, self.cols as int, r, c);
                assert(self.data@.len() == self.data.len());
                assert(0 <= row * self.cols && 0 <= col * self.rows) by (nonlinear_arith)
                    requires
                        0 <= row,
                        0 <= col,
                        0 <= self.cols,
                        0 <= self.rows,
                ;
            }
            let position: usize = match self.layout {
                MatrixLayout::RowMajor => row * self.cols + (col + i),
                MatrixLayout::ColMajor => col * self.rows + (row + i),
            };
            vector.push(self.data[self.offset + position]);
            i += 1;
            proof {
                assert(all.take(i as int) =~= all.take(i - 1).push(all[i - 1]));
            }
        }
        proof {
            assert(all.take(self.vector_size as int) =~= all);
        }
        vector
    }
}

/// Loads `vector_size` entries, in as many reads as the view's own vectors take.
pub fn load_unrolled<T: Copy>(
    view: &MatrixView<'_, T>,
    pos: (usize, usize),
    layout: MatrixLayout,
    vector_size: usize,
) -> (out: Vec<T>)
    requires
        view.valid(),
        view.layout == layout,
        vector_size >= view.vector_size,
        vector_size as int % view.vector_size as int == 0,
        view.has(pos.0 as int, pos.1 as int, vector_size as int),
    ensures
        out@ == view.run(pos.0 as int, pos.1 as int, vector_size as int),
{
    let view_vector_size: usize = view.vector_size;
    if view_vector_size == vector_size {
        view.read(pos.0, pos.1)
    } else {
        let (row, col) = pos;
        let ghost all = view.run(row as int, col as int, vector_size as int);
        let mut out: Vec<T> = Vec::new();
        let mut i: usize = 0;
        proof {
            vstd::arithmetic::div_mod::lemma_small_mod(0, view_vector_size as nat);
        }
        while i < vector_size
            invariant
                i <= vector_size,
                i as int % view_vector_size as int == 0,
                vector_size as int % view_vector_size as int == 0,
                view_vector_size == view.vector_size,
                view.valid(),
                view.layout == layout,
                view.has(row as int, col as int, vector_size as int),
                all == view.run(row as int, col as int, vector_size as int),
                out@ == all.take(i as int),
            decreases vector_size - i,
        {
            proof {
                lemma_next_multiple(i as int, vector_size as int, view_vector_size as int);
            }
            let at: (usize, usize) = match layout {
                MatrixLayout::RowMajor => (row, col + i),
                MatrixLayout::ColMajor => (row + i, col),
            };
            let value: Vec<T> = view.read(at.0, at.1);
            let mut n: usize = 0;
            while n < view_vector_size
                invariant
                    n <= view_vector_size,
                    i + view_vector_size <= vector_size,
                    view_vector_size == view.vector_size,
                    view.layout == layout,
                    at == (match layout {
                        MatrixLayout::RowMajor => (row, (col + i) as usize),
                        MatrixLayout::ColMajor => ((row + i) as usize, col),
                    }),
                    view.has(row as int, col as int, vector_size as int),
                    value@ == view.run(at.0 as int, at.1 as int, view_vector_size as int),
                    all == view.run(row as int, col as int, vector_size as int),
                    out@ == all.take(i + n),
                decreases view_vector_size - n,
            {
                out.push(value[n]);
                proof {
                    assert(value@[n as int] == all[i + n]);
                    assert(all.take(i + n + 1) =~= all.take(i + n).push(all[i + n]));
                }
                n += 1;
            }
            i += view_vector_size;
        }
        proof {
            assert(all.take(vector_size as int) =~= all);
        }
        out
    }
}

/// Behind a multiple comes the next one, which does not pass a larger multiple.
proof fn lemma_next_multiple(i: int, end: int, step: int)
    requires
        0 < step,
        0 <= i < end,
        i % step == 0,
        end % step == 0,
    ensures
        i + step <= end,
        (i + step) % step == 0,
{
    vstd::arithmetic::div_mod::lemma_fundamental_div_mod(i, step);
    vstd::arithmetic::div_mod::lemma_fundamental_div_mod(end, step);
    let a = i / step;
    let b = end / step;
    assert(i + step <= end) by (nonlinear_arith)
        requires
            0 < step,
            i == step * a,
            end == step * b,
            i < end,
    ;
    assert(i + step == step * (a + 1) + 0) by (nonlinear_arith)
        requires
            i == step * a,
    ;
    vstd::arithmetic::div_mod::lemma_mod_multiples_vanish(a + 1, 0, step);
    vstd::arithmetic::div_mod::lemma_small_mod(0, step as nat);
}

/// The products that make up output row `row` of batch `b`.
pub open spec fn gemv_term<A: Real, L: Stored<A>, Rh: Stored<A>>(
    lhs: Operand<'_, L>,
    rhs: Operand<'_, Rh>,
    b: int,
    row: int,
) -> spec_fn(int) -> A {
    |c: int|
        lhs.at(MatrixLayout::RowMajor, b, row, c).widen_spec().times_spec(
            rhs.at(MatrixLayout::ColMajor, b, c, 0).widen_spec(),
        )
}

/// Output row `row` of batch `b`.
pub open spec fn gemv_at<A: Real, L: Stored<A>, Rh: Stored<A>>(
    lhs: Operand<'_, L>,
    rhs: Operand<'_, Rh>,
    b: int,
    row: int,
) -> A {
    sum_of(gemv_term::<A, L, Rh>(lhs, rhs, b, row), lhs.cols as int)
}

/// Position of output row `row` of batch `b` in a buffer of `[batch, m, n]`.
pub open spec fn out_position(m: int, n: int, b: int, row: int) -> int {
    b * (m * n) + row * n
}

/// Where the unit of the device stands, and the grid it stands in.
#[derive(Clone, Copy)]
pub struct UnitPosition {
    /// Position along x, over all cubes.
    pub absolute_x: u32,
    /// Position along y, over all cubes.
    pub absolute_y: u32,
    /// Position along z, over all cubes.
    pub absolute_z: u32,
    /// Cubes along x.
    pub cube_count_x: u32,
    /// Units of a cube along x.
    pub cube_dim_x: u32,
}

/// The row that a unit computes: the x and y axes of the grid, flattened.
pub open spec fn unit_row(at: UnitPosition) -> int {
    at.absolute_x + at.absolute_y * at.cube_count_x * at.cube_dim_x
}

/// Whether the operands make up a product of `batches` batches with `m` rows, whose
/// loads are whole.
pub open spec fn operands_fit<L: Copy, Rh: Copy>(
    lhs: Operand<'_, L>,
    rhs: Operand<'_, Rh>,
    batches: int,
    m: int,
) -> bool {
    &&& lhs.valid()
    &&& rhs.valid()
    &&& batches <= lhs.batches@.len()
    &&& batches <= rhs.batches@.len()
    &&& m <= lhs.rows
    &&& lhs.cols <= rhs.rows
    &&& 0 < rhs.cols
    &&& lhs.cols as int % lhs.vector_size as int == 0
    &&& lhs.cols as int % rhs.vector_size as int == 0
    &&& if lhs.vector_size >= rhs.vector_size {
        lhs.vector_size as int % rhs.vector_size as int == 0
    } else {
        rhs.vector_size as int % lhs.vector_size as int == 0
    }
}

/// The kernels of the family.
pub struct QaGemvMatmul {}

impl QaGemvMatmul {
    /// What one unit of the device does: where its row is one of the output's `m`, it
    /// computes the row's sum and writes it.
    pub fn execute<A: Real, L: Stored<A>, Rh: Stored<A>, O: Stored<A>>(
        at: UnitPosition,
        lhs: &Operand<'_, L>,
        rhs: &Operand<'_, Rh>,
        out: &mut Vec<O>,
        m: usize,
        n: usize,
        config: QaGemvConfig,
    )
        requires
            at.cube_dim_x > 0,
            unit_row(at) <= u32::MAX,
            n > 0,
            operands_fit(*lhs, *rhs, at.absolute_z + 1, m as int),
            (at.absolute_z + 1) * (m * n) <= old(out)@.len(),
        ensures
            final(out)@.len() == old(out)@.len(),
            forall|i: int|
                0 <= i < old(out)@.len() ==> #[trigger] final(out)@[i] == (if unit_row(at) < m && i
                    == out_position(m as int, n as int, at.absolute_z as int, unit_row(at)) {
                    O::narrow_spec(
                        gemv_at::<A, L, Rh>(*lhs, *rhs, at.absolute_z as int, unit_row(at)),
                    )
                } else {
                    old(out)@[i]
                }),
    {
        proof {
            let y = at.absolute_y * at.cube_count_x;
            assert(0 <= y) by (nonlinear_arith)
                requires
                    y == at.absolute_y * at.cube_count_x,
            ;
            assert(y <= y * at.cube_dim_x) by (nonlinear_arith)
                requires
                    0 <= y,
                    0 < at.cube_dim_x,
            ;
        }
        let row: usize = (at.absolute_x + at.absolute_y * at.cube_count_x * at.cube_dim_x) as usize;
        let batch: usize = at.absolute_z as usize;
        if row < m {
            let lhs_layout: MatrixLayout = config.lhs_global_layout_config().matrix_layout;
            let rhs_layout: MatrixLayout = config.rhs_global_layout_config().matrix_layout;
            let lhs_view: MatrixView<'_, L> = lhs.view_batch(batch, lhs_layout);
            let rhs_view: MatrixView<'_, Rh> = rhs.view_batch(batch, rhs_layout);
            let k: usize = lhs.cols;
            let load: usize = if lhs.vector_size >= rhs.vector_size {
                lhs.vector_size
            } else {
                rhs.vector_size
            };
            let ghost term = gemv_term::<A, L, Rh>(*lhs, *rhs, batch as int, row as int);
            proof {
                vstd::arithmetic::div_mod::lemma_small_mod(0, load as nat);
                vstd::arithmetic::div_mod::lemma_mod_self_0(load as int);
            }
            let mut acc: A = A::decimal(0, 0);
            let mut kb: usize = 0;
            while kb < k
                invariant
                    kb <= k,
                    kb as int % load as int == 0,
                    k as int % load as int == 0,
                    load > 0,
                    lhs_view.valid(),
                    rhs_view.valid(),
                    lhs_layout == MatrixLayout::RowMajor,
                    rhs_layout == MatrixLayout::ColMajor,
                    lhs_view.layout == lhs_layout,
                    rhs_view.layout == rhs_layout,
                    load >= lhs_view.vector_size,
                    load >= rhs_view.vector_size,
                    load as int % lhs_view.vector_size as int == 0,
                    load as int % rhs_view.vector_size as int == 0,
                    row < lhs_view.rows,
                    k == lhs_view.cols,
                    k <= rhs_view.rows,
                    0 < rhs_view.cols,
                    forall|r: int, c: int| #[trigger]
                        lhs_view.at(r, c) == lhs.at(lhs_layout, batch as int, r, c),
                    forall|r: int, c: int| #[trigger]
                        rhs_view.at(r, c) == rhs.at(rhs_layout, batch as int, r, c),
                    term == gemv_term::<A, L, Rh>(*lhs, *rhs, batch as int, row as int),
                    acc == sum_of(term, kb as int),
                decreases k - kb,
            {
                proof {
                    lemma_next_multiple(kb as int, k as int, load as int);
                }
                let lhs_vec: Vec<L> = load_unrolled(&lhs_view, (row, kb), lhs_layout, load);
                let rhs_vec: Vec<Rh> = load_unrolled(&rhs_view, (kb, 0), rhs_layout, load);
                let mut v: usize = 0;
                while v < load
                    invariant
                        v <= load,
                        lhs_view.layout == MatrixLayout::RowMajor,
                        rhs_view.layout == MatrixLayout::ColMajor,
                        lhs_vec@ == lhs_view.run(row as int, kb as int, load as int),
                        rhs_vec@ == rhs_view.run(kb as int, 0, load as int),
                        forall|r: int, c: int| #[trigger]
                            lhs_view.at(r, c) == lhs.at(
                                MatrixLayout::RowMajor,
                                batch as int,
                                r,
                                c,
                            ),
                        forall|r: int, c: int| #[trigger]
                            rhs_view.at(r, c) == rhs.at(
                                MatrixLayout::ColMajor,
                                batch as int,
                                r,
                                c,
                            ),
                        term == gemv_term::<A, L, Rh>(*lhs, *rhs, batch as int, row as int),
                        acc == sum_of(term, kb + v),
                    decreases load - v,
                {
                    proof {
                        assert(lhs_vec@[v as int] == lhs_view.at(row as int, kb + v));
                        assert(rhs_vec@[v as int] == rhs_view.at(kb + v, 0));
                    }
                    acc = acc.plus(lhs_vec[v].widen().times(rhs_vec[v].widen()));
                    v += 1;
                }
                kb += load;
            }
            proof {
                lemma_out_within(m as int, n as int, batch as int, row as int);
                assert(out@.len() == out.len());
            }
            let position: usize = batch * (m * n) + row * n;
            out[position] = O::narrow(acc);
        }
    }
}

/// An output row lies within the buffer of the batches up to its own.
proof fn lemma_out_within(m: int, n: int, b: int, row: int)
    requires
        0 <= b,
        0 <= row < m,
        0 < n,
    ensures
        0 <= m * n,
        0 <= b * (m * n),
        0 <= row * n < m * n,
        out_position(m, n, b, row) < (b + 1) * (m * n),
        m * n <= (b + 1) * (m * n),
{
    lemma_position(row, 0, m, n);
    let size = m * n;
    assert(0 <= b * size && (b + 1) * size == b * size + size) by (nonlinear_arith)
        requires
            0 <= b,
            0 <= size,
    ;
}

/// What one unit of the device does, from the blueprint on: the configuration is
/// expanded, and the unit either reports why it cannot be or executes under it.
pub fn matmul_entry<A: Real, L: Stored<A>, Rh: Stored<A>, O: Stored<A>>(
    at: UnitPosition,
    lhs: &Operand<'_, L>,
    rhs: &Operand<'_, Rh>,
    out: &mut Vec<O>,
    m: usize,
    n: usize,
    blueprint: &QaGemvBlueprint,
    out_vector_size: usize,
) -> (r: Result<(), MatmulSetupError>)
    requires
        at.cube_dim_x > 0,
        unit_row(at) <= u32::MAX,
        n > 0,
        operands_fit(*lhs, *rhs, at.absolute_z + 1, m as int),
        (at.absolute_z + 1) * (m * n) <= old(out)@.len(),
    ensures
        r == Ok::<(), MatmulSetupError>(()),
        final(out)@.len() == old(out)@.len(),
        forall|i: int|
            0 <= i < old(out)@.len() ==> #[trigger] final(out)@[i] == (if unit_row(at) < m && i
                == out_position(m as int, n as int, at.absolute_z as int, unit_row(at)) {
                O::narrow_spec(
                    gemv_at::<A, L, Rh>(*lhs, *rhs, at.absolute_z as int, unit_row(at)),
                )
            } else {
                old(out)@[i]
            }),
{
    let vector_sizes: MatmulVectorSizes = MatmulVectorSizes {
        lhs: lhs.vector_size,
        rhs: rhs.vector_size,
        out: out_vector_size,
    };
    match QaGemvBatchMatmulFamily::expand_config(blueprint, &blueprint.dtypes, &vector_sizes) {
        Err(error) => Err(error),
        Ok(config) => {
            QaGemvMatmul::execute::<A, L, Rh, O>(at, lhs, rhs, out, m, n, config);
            Ok(())
        },
    }
}

/// Batch of entry `i` of a buffer of `[batch, m, n]`.
pub open spec fn batch_of(m: int, n: int, i: int) -> int {
    i / n / m
}

/// Row of entry `i` of a buffer of `[batch, m, n]`.
pub open spec fn row_of(m: int, n: int, i: int) -> int {
    i / n % m
}

/// `before`, with the first column of the rows of `batches` batches replaced by the
/// products, as far as `rows` rows go.
pub open spec fn gemv_result<A: Real, L: Stored<A>, Rh: Stored<A>, O: Stored<A>>(
    before: Seq<O>,
    lhs: Operand<'_, L>,
    rhs: Operand<'_, Rh>,
    m: int,
    n: int,
    batches: int,
    rows: int,
) -> Seq<O> {
    Seq::new(
        before.len(),
        |i: int|
            if i < batches * (m * n) && i % n == 0 && row_of(m, n, i) < rows {
                O::narrow_spec(
                    gemv_at::<A, L, Rh>(lhs, rhs, batch_of(m, n, i), row_of(m, n, i)),
                )
            } else {
                before[i]
            },
    )
}

/// Batch and row of the position of an output row.
pub proof fn lemma_out_position(m: int, n: int, b: int, row: int)
    requires
        0 <= b,
        0 <= row < m,
        0 < n,
    ensures
        0 <= out_position(m, n, b, row) < (b + 1) * (m * n),
        out_position(m, n, b, row) % n == 0,
        batch_of(m, n, out_position(m, n, b, row)) == b,
        row_of(m, n, out_position(m, n, b, row)) == row,
{
    lemma_out_within(m, n, b, row);
    let q = b * m + row;
    assert(out_position(m, n, b, row) == q * n + 0) by (nonlinear_arith)
        requires
            q == b * m + row,
            out_position(m, n, b, row) == b * (m * n) + row * n,
    ;
    vstd::arithmetic::div_mod::lemma_fundamental_div_mod_converse(
        out_position(m, n, b, row),
        n,
        q,
        0,
    );
    vstd::arithmetic::div_mod::lemma_fundamental_div_mod_converse(q, m, b, row);
}

/// An entry of the first column stands at the position of its batch and row.
proof fn lemma_entry_of_first_column(m: int, n: int, batches: int, i: int)
    requires
        0 < m,
        0 < n,
        0 <= i < batches * (m * n),
        i % n == 0,
    ensures
        i == out_position(m, n, batch_of(m, n, i), row_of(m, n, i)),
        0 <= batch_of(m, n, i) < batches,
        0 <= row_of(m, n, i) < m,
{
    let q = i / n;
    vstd::arithmetic::div_mod::lemma_fundamental_div_mod(i, n);
    vstd::arithmetic::div_mod::lemma_fundamental_div_mod(q, m);
    let b = q / m;
    let row = q % m;
    assert(0 <= q) by {
        vstd::arithmetic::div_mod::lemma_div_pos_is_pos(i, n);
    }
    assert(0 <= b) by {
        vstd::arithmetic::div_mod::lemma_div_pos_is_pos(q, m);
    }
    assert(i == b * (m * n) + row * n) by (nonlinear_arith)
        requires
            i == n * q,
            q == m * b + row,
    ;
    let size = m * n;
    assert(0 < size) by (nonlinear_arith)
        requires
            0 < m,
            0 < n,
            size == m * n,
    ;
    assert(0 <= row * n) by (nonlinear_arith)
        requires
            0 <= row,
            0 < n,
    ;
    assert(b < batches) by (nonlinear_arith)
        requires
            i == b * size + row * n,
            i < batches * size,
            0 <= row * n,
            0 < size,
    {
        assert(b >= batches ==> b * size >= batches * size);
    }
}

/// A buffer in which the batches before `b`, and of batch `b` the rows before `row`,
/// are done, as far as `rows` rows go.
pub open spec fn gemv_progress<A: Real, L: Stored<A>, Rh: Stored<A>, O: Stored<A>>(
    before: Seq<O>,
    lhs: Operand<'_, L>,
    rhs: Operand<'_, Rh>,
    m: int,
    n: int,
    batches: int,
    rows: int,
    b: int,
    row: int,
) -> Seq<O> {
    let done = gemv_result::<A, L, Rh, O>(before, lhs, rhs, m, n, batches, rows);
    Seq::new(
        before.len(),
        |i: int|
            if batch_of(m, n, i) < b || batch_of(m, n, i) == b && row_of(m, n, i) < row {
                done[i]
            } else {
                before[i]
            },
    )
}

/// One unit's write takes the buffer one row further.
pub(crate) proof fn lemma_progress<A: Real, L: Stored<A>, Rh: Stored<A>, O: Stored<A>>(
    before: Seq<O>,
    after: Seq<O>,
    lhs: Operand<'_, L>,
    rhs: Operand<'_, Rh>,
    m: int,
    n: int,
    batches: int,
    rows: int,
    b: int,
    row: int,
)
    requires
        0 <= m,
        0 < n,
        0 <= b < batches,
        0 <= row < rows,
        batches * (m * n) <= before.len(),
        after.len() == before.len(),
        ({
            let now = gemv_progress::<A, L, Rh, O>(
                before,
                lhs,
                rhs,
                m,
                n,
                batches,
                rows,
                b,
                row,
            );
            forall|i: int|
                0 <= i < now.len() ==> #[trigger] after[i] == (if row < m && i == out_position(
                    m,
                    n,
                    b,
                    row,
                ) {
                    O::narrow_spec(gemv_at::<A, L, Rh>(lhs, rhs, b, row))
                } else {
                    now[i]
                })
        }),
    ensures
        after == gemv_progress::<A, L, Rh, O>(
            before,
            lhs,
            rhs,
            m,
            n,
            batches,
            rows,
            b,
            row + 1,
        ),
{
    let now = gemv_progress::<A, L, Rh, O>(before, lhs, rhs, m, n, batches, rows, b, row);
    let next = gemv_progress::<A, L, Rh, O>(before, lhs, rhs, m, n, batches, rows, b, row + 1);
    if row < m {
        lemma_out_position(m, n, b, row);
        lemma_batches_within(m, n, b, batches);
    }
    assert forall|i: int| 0 <= i < before.len() implies #[trigger] after[i] == next[i] by {
        if row < m && i == out_position(m, n, b, row) {
        } else if batch_of(m, n, i) == b && row_of(m, n, i) == row && i < batches * (m * n) && i % n
            == 0 {
            if m > 0 {
                lemma_entry_of_first_column(m, n, batches, i);
            } else {
                assert(batches * (m * n) == 0) by (nonlinear_arith)
                    requires
                        m == 0,
                ;
            }
        }
    }
    assert(after =~= next);
}

/// The matrices of the first batches take up no more than those of more of them.
pub(crate) proof fn lemma_batches_within(m: int, n: int, b: int, batches: int)
    requires
        0 <= m,
        0 < n,
        0 <= b < batches,
    ensures
        (b + 1) * (m * n) <= batches * (m * n),
{
    assert(0 <= m * n) by (nonlinear_arith)
        requires
            0 <= m,
            0 < n,
    ;
    let size = m * n;
    assert((b + 1) * size <= batches * size) by (nonlinear_arith)
        requires
            b + 1 <= batches,
            0 <= size,
    ;
}

} // verus!
