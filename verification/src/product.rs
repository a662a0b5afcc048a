//! The product of two quantized operands, one unit of the device per output.
use vstd::prelude::*;
use vstd::arithmetic::power2::pow2;
use crate::arith::{sum_of, Real, Stored};
use crate::codebook::Codebook;
use crate::dense::{code_at, dense_code, unit_words, words_per_unit, UNIT};
use crate::scheme::QuantValue;

verus! {

/// Entry (`row`, `col`) of a row-major matrix of `cols` columns.
pub open spec fn cell<T>(s: Seq<T>, cols: int, row: int, col: int) -> T {
    s[row * cols + col]
}

/// Row and column of a position in a row-major matrix.
pub proof fn lemma_position(row: int, col: int, rows: int, cols: int)
    requires
        0 <= row < rows,
        0 <= col < cols,
    ensures
        0 <= row * cols + col < rows * cols,
        (row * cols + col) / cols == row,
        (row * cols + col) % cols == col,
{
    assert(0 <= row * cols && row * cols + col < rows * cols) by (nonlinear_arith)
        requires
            0 <= row < rows,
            0 <= col < cols,
    ;
    vstd::arithmetic::div_mod::lemma_fundamental_div_mod_converse(
        row * cols + col,
        cols,
        row,
        col,
    );
}

/// First word of unit `u` of row `row`, for rows of `units` units.
pub open spec fn unit_base(row: int, units: int, u: int, value: QuantValue) -> int {
    (row * units + u) * unit_words(value)
}

/// Whether `words` and `scales` hold `rows` rows of `units` units.
pub open spec fn holds_rows<H>(
    words: Seq<u32>,
    scales: Seq<H>,
    rows: int,
    units: int,
    value: QuantValue,
) -> bool {
    &&& rows * units * unit_words(value) <= words.len()
    &&& rows * units <= scales.len()
}

/// The product of the centroids of code `j` of two units.
pub open spec fn centroid_product<R: Real>(
    table: Seq<R>,
    a_codes: Seq<u32>,
    a_base: int,
    w_codes: Seq<u32>,
    w_base: int,
    value: QuantValue,
) -> spec_fn(int) -> R {
    |j: int|
        table[code_at(a_codes, a_base, j, value) as int].times_spec(
            table[code_at(w_codes, w_base, j, value) as int],
        )
}

/// The contribution of unit `u` to output (`row`, `col`): the sum of its sixteen
/// centroid products, times the two scales.
pub open spec fn unit_product<R: Real, H: Stored<R>>(
    table: Seq<R>,
    a_codes: Seq<u32>,
    a_scales: Seq<H>,
    w_codes: Seq<u32>,
    w_scales: Seq<H>,
    row: int,
    col: int,
    units: int,
    value: QuantValue,
) -> spec_fn(int) -> R {
    |u: int|
        sum_of(
            centroid_product(
                table,
                a_codes,
                unit_base(row, units, u, value),
                w_codes,
                unit_base(col, units, u, value),
                value,
            ),
            16,
        ).times_spec(a_scales[row * units + u].widen_spec()).times_spec(
            w_scales[col * units + u].widen_spec(),
        )
}

/// Output (`row`, `col`) of the product.
pub open spec fn product_at<R: Real, H: Stored<R>>(
    table: Seq<R>,
    a_codes: Seq<u32>,
    a_scales: Seq<H>,
    w_codes: Seq<u32>,
    w_scales: Seq<H>,
    row: int,
    col: int,
    units: int,
    value: QuantValue,
) -> R {
    sum_of(
        unit_product(table, a_codes, a_scales, w_codes, w_scales, row, col, units, value),
        units,
    )
}

/// Unit `u` of a row lies within the buffer that holds the rows.
pub proof fn lemma_unit_within(row: int, rows: int, u: int, units: int, words: int)
    requires
        0 <= row < rows,
        0 <= u < units,
        0 <= words,
    ensures
        0 <= row * units,
        0 <= row * units + u < rows * units,
        0 <= (row * units + u) * words,
        (row * units + u) * words + words <= rows * units * words,
{
    assert(0 <= row * units && row * units + u < rows * units) by (nonlinear_arith)
        requires
            0 <= row < rows,
            0 <= u < units,
    ;
    let i = row * units + u;
    let n = rows * units;
    assert(0 <= i * words && i * words + words <= n * words) by (nonlinear_arith)
        requires
            0 <= i < n,
            0 <= words,
    ;
}

/// The unit of the device at `pos` computes output `pos` of the product: row
/// `pos / n`, column `pos % n`.
pub fn qa_matmul_kernel<R: Real, H: Stored<R>>(
    pos: usize,
    a_codes: &[u32],
    a_scales: &[H],
    w_codes: &[u32],
    w_scales: &[H],
    codebook: &Codebook<R>,
    m: usize,
    n: usize,
    k: usize,
    value: QuantValue,
) -> (acc: R)
    requires
        pos < m * n,
        k % 16 == 0,
        value.bits() % 2 == 0,
        codebook.0@.len() >= pow2(value.bits()),
        holds_rows(a_codes@, a_scales@, m as int, k as int / 16, value),
        holds_rows(w_codes@, w_scales@, n as int, k as int / 16, value),
    ensures
        acc == product_at(
            codebook.0@,
            a_codes@,
            a_scales@,
            w_codes@,
            w_scales@,
            pos as int / n as int,
            pos as int % n as int,
            k as int / 16,
            value,
        ),
{
    proof {
        assert(n > 0) by (nonlinear_arith)
            requires
                pos < m * n,
        ;
        vstd::arithmetic::div_mod::lemma_fundamental_div_mod(pos as int, n as int);
        assert((pos as int / n as int) < m) by (nonlinear_arith)
            requires
                pos < m * n,
                n > 0,
                pos == n * (pos as int / n as int) + pos as int % n as int,
                0 <= pos as int % n as int,
        ;
    }
    let mi: usize = pos / n;
    let ni: usize = pos % n;
    let units: usize = k / UNIT;
    let wpu: usize = words_per_unit(value);
    let ghost term = unit_product(
        codebook.0@,
        a_codes@,
        a_scales@,
        w_codes@,
        w_scales@,
        mi as int,
        ni as int,
        units as int,
        value,
    );
    let mut acc: R = R::decimal(0, 0);
    let mut u: usize = 0;
    while u < units
        invariant
            u <= units,
            units == k as int / 16,
            mi < m,
            ni < n,
            wpu == unit_words(value),
            value.bits() % 2 == 0,
            codebook.0@.len() >= pow2(value.bits()),
            holds_rows(a_codes@, a_scales@, m as int, units as int, value),
            holds_rows(w_codes@, w_scales@, n as int, units as int, value),
            term == unit_product(
                codebook.0@,
                a_codes@,
                a_scales@,
                w_codes@,
                w_scales@,
                mi as int,
                ni as int,
                units as int,
                value,
            ),
            acc == sum_of(term, u as int),
        decreases units - u,
    {
        proof {
            lemma_unit_within(mi as int, m as int, u as int, units as int, wpu as int);
            lemma_unit_within(ni as int, n as int, u as int, units as int, wpu as int);
            assert(a_codes@.len() == a_codes.len());
            assert(w_codes@.len() == w_codes.len());
            assert(a_scales@.len() == a_scales.len());
            assert(w_scales@.len() == w_scales.len());
        }
        let a_base: usize = (mi * units + u) * wpu;
        let w_base: usize = (ni * units + u) * wpu;
        let sa: R = a_scales[mi * units + u].widen();
        let sw: R = w_scales[ni * units + u].widen();
        let ghost product = centroid_product(
            codebook.0@,
            a_codes@,
            a_base as int,
            w_codes@,
            w_base as int,
            value,
        );
        let mut block: R = R::decimal(0, 0);
        let mut j: usize = 0;
        while j < UNIT
            invariant
                j <= UNIT,
                value.bits() % 2 == 0,
                codebook.0@.len() >= pow2(value.bits()),
                a_base + unit_words(value) <= a_codes@.len(),
                w_base + unit_words(value) <= w_codes@.len(),
                product == centroid_product(
                    codebook.0@,
                    a_codes@,
                    a_base as int,
                    w_codes@,
                    w_base as int,
                    value,
                ),
                block == sum_of(product, j as int),
            decreases UNIT - j,
        {
            proof {
                assert(value.bits() * (j + 1) <= value.bits() * 16) by (nonlinear_arith)
                    requires
                        j < 16,
                ;
            }
            let ai: u32 = dense_code(a_codes, a_base, j, value);
            let wi: u32 = dense_code(w_codes, w_base, j, value);
            block = block.plus(codebook.0[ai as usize].times(codebook.0[wi as usize]));
            j += 1;
        }
        acc = acc.plus(block.times(sa).times(sw));
        u += 1;
    }
    acc
}

} // verus!
