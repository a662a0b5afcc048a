//! The products compute what they are written for: where no operation rounds, every
//! output is the inner product of an activation row and a weight row.
use vstd::prelude::*;
use crate::arith::{sum_of, Real, Stored};
use crate::dense::code_at;
use crate::exact::{
    lemma_sums, lemma_total_runs, lemma_total_scaled, multiplies, read, shifted, sums, total,
};
use crate::product::{centroid_product, product_at, unit_base, unit_product};
use crate::scheme::QuantValue;

verus! {

/// Element `e` of row `row` of a quantized operand: its centroid times the scale of
/// its unit.
pub open spec fn dequantized<R: Real, H: Stored<R>>(
    f: spec_fn(R) -> real,
    table: Seq<R>,
    codes: Seq<u32>,
    scales: Seq<H>,
    row: int,
    units: int,
    value: QuantValue,
) -> spec_fn(int) -> real {
    |e: int|
        f(table[code_at(codes, unit_base(row, units, e / 16, value), e % 16, value) as int]) * f(
            scales[row * units + e / 16].widen_spec(),
        )
}

/// The products of two rows, element by element.
pub open spec fn elementwise(
    x: spec_fn(int) -> real,
    y: spec_fn(int) -> real,
) -> spec_fn(int) -> real {
    |e: int| x(e) * y(e)
}

/// Whether no operation of unit `u` of output (`row`, `col`) rounds.
pub open spec fn unit_exact<R: Real, H: Stored<R>>(
    f: spec_fn(R) -> real,
    table: Seq<R>,
    a_codes: Seq<u32>,
    a_scales: Seq<H>,
    w_codes: Seq<u32>,
    w_scales: Seq<H>,
    row: int,
    col: int,
    units: int,
    value: QuantValue,
    u: int,
) -> bool {
    let a_base = unit_base(row, units, u, value);
    let w_base = unit_base(col, units, u, value);
    let term = centroid_product(table, a_codes, a_base, w_codes, w_base, value);
    let sa = a_scales[row * units + u].widen_spec();
    let sw = w_scales[col * units + u].widen_spec();
    &&& sums(f, term, 16)
    &&& forall|j: int|
        0 <= j < 16 ==> multiplies(
            f,
            table[#[trigger] code_at(a_codes, a_base, j, value) as int],
            table[code_at(w_codes, w_base, j, value) as int],
        )
    &&& multiplies(f, sum_of(term, 16), sa)
    &&& multiplies(f, sum_of(term, 16).times_spec(sa), sw)
}

/// Whether no operation of output (`row`, `col`) rounds.
pub open spec fn product_exact<R: Real, H: Stored<R>>(
    f: spec_fn(R) -> real,
    table: Seq<R>,
    a_codes: Seq<u32>,
    a_scales: Seq<H>,
    w_codes: Seq<u32>,
    w_scales: Seq<H>,
    row: int,
    col: int,
    units: int,
    value: QuantValue,
) -> bool {
    &&& sums(
        f,
        unit_product(table, a_codes, a_scales, w_codes, w_scales, row, col, units, value),
        units,
    )
    &&& forall|u: int|
        0 <= u < units ==> #[trigger] unit_exact(
            f,
            table,
            a_codes,
            a_scales,
            w_codes,
            w_scales,
            row,
            col,
            units,
            value,
            u,
        )
}

/// The scales of a unit, taken out of the sum, may as well stay with its elements.
proof fn lemma_unit_product<R: Real, H: Stored<R>>(
    f: spec_fn(R) -> real,
    table: Seq<R>,
    a_codes: Seq<u32>,
    a_scales: Seq<H>,
    w_codes: Seq<u32>,
    w_scales: Seq<H>,
    row: int,
    col: int,
    units: int,
    value: QuantValue,
    u: int,
)
    requires
        unit_exact(
            f,
            table,
            a_codes,
            a_scales,
            w_codes,
            w_scales,
            row,
            col,
            units,
            value,
            u,
        ),
    ensures
        f(
            unit_product(table, a_codes, a_scales, w_codes, w_scales, row, col, units, value)(u),
        ) == total(
            shifted(
                elementwise(
                    dequantized(f, table, a_codes, a_scales, row, units, value),
                    dequantized(f, table, w_codes, w_scales, col, units, value),
                ),
                16 * u,
            ),
            16,
        ),
{
    let a_base = unit_base(row, units, u, value);
    let w_base = unit_base(col, units, u, value);
    let term = centroid_product(table, a_codes, a_base, w_codes, w_base, value);
    let sa = f(a_scales[row * units + u].widen_spec());
    let sw = f(w_scales[col * units + u].widen_spec());
    let run = shifted(
        elementwise(
            dequantized(f, table, a_codes, a_scales, row, units, value),
            dequantized(f, table, w_codes, w_scales, col, units, value),
        ),
        16 * u,
    );
    let c = sa * sw;
    lemma_sums(f, term, 16);
    assert forall|j: int| 0 <= j < 16 implies #[trigger] run(j) == read(f, term)(j) * c by {
        let e = 16 * u + j;
        assert(e / 16 == u && e % 16 == j);
        let x = f(table[code_at(a_codes, a_base, j, value) as int]);
        let y = f(table[code_at(w_codes, w_base, j, value) as int]);
        assert(read(f, term)(j) == x * y);
        assert((x * sa) * (y * sw) == (x * y) * (sa * sw)) by (nonlinear_arith);
    }
    lemma_total_scaled(read(f, term), run, c, 16);
    let s = total(read(f, term), 16);
    assert(s * sa * sw == s * (sa * sw)) by (nonlinear_arith);
}

/// Where no operation rounds, output (`row`, `col`) of the product is the inner
/// product of dequantized row `row` of the activations and dequantized row `col` of
/// the weights.
pub proof fn law_product_is_inner_product<R: Real, H: Stored<R>>(
    f: spec_fn(R) -> real,
    table: Seq<R>,
    a_codes: Seq<u32>,
    a_scales: Seq<H>,
    w_codes: Seq<u32>,
    w_scales: Seq<H>,
    row: int,
    col: int,
    units: int,
    value: QuantValue,
)
    requires
        0 <= units,
        product_exact(
            f,
            table,
            a_codes,
            a_scales,
            w_codes,
            w_scales,
            row,
            col,
            units,
            value,
        ),
    ensures
        f(product_at(table, a_codes, a_scales, w_codes, w_scales, row, col, units, value))
            == total(
            elementwise(
                dequantized(f, table, a_codes, a_scales, row, units, value),
                dequantized(f, table, w_codes, w_scales, col, units, value),
            ),
            16 * units,
        ),
{
    let term = unit_product(table, a_codes, a_scales, w_codes, w_scales, row, col, units, value);
    let all = elementwise(
        dequantized(f, table, a_codes, a_scales, row, units, value),
        dequantized(f, table, w_codes, w_scales, col, units, value),
    );
    lemma_sums(f, term, units);
    assert forall|u: int| 0 <= u < units implies #[trigger] read(f, term)(u) == total(
        shifted(all, 16 * u),
        16,
    ) by {
        lemma_unit_product(
            f,
            table,
            a_codes,
            a_scales,
            w_codes,
            w_scales,
            row,
            col,
            units,
            value,
            u,
        );
    }
    lemma_total_runs(all, read(f, term), 16, units);
}

} // verus!
