//! The forward chain: activations are quantized, and the product takes them as they
//! come.
use vstd::prelude::*;
use crate::arith::{Real, Stored};
use crate::exact::{lemma_total_same, total};
use crate::laws::layout::law_quantized_rows_are_ready;
use crate::laws::products::{
    dequantized, elementwise, law_product_is_inner_product, product_exact,
};
use crate::product::product_at;
use crate::quantize::{block_code, half_scale, rotated_block, table_quantized};
use crate::scheme::QuantValue;

verus! {

/// Element `e` of row `row` of the activations as the quantizer leaves it: the centroid
/// nearest to the rotated value, times the stored scale of its half-block.
pub open spec fn quantized_activation<R: Real, H: Stored<R>>(
    f: spec_fn(R) -> real,
    hidden: Seq<R>,
    table: Seq<R>,
    signs: Seq<R>,
    k: int,
    value: QuantValue,
    row: int,
) -> spec_fn(int) -> real {
    |e: int|
        {
            let x = rotated_block(hidden, signs, row * (k / 32) + e / 32);
            f(table[block_code(table, x, e % 32, value) as int]) * f(
                H::narrow_spec(half_scale(table, x, (e % 32) / 16, value)).widen_spec(),
            )
        }
}

/// Where no operation of the product rounds, quantizing the activations and multiplying
/// them gives the inner products of the quantized activations and the dequantized
/// weights.
pub proof fn law_forward_chain<R: Real, H: Stored<R>>(
    f: spec_fn(R) -> real,
    hidden: Seq<R>,
    table: Seq<R>,
    signs: Seq<R>,
    a_codes: Seq<u32>,
    a_scales: Seq<H>,
    w_codes: Seq<u32>,
    w_scales: Seq<H>,
    m: int,
    k: int,
    value: QuantValue,
    row: int,
    col: int,
)
    requires
        value.bits() % 2 == 0,
        0 <= k,
        k % 32 == 0,
        0 <= row < m,
        forall|block: int|
            0 <= block < m * k / 32 ==> #[trigger] table_quantized(
                hidden,
                a_codes,
                a_scales,
                table,
                signs,
                block,
                value,
            ),
        product_exact(
            f,
            table,
            a_codes,
            a_scales,
            w_codes,
            w_scales,
            row,
            col,
            k / 16,
            value,
        ),
    ensures
        f(product_at(table, a_codes, a_scales, w_codes, w_scales, row, col, k / 16, value))
            == total(
            elementwise(
                quantized_activation::<R, H>(f, hidden, table, signs, k, value, row),
                dequantized(f, table, w_codes, w_scales, col, k / 16, value),
            ),
            k,
        ),
{
    law_product_is_inner_product(
        f,
        table,
        a_codes,
        a_scales,
        w_codes,
        w_scales,
        row,
        col,
        k / 16,
        value,
    );
    let w = dequantized(f, table, w_codes, w_scales, col, k / 16, value);
    let read_back = elementwise(
        dequantized(f, table, a_codes, a_scales, row, k / 16, value),
        w,
    );
    let written = elementwise(
        quantized_activation::<R, H>(f, hidden, table, signs, k, value, row),
        w,
    );
    assert forall|e: int| 0 <= e < k implies #[trigger] read_back(e) == written(e) by {
        law_quantized_rows_are_ready(
            hidden,
            a_codes,
            a_scales,
            table,
            signs,
            m,
            k,
            value,
            row,
            e,
        );
    }
    lemma_total_same(read_back, written, k);
}

} // verus!
