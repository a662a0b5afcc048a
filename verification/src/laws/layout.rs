//! What the quantizers write, the products read: blocks of thirty-two codes and units of
//! sixteen are the same stream, and a code stands for the number that it was made of.
use vstd::prelude::*;
use vstd::arithmetic::power2::pow2;
use crate::arith::{Real, Stored};
use crate::dense::{code_at, lemma_code_fits, lemma_field_of_bits, stream_bit, unit_words};
use crate::product::unit_base;
use crate::quantize::{
    block_code, half_scale, inverse, limited, rotated_block, symmetric_code,
    symmetric_codes, symmetric_quantized, symmetric_scale, table_codes, table_quantized,
};
use crate::scheme::QuantValue;
use crate::weights::{signed_code, weight_at};

verus! {

/// A code whose bits stand in a stream from bit `bits * j` on, the low bit first, is code
/// `j` of the stream, whatever else the stream holds.
pub proof fn law_written_code_comes_back(
    words: Seq<u32>,
    base: int,
    j: int,
    code: u32,
    value: QuantValue,
)
    requires
        code < pow2(value.bits()),
        forall|b: u32|
            b < value.bits() ==> (#[trigger] (code >> b)) & 1 == stream_bit(
                words,
                32 * base + value.bits() * j + b,
            ),
    ensures
        code_at(words, base, j, value) == code,
{
    lemma_code_fits(code, value.bits() as u32);
    lemma_field_of_bits(code, words, 32 * base + value.bits() * j, value.bits() as u32);
}

/// Where the width is even, code `j` of a block is a code of one of its two units.
pub proof fn law_block_is_two_units(codes: Seq<u32>, block: int, j: int, value: QuantValue)
    requires
        value.bits() % 2 == 0,
        0 <= j < 32,
    ensures
        code_at(codes, block * value.bits(), j, value) == code_at(
            codes,
            (2 * block + j / 16) * unit_words(value),
            j % 16,
            value,
        ),
{
    let bits = value.bits() as int;
    let h = j / 16;
    let half = unit_words(value) as int;
    assert(bits == 2 * half);
    assert(32 * (block * bits) + bits * j == 32 * ((2 * block + h) * half) + bits * (j % 16))
        by (nonlinear_arith)
        requires
            bits == 2 * half,
            j == 16 * h + j % 16,
    ;
}

/// The unit and the block of element `e` of row `row`.
proof fn lemma_unit_of_row(row: int, k: int, e: int)
    requires
        0 <= row,
        k % 32 == 0,
        0 <= e < k,
    ensures
        row * (k / 16) + e / 16 == 2 * (row * (k / 32) + e / 32) + (e % 32) / 16,
        0 <= row * (k / 32) + e / 32,
        e % 16 == (e % 32) % 16,
{
    let q = k / 32;
    assert(k / 16 == 2 * q);
    assert(row * (2 * q) == 2 * (row * q)) by (nonlinear_arith);
    assert(0 <= row * q) by (nonlinear_arith)
        requires
            0 <= row,
            0 <= q,
    ;
}

/// The blocks of a row are blocks of the matrix.
proof fn lemma_block_of_row(row: int, m: int, k: int, e: int)
    requires
        0 <= row < m,
        k % 32 == 0,
        0 <= e < k,
    ensures
        0 <= row * (k / 32) + e / 32 < m * k / 32,
{
    let q = k / 32;
    assert(m * k == 32 * (m * q)) by (nonlinear_arith)
        requires
            k == 32 * q,
    ;
    assert(0 <= row * q && row * q + e / 32 < m * q) by (nonlinear_arith)
        requires
            0 <= row < m,
            0 <= e / 32 < q,
    ;
}

/// Activations that were quantized to a table are ready for the product: code and scale
/// of element `e` of row `row` are those of the element's place in its rotated block.
pub proof fn law_quantized_rows_are_ready<R: Real, H: Stored<R>>(
    hidden: Seq<R>,
    codes: Seq<u32>,
    scales: Seq<H>,
    table: Seq<R>,
    signs: Seq<R>,
    m: int,
    k: int,
    value: QuantValue,
    row: int,
    e: int,
)
    requires
        value.bits() % 2 == 0,
        k % 32 == 0,
        0 <= row < m,
        0 <= e < k,
        forall|block: int|
            0 <= block < m * k / 32 ==> #[trigger] table_quantized(
                hidden,
                codes,
                scales,
                table,
                signs,
                block,
                value,
            ),
    ensures
        ({
            let x = rotated_block(hidden, signs, row * (k / 32) + e / 32);
            &&& code_at(codes, unit_base(row, k / 16, e / 16, value), e % 16, value) == block_code(
                table,
                x,
                e % 32,
                value,
            )
            &&& scales[row * (k / 16) + e / 16] == H::narrow_spec(
                half_scale(table, x, (e % 32) / 16, value),
            )
        }),
{
    let block = row * (k / 32) + e / 32;
    let x = rotated_block(hidden, signs, block);
    lemma_block_of_row(row, m, k, e);
    lemma_unit_of_row(row, k, e);
    assert(table_quantized(hidden, codes, scales, table, signs, block, value));
    law_block_is_two_units(codes, block, e % 32, value);
    assert(code_at(codes, block * value.bits(), e % 32, value) == table_codes(table, x, value)(
        e % 32,
    ));
}

/// The whole number that element `j` of a rotated block is rounded to.
pub open spec fn symmetric_level<R: Real>(block: Seq<R>, j: int, value: QuantValue) -> i32 {
    limited(
        block[j].times_spec(inverse(symmetric_scale(block, j / 16, value))).round_spec(),
        value,
    ).whole_spec()
}

/// A number in the range of a two's complement of `bits` bits comes back from its code.
pub proof fn law_signed_code_comes_back(q: int, bits: nat)
    requires
        1 <= bits,
        -pow2((bits - 1) as nat) <= q < pow2((bits - 1) as nat),
    ensures
        signed_code(q % pow2(bits) as int, bits) == q,
{
    vstd::arithmetic::power2::lemma_pow2_unfold(bits);
    vstd::arithmetic::power2::lemma_pow2_pos((bits - 1) as nat);
    let m = pow2(bits) as int;
    if q >= 0 {
        vstd::arithmetic::div_mod::lemma_small_mod(q as nat, m as nat);
    } else {
        vstd::arithmetic::div_mod::lemma_fundamental_div_mod_converse(q, m, -1, q + m);
    }
}

/// Symmetrically quantized activations read back as they were rounded: element `e` of
/// row `row` stands for its whole number times its scale.
pub proof fn law_symmetric_rows_read_back<R: Real, H: Stored<R>>(
    hidden: Seq<R>,
    codes: Seq<u32>,
    scales: Seq<H>,
    table: Seq<R>,
    signs: Seq<R>,
    m: int,
    k: int,
    value: QuantValue,
    row: int,
    e: int,
)
    requires
        value.symmetric(),
        k % 32 == 0,
        0 <= row < m,
        0 <= e < k,
        forall|block: int|
            0 <= block < m * k / 32 ==> #[trigger] symmetric_quantized(
                hidden,
                codes,
                scales,
                signs,
                block,
                value,
            ),
        ({
            let x = rotated_block(hidden, signs, row * (k / 32) + e / 32);
            -value.largest() <= symmetric_level(x, e % 32, value) <= value.largest()
        }),
    ensures
        ({
            let x = rotated_block(hidden, signs, row * (k / 32) + e / 32);
            weight_at(table, codes, scales, row, k / 16, e, value) == R::decimal_spec(
                symmetric_level(x, e % 32, value) as i64,
                0,
            ).times_spec(H::narrow_spec(symmetric_scale(x, (e % 32) / 16, value)).widen_spec())
        }),
{
    let block = row * (k / 32) + e / 32;
    let x = rotated_block(hidden, signs, block);
    let j = e % 32;
    lemma_block_of_row(row, m, k, e);
    lemma_unit_of_row(row, k, e);
    assert(symmetric_quantized(hidden, codes, scales, signs, block, value));
    law_block_is_two_units(codes, block, j, value);
    assert(code_at(codes, block * value.bits(), j, value) == symmetric_codes(x, value)(j));
    vstd::arithmetic::power2::lemma2_to64();
    let q = symmetric_level(x, j, value) as int;
    law_signed_code_comes_back(q, value.bits());
    vstd::arithmetic::div_mod::lemma_mod_bound(q, pow2(value.bits()) as int);
    assert(symmetric_code(x, j, value) as int == q % pow2(value.bits()) as int);
}

/// Where the comparisons with the ends of the range are those of the numbers, and what
/// is left is whole, no level lies beyond the range.
pub proof fn law_symmetric_levels_are_limited<R: Real>(
    f: spec_fn(R) -> real,
    q: R,
    value: QuantValue,
)
    requires
        ({
            let top = R::decimal_spec(value.largest() as i64, 0);
            let bottom = R::decimal_spec((-value.largest()) as i64, 0);
            let upper = if q.exceeds_spec(top) {
                top
            } else {
                q
            };
            &&& f(top) == value.largest() as real
            &&& f(bottom) == (-value.largest()) as real
            &&& q.exceeds_spec(top) == (f(q) > f(top))
            &&& bottom.exceeds_spec(upper) == (f(bottom) > f(upper))
        }),
        f(limited(q, value)) == limited(q, value).whole_spec() as real,
    ensures
        -value.largest() <= limited(q, value).whole_spec() <= value.largest(),
{
}

} // verus!
