//! Dequantized weights: what a stored code stands for, times the scale of its unit.
use vstd::prelude::*;
use vstd::arithmetic::power2::pow2;
use crate::arith::{Real, Stored};
use crate::codebook::Codebook;
use crate::dense::code_at;
use crate::product::unit_base;
use crate::scheme::QuantValue;

verus! {

/// The number that a two's-complement code of `bits` bits stands for.
pub open spec fn signed_code(raw: int, bits: nat) -> int {
    if raw >= pow2((bits - 1) as nat) {
        raw - pow2(bits)
    } else {
        raw
    }
}

/// What the code `raw` stands for: itself as a signed number where the value is
/// symmetric, a centroid otherwise.
pub open spec fn reconstructed<R: Real>(table: Seq<R>, raw: int, value: QuantValue) -> R {
    if value.symmetric() {
        R::decimal_spec(signed_code(raw, value.bits()) as i64, 0)
    } else {
        table[raw]
    }
}

/// Whether the table has an entry for every code of the value; a symmetric value
/// reads none.
pub open spec fn table_fits<R: Real>(table: Seq<R>, value: QuantValue) -> bool {
    value.symmetric() || table.len() >= pow2(value.bits())
}

/// Element `e` of weight row `col`.
pub open spec fn weight_at<R: Real, H: Stored<R>>(
    table: Seq<R>,
    w_codes: Seq<u32>,
    w_scales: Seq<H>,
    col: int,
    units: int,
    e: int,
    value: QuantValue,
) -> R {
    reconstructed(
        table,
        code_at(w_codes, unit_base(col, units, e / 16, value), e % 16, value) as int,
        value,
    ).times_spec(w_scales[col * units + e / 16].widen_spec())
}

/// The first `16 * units` elements of weight row `col`.
pub open spec fn weight_row<R: Real, H: Stored<R>>(
    table: Seq<R>,
    w_codes: Seq<u32>,
    w_scales: Seq<H>,
    col: int,
    units: int,
    value: QuantValue,
) -> Seq<R> {
    Seq::new(
        (16 * units) as nat,
        |e: int| weight_at(table, w_codes, w_scales, col, units, e, value),
    )
}

/// Reconstructs a code.
pub fn reconstruct<R: Real>(raw: u32, codebook: &Codebook<R>, value: QuantValue) -> (r: R)
    requires
        raw < pow2(value.bits()),
        table_fits(codebook.0@, value),
    ensures
        r == reconstructed(codebook.0@, raw as int, value),
{
    if value.is_symmetric() {
        let bits: usize = value.size_bits();
        proof {
            vstd::arithmetic::power2::lemma2_to64();
            vstd::bits::lemma_u32_shl_is_mul(1, (bits - 1) as u32);
            vstd::bits::lemma_u32_shl_is_mul(1, bits as u32);
        }
        let sign_bit: u32 = 1u32 << (bits - 1);
        let two_pow: u32 = 1u32 << bits;
        let neg: i64 = if raw >= sign_bit {
            1
        } else {
            0
        };
        R::decimal(raw as i64 - neg * two_pow as i64, 0)
    } else {
        codebook.0[raw as usize]
    }
}

} // verus!
