//! Structural facts of codebooks: level count, linear or table, bias.
use vstd::prelude::*;
use vstd::arithmetic::power2::pow2;
use crate::arith::{copy_all, Real};
use crate::scheme::QuantValue;

verus! {

/// The centroid table of a codebook, in ascending order. The caller owns the table
/// and chooses the format by passing the matching [`QuantValue`] with it.
#[derive(Debug)]
pub struct Codebook<R: Real>(pub Vec<R>);

impl<R: Real> Clone for Codebook<R> {
    fn clone(&self) -> (copy: Self)
        ensures
            copy.0@ == self.0@,
    {
        Codebook(copy_all(&self.0))
    }
}

/// Is this value a linear (affine offset-binary) codebook rather than a table?
pub fn is_linear(quant: QuantValue) -> (linear: bool)
    ensures
        linear == (quant == QuantValue::Q8F),
{
    matches!(quant, QuantValue::Q8F)
}

/// Number of reconstruction levels of a table codebook, two to the width.
pub fn num_levels(quant: QuantValue) -> (levels: usize)
    ensures
        levels == pow2(quant.bits()),
{
    let bits: usize = quant.size_bits();
    proof {
        vstd::arithmetic::power2::lemma2_to64();
        assert(1usize << 2usize == 4usize) by (bit_vector);
        assert(1usize << 3usize == 8usize) by (bit_vector);
        assert(1usize << 4usize == 16usize) by (bit_vector);
        assert(1usize << 6usize == 64usize) by (bit_vector);
        assert(1usize << 8usize == 256usize) by (bit_vector);
    }
    1usize << bits
}

/// Offset-binary bias of a linear codebook: a stored `raw` stands for `raw - bias`.
pub fn bias(quant: QuantValue) -> (offset: i32)
    ensures
        offset == (if quant == QuantValue::Q8F { 128int } else { 0 }),
{
    match quant {
        QuantValue::Q8F => 128,
        _ => 0,
    }
}

} // verus!
