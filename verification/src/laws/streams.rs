//! Where codes and cells stand: a code is the bits of its place in the stream and no
//! others, and a matrix lies row by row.
use vstd::prelude::*;
use vstd::arithmetic::power2::pow2;
use crate::dense::{code_at, code_mask, field, lemma_field_bound, unit_words};
use crate::product::cell;
use crate::scheme::{blocks_fit, QuantLevel, QuantStore, QuantValue};

verus! {

/// Bit `b` of a field is the bit `b` behind its start.
proof fn lemma_field_bit(words: Seq<u32>, start: int, width: nat, b: nat)
    requires
        b < width,
    ensures
        (field(words, start, width) / pow2(b)) % 2 == ((words[(start + b) / 32] >> (((start + b)
            % 32) as u32)) & 1) as nat,
    decreases width,
{
    let n = field(words, start, width);
    let w = words[start / 32];
    let s = (start % 32) as u32;
    assert((w >> s) & 1 <= 1) by (bit_vector);
    let rest = field(words, start + 1, (width - 1) as nat);
    assert(n == ((w >> s) & 1) as nat + 2 * rest);
    if b == 0 {
        vstd::arithmetic::power2::lemma2_to64();
    } else {
        lemma_field_bit(words, start + 1, (width - 1) as nat, (b - 1) as nat);
        vstd::arithmetic::power2::lemma_pow2_unfold(b);
        vstd::arithmetic::power2::lemma_pow2_pos((b - 1) as nat);
        vstd::arithmetic::div_mod::lemma_div_denominator(
            n as int,
            2,
            pow2((b - 1) as nat) as int,
        );
        assert(n / 2 == rest);
    }
}

/// Code `j` of a stream has the bits that stand in the stream from bit `bits * j` on, the
/// low bit of a word first, and is below two to the power of its width.
pub proof fn law_code_is_its_bits(words: Seq<u32>, base: int, j: int, value: QuantValue, b: nat)
    requires
        b < value.bits(),
    ensures
        code_at(words, base, j, value) < pow2(value.bits()),
        ({
            let at = 32 * base + value.bits() * j + b;
            (code_at(words, base, j, value) / pow2(b)) % 2 == ((words[at / 32] >> ((at
                % 32) as u32)) & 1) as nat
        }),
{
    let start = 32 * base + value.bits() * j;
    lemma_field_bound(words, start, value.bits());
    lemma_field_bit(words, start, value.bits(), b);
}

/// A unit has as many words as its sixteen codes fill.
pub proof fn law_unit_words_are_filled(value: QuantValue)
    ensures
        32 * unit_words(value) <= 16 * value.bits() < 32 * (unit_words(value) + 1),
{
}

/// The mask of a width keeps what is below two to the power of the width, and nothing
/// else.
pub proof fn law_mask_keeps_codes(code: u32, bits: u32)
    requires
        1 <= bits <= 8,
    ensures
        (code & code_mask(bits)) < pow2(bits as nat),
        code < pow2(bits as nat) ==> code & code_mask(bits) == code,
        (code & code_mask(bits)) as int == code as int % pow2(bits as nat) as int,
{
    vstd::arithmetic::power2::lemma2_to64();
    let mask = code_mask(bits);
    let size = 1u32 << bits;
    assert((code & mask) < size && (code < size ==> code & mask == code) && (code & mask) == code
        % size) by (bit_vector)
        requires
            1 <= bits <= 8,
            size == 1u32 << bits,
            mask == ((1u32 << bits) - 1) as u32,
    ;
    assert(size as nat == pow2(bits as nat)) by {
        assert(1u32 << 1u32 == 2 && 1u32 << 2u32 == 4 && 1u32 << 3u32 == 8 && 1u32 << 4u32 == 16
            && 1u32 << 5u32 == 32 && 1u32 << 6u32 == 64 && 1u32 << 7u32 == 128 && 1u32 << 8u32
            == 256) by (bit_vector);
    }
}

/// The largest number of an integer range is the largest of a two's complement of its
/// width, whether the range is full or symmetric; those of the small floats are what
/// their exponents reach.
pub proof fn law_ranges_follow_from_widths(value: QuantValue)
    ensures
        value == QuantValue::Q8F || value == QuantValue::Q8S ==> pow2(value.bits()) == 256
            && value.largest() == 127,
        value == QuantValue::Q6F ==> pow2(value.bits()) == 64 && value.largest() == 31,
        value == QuantValue::Q4F || value == QuantValue::Q4S ==> pow2(value.bits()) == 16
            && value.largest() == 7,
        value == QuantValue::Q3F ==> pow2(value.bits()) == 8 && value.largest() == 3,
        value == QuantValue::Q2F || value == QuantValue::Q2S ==> pow2(value.bits()) == 4
            && value.largest() == 1,
        value == QuantValue::E4M3 ==> value.bits() == 1 + 4 + 3 && value.largest() == 7 * 64,
        value == QuantValue::E5M2 ==> value.bits() == 1 + 5 + 2 && value.largest() == 7 * 8192,
        value == QuantValue::E2M1 ==> value.bits() == 1 + 2 + 1 && value.largest() == 3 * 2,
        value.symmetric() == (value == QuantValue::Q8S || value == QuantValue::Q4S || value
            == QuantValue::Q2S),
{
    vstd::arithmetic::power2::lemma2_to64();
}

/// Cells of a matrix stand row by row, without gaps.
pub proof fn law_cells_stand_row_by_row<T>(s: Seq<T>, cols: int, row: int, col: int)
    ensures
        cell(s, cols, row, col) == s[row * cols + col],
{
}

/// Whether `a` is `q` times `b`.
pub open spec fn is_times(a: int, q: int, b: int) -> bool {
    a == q * b
}

/// Blocks fit where their innermost size is a multiple of what it must be divisible by.
pub proof fn law_blocks_fit_as_multiples(level: QuantLevel, div: usize)
    ensures
        level is Tensor ==> blocks_fit(level, div),
        level matches QuantLevel::Block(sizes) ==> (blocks_fit(level, div) == exists|q: int|
            is_times(sizes@.last() as int, q, div as int)),
{
    if let QuantLevel::Block(sizes) = level {
        lemma_multiple(sizes@.last() as int, div as int);
    }
}

/// A multiple leaves nothing over.
pub(crate) proof fn lemma_multiple(a: int, b: int)
    requires
        0 <= a,
        0 <= b,
    ensures
        (exists|q: int| is_times(a, q, b)) == (if b == 0 {
            a == 0
        } else {
            a % b == 0
        }),
{
    if b == 0 {
        if a == 0 {
            assert(is_times(a, 0, b));
        }
        if exists|q: int| is_times(a, q, b) {
            let q = choose|q: int| is_times(a, q, b);
            assert(q * b == 0) by (nonlinear_arith)
                requires
                    b == 0,
            ;
        }
    } else {
        vstd::arithmetic::div_mod::lemma_fundamental_div_mod(a, b);
        let own = a / b;
        assert(b * own == own * b) by (nonlinear_arith);
        if a % b == 0 {
            assert(is_times(a, own, b));
        }
        if exists|q: int| is_times(a, q, b) {
            let q = choose|q: int| is_times(a, q, b);
            vstd::arithmetic::div_mod::lemma_fundamental_div_mod_converse(a, b, q, 0);
        }
    }
}

/// Values are packed into words unless they are stored one by one or as the hardware
/// packs them.
pub proof fn law_packed_stores(store: QuantStore)
    ensures
        store.packed_u32() == !(store is Native || store is PackedNative),
{
}

} // verus!
