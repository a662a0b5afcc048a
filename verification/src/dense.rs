//! Dense code streams: code `j` of a stream stands at bit `bits * j`, packed across
//! 32-bit words without padding, so that a code may straddle two words.
use vstd::prelude::*;
use crate::scheme::QuantValue;

verus! {

/// Number of codes that share one scale (a half-block).
pub const UNIT: usize = 16;

/// Number of codes in a block, two units.
pub const BLOCK: usize = 32;

/// Bit `pos` of a stream of 32-bit words, the low bit of a word first.
pub open spec fn stream_bit(words: Seq<u32>, pos: int) -> u32 {
    (words[pos / 32] >> ((pos % 32) as u32)) & 1
}

/// The number that `width` bits of the stream hold, from bit `start` on, the low
/// bit first.
pub open spec fn field(words: Seq<u32>, start: int, width: nat) -> nat
    decreases width,
{
    if width == 0 {
        0
    } else {
        stream_bit(words, start) as nat + 2 * field(words, start + 1, (width - 1) as nat)
    }
}

/// Code `j` of the stream that starts at word `base`.
pub open spec fn code_at(words: Seq<u32>, base: int, j: int, value: QuantValue) -> nat {
    field(words, 32 * base + value.bits() * j, value.bits())
}

/// Words that the stream of one unit takes.
pub open spec fn unit_words(value: QuantValue) -> nat {
    value.bits() * 16 / 32
}

/// The mask of the low `bits` bits.
pub open spec fn code_mask(bits: u32) -> u32 {
    ((1u32 << bits) - 1) as u32
}

/// A field is below two to the power of its width.
pub proof fn lemma_field_bound(words: Seq<u32>, start: int, width: nat)
    ensures
        field(words, start, width) < vstd::arithmetic::power2::pow2(width),
    decreases width,
{
    vstd::arithmetic::power2::lemma2_to64();
    if width > 0 {
        lemma_field_bound(words, start + 1, (width - 1) as nat);
        vstd::arithmetic::power2::lemma_pow2_unfold(width);
        let w = words[start / 32];
        let s = (start % 32) as u32;
        assert((w >> s) & 1 <= 1) by (bit_vector);
    }
}

/// A word whose bits are those of the stream, and which has no others, is the field.
pub(crate) proof fn lemma_field_of_bits(code: u32, words: Seq<u32>, start: int, width: u32)
    requires
        width <= 31,
        code >> width == 0,
        forall|b: u32| b < width ==> (#[trigger] (code >> b)) & 1 == stream_bit(words, start + b),
    ensures
        code as nat == field(words, start, width as nat),
    decreases width,
{
    if width == 0 {
        assert(code == 0) by (bit_vector)
            requires
                code >> 0u32 == 0,
        ;
    } else {
        let rest = code >> 1u32;
        let shorter = (width - 1) as u32;
        assert(rest >> shorter == 0) by (bit_vector)
            requires
                1 <= width <= 31,
                code >> width == 0,
                rest == code >> 1u32,
                shorter == width - 1,
        ;
        assert forall|b: u32| b < shorter implies (#[trigger] (rest >> b)) & 1 == stream_bit(
            words,
            start + 1 + b,
        ) by {
            let next = (b + 1) as u32;
            assert((rest >> b) & 1 == (code >> next) & 1) by (bit_vector)
                requires
                    b < 31,
                    next == b + 1,
                    rest == code >> 1u32,
            ;
        }
        lemma_field_of_bits(rest, words, start + 1, shorter);
        assert(code == ((code >> 0u32) & 1) + 2 * (code >> 1u32)) by (bit_vector);
    }
}

/// The bits of a code that one word holds.
proof fn lemma_window_within(lo: u32, off: u32, bits: u32, mask: u32, code: u32)
    requires
        off < 32,
        1 <= bits <= 8,
        off + bits <= 32,
        mask == code_mask(bits),
        code == (lo >> off) & mask,
    ensures
        code >> bits == 0,
        forall|b: u32| b < bits ==> (#[trigger] (code >> b)) & 1 == (lo >> ((off + b) as u32)) & 1,
{
    assert(code >> bits == 0) by (bit_vector)
        requires
            off < 32,
            1 <= bits <= 8,
            mask == ((1u32 << bits) - 1) as u32,
            code == (lo >> off) & mask,
    ;
    assert forall|b: u32| b < bits implies (#[trigger] (code >> b)) & 1 == (lo >> ((off
        + b) as u32)) & 1 by {
        assert((code >> b) & 1 == (lo >> ((off + b) as u32)) & 1) by (bit_vector)
            requires
                off < 32,
                1 <= bits <= 8,
                off + bits <= 32,
                b < bits,
                mask == ((1u32 << bits) - 1) as u32,
                code == (lo >> off) & mask,
        ;
    }
}

/// The bits of a code that straddles two words.
proof fn lemma_window_straddle(lo: u32, hi: u32, off: u32, bits: u32, mask: u32, code: u32)
    requires
        off < 32,
        1 <= bits <= 8,
        off + bits > 32,
        mask == code_mask(bits),
        code == ((lo >> off) | (hi << ((32 - off) as u32))) & mask,
    ensures
        code >> bits == 0,
        forall|b: u32|
            b < bits ==> (#[trigger] (code >> b)) & 1 == (if off + b < 32 {
                (lo >> ((off + b) as u32)) & 1
            } else {
                (hi >> ((off + b - 32) as u32)) & 1
            }),
{
    assert(code >> bits == 0) by (bit_vector)
        requires
            off < 32,
            1 <= bits <= 8,
            mask == ((1u32 << bits) - 1) as u32,
            code == ((lo >> off) | (hi << ((32 - off) as u32))) & mask,
    ;
    assert forall|b: u32| b < bits implies (#[trigger] (code >> b)) & 1 == (if off + b < 32 {
        (lo >> ((off + b) as u32)) & 1
    } else {
        (hi >> ((off + b - 32) as u32)) & 1
    }) by {
        assert((code >> b) & 1 == (if off + b < 32 {
            (lo >> ((off + b) as u32)) & 1
        } else {
            (hi >> ((off + b - 32) as u32)) & 1
        })) by (bit_vector)
            requires
                off < 32,
                1 <= bits <= 8,
                off + bits > 32,
                b < bits,
                mask == ((1u32 << bits) - 1) as u32,
                code == ((lo >> off) | (hi << ((32 - off) as u32))) & mask,
        ;
    }
}

/// Extracts code `j` from a dense stream starting at word `base`. A straddling
/// code takes its high bits from the next word.
pub fn dense_code(codes: &[u32], base: usize, j: usize, value: QuantValue) -> (code: u32)
    requires
        32 * base + value.bits() * (j + 1) <= 32 * codes@.len(),
        value.bits() * (j + 1) <= usize::MAX,
    ensures
        code == code_at(codes@, base as int, j as int, value),
        code < vstd::arithmetic::power2::pow2(value.bits()),
{
    let bits: usize = value.size_bits();
    proof {
        assert(bits * (j + 1) == bits * j + bits) by (nonlinear_arith);
        lemma_field_bound(codes@, 32 * base + value.bits() * j, value.bits());
        assert(codes@.len() == codes.len());
    }
    let word: usize = (j * bits) / 32;
    let bitoff: usize = (j * bits) % 32;
    let mask: u32 = low_mask(bits as u32);
    let off: u32 = bitoff as u32;
    let ghost start = 32 * base + bits * j;
    assert(start == 32 * (base + word) + bitoff) by {
        assert(j * bits == bits * j) by (nonlinear_arith);
    }
    let lo: u32 = codes[base + word] >> off;
    if bitoff + bits > 32 {
        let code: u32 = (lo | (codes[base + word + 1] << (32 - off))) & mask;
        proof {
            lemma_window_straddle(
                codes@[base + word],
                codes@[base + word + 1],
                off,
                bits as u32,
                mask,
                code,
            );
            lemma_field_of_bits(code, codes@, start, bits as u32);
        }
        code
    } else {
        let code: u32 = lo & mask;
        proof {
            lemma_window_within(codes@[base + word], off, bits as u32, mask, code);
            lemma_field_of_bits(code, codes@, start, bits as u32);
        }
        code
    }
}

/// Variant of [`dense_code`] for a code index that is known only at run time:
/// the word index, the bit offset and the straddle test are computed from `j`.
pub fn dense_code_dyn(codes: &[u32], base: usize, j: u32, value: QuantValue) -> (code: u32)
    requires
        32 * base + value.bits() * (j + 1) <= 32 * codes@.len(),
        value.bits() * (j + 1) <= u32::MAX,
    ensures
        code == code_at(codes@, base as int, j as int, value),
        code < vstd::arithmetic::power2::pow2(value.bits()),
{
    let bits: u32 = value.size_bits() as u32;
    proof {
        assert(bits * (j + 1) == bits * j + bits) by (nonlinear_arith);
        lemma_field_bound(codes@, 32 * base + value.bits() * j, value.bits());
        assert(codes@.len() == codes.len());
    }
    let mask: u32 = low_mask(bits);
    let bitpos: u32 = j * bits;
    let word: usize = (bitpos / 32) as usize;
    let off: u32 = bitpos % 32;
    let ghost start = 32 * base + bits * j;
    assert(start == 32 * (base + word) + off) by {
        assert(j * bits == bits * j) by (nonlinear_arith);
    }
    let lo: u32 = codes[base + word] >> off;
    if off + bits > 32 {
        let code: u32 = (lo | (codes[base + word + 1] << (32u32 - off))) & mask;
        proof {
            lemma_window_straddle(
                codes@[base + word],
                codes@[base + word + 1],
                off,
                bits,
                mask,
                code,
            );
            lemma_field_of_bits(code, codes@, start, bits);
        }
        code
    } else {
        let code: u32 = lo & mask;
        proof {
            lemma_window_within(codes@[base + word], off, bits, mask, code);
            lemma_field_of_bits(code, codes@, start, bits);
        }
        code
    }
}

/// Words per unit of sixteen codes.
pub fn words_per_unit(value: QuantValue) -> (words: usize)
    ensures
        words == unit_words(value),
{
    value.size_bits() * 16 / 32
}

/// Bit `b` of a code.
spec fn code_bit(code: u32, b: int) -> u32 {
    (code >> (b as u32)) & 1
}

/// Bit `b` of slot `i` of a stream of `bits`-wide slots.
spec fn slot_bit(words: Seq<u32>, bits: int, i: int, b: int) -> u32 {
    stream_bit(words, bits * i + b)
}

/// A code of the value's width has no bit beyond it.
pub(crate) proof fn lemma_code_fits(code: u32, bits: u32)
    requires
        bits <= 8,
        code < vstd::arithmetic::power2::pow2(bits as nat),
    ensures
        code >> bits == 0,
{
    vstd::arithmetic::power2::lemma2_to64();
    vstd::bits::lemma_u32_shl_is_mul(1, bits);
    assert(code >> bits == 0) by (bit_vector)
        requires
            bits <= 8,
            code < 1u32 << bits,
    ;
}

/// What or-ing a code into the low word, and its overhang into the next word,
/// does to every bit of the stream.
proof fn lemma_put(
    before: Seq<u32>,
    after: Seq<u32>,
    code: u32,
    word: int,
    off: u32,
    bits: u32,
    p: int,
)
    requires
        off < 32,
        1 <= bits <= 8,
        code >> bits == 0,
        0 <= word < before.len(),
        off + bits > 32 ==> word + 1 < before.len(),
        after.len() == before.len(),
        0 <= p < 32 * before.len(),
        after[word] == before[word] | (code << off),
        off + bits > 32 ==> after[word + 1] == before[word + 1] | (code >> ((32 - off) as u32)),
        forall|i: int|
            0 <= i < before.len() && i != word && !(i == word + 1 && off + bits > 32)
                ==> after[i] == before[i],
    ensures
        stream_bit(after, p) == (if 32 * word + off <= p < 32 * word + off + bits {
            stream_bit(before, p) | code_bit(code, p - 32 * word - off)
        } else {
            stream_bit(before, p)
        }),
{
    let q = (p % 32) as u32;
    if p / 32 == word {
        let old_word = before[word];
        let new_word = after[word];
        assert((new_word >> q) & 1 == (if off <= q < off + bits {
            ((old_word >> q) & 1) | ((code >> ((q - off) as u32)) & 1)
        } else {
            (old_word >> q) & 1
        })) by (bit_vector)
            requires
                off < 32,
                q < 32,
                1 <= bits <= 8,
                code >> bits == 0,
                new_word == old_word | (code << off),
        ;
    } else if p / 32 == word + 1 && off + bits > 32 {
        let old_word = before[word + 1];
        let new_word = after[word + 1];
        assert((new_word >> q) & 1 == (if q + 32 < off + bits {
            ((old_word >> q) & 1) | ((code >> ((q + 32 - off) as u32)) & 1)
        } else {
            (old_word >> q) & 1
        })) by (bit_vector)
            requires
                off < 32,
                q < 32,
                1 <= bits <= 8,
                off + bits > 32,
                code >> bits == 0,
                new_word == old_word | (code >> ((32 - off) as u32)),
        ;
    }
}

/// Positions of slots: slot `i` lies before, in, or behind slot `j`.
proof fn lemma_slot_position(bits: int, i: int, j: int, b: int, count: int)
    requires
        1 <= bits,
        0 <= i < count,
        0 <= j,
        0 <= b < bits,
    ensures
        0 <= bits * i + b < bits * count,
        i < j ==> bits * i + b < bits * j,
        i == j ==> bits * j <= bits * i + b < bits * j + bits,
        i > j ==> bits * i + b >= bits * j + bits,
{
    assert(bits * i + b < bits * count) by (nonlinear_arith)
        requires
            0 <= i < count,
            0 <= b < bits,
    ;
    assert(0 <= bits * i) by (nonlinear_arith)
        requires
            0 <= i,
            1 <= bits,
    ;
    if i < j {
        assert(bits * i + b < bits * j) by (nonlinear_arith)
            requires
                i < j,
                0 <= b < bits,
        ;
    }
    if i > j {
        assert(bits * i + b >= bits * j + bits) by (nonlinear_arith)
            requires
                i > j,
                0 <= b < bits,
        ;
    }
}

/// Packs the thirty-two codes of a block, code `j` at bit `bits * j`, into `bits`
/// words.
pub fn pack_block(codes: &Vec<u32>, value: QuantValue) -> (words: Vec<u32>)
    requires
        codes@.len() == BLOCK,
        forall|j: int|
            0 <= j < BLOCK ==> #[trigger] codes@[j] < vstd::arithmetic::power2::pow2(value.bits()),
    ensures
        words@.len() == value.bits(),
        forall|j: int| 0 <= j < BLOCK ==> #[trigger] code_at(words@, 0, j, value) == codes@[j],
{
    let bits: usize = value.size_bits();
    let mut words: Vec<u32> = Vec::new();
    let mut w: usize = 0;
    while w < bits
        invariant
            w <= bits,
            words@.len() == w,
            forall|i: int| 0 <= i < w ==> words@[i] == 0,
        decreases bits - w,
    {
        words.push(0);
        w += 1;
    }
    proof {
        assert forall|i: int, b: int| 0 <= i < 32 && 0 <= b < bits implies #[trigger] slot_bit(
            words@,
            bits as int,
            i,
            b,
        ) == 0 by {
            lemma_slot_position(bits as int, i, 0, b, 32);
            let q = ((bits * i + b) % 32) as u32;
            assert((0u32 >> q) & 1 == 0) by (bit_vector);
        }
    }
    let mut j: usize = 0;
    while j < BLOCK
        invariant
            j <= BLOCK,
            1 <= bits <= 8,
            bits == value.bits(),
            words@.len() == bits,
            codes@.len() == BLOCK,
            forall|i: int|
                0 <= i < BLOCK ==> #[trigger] codes@[i] < vstd::arithmetic::power2::pow2(
                    value.bits(),
                ),
            forall|i: int, b: int|
                0 <= i < 32 && 0 <= b < bits ==> #[trigger] slot_bit(words@, bits as int, i, b)
                    == (if i < j {
                    code_bit(codes@[i], b)
                } else {
                    0
                }),
        decreases BLOCK - j,
    {
        let idx: u32 = codes[j];
        assert(j * bits + bits <= 32 * bits && j * bits == bits * j) by (nonlinear_arith)
            requires
                j < 32,
        ;
        let word: usize = (j * bits) / 32;
        let bitoff: usize = (j * bits) % 32;
        let off: u32 = bitoff as u32;
        let ghost before = words@;
        words[word] = words[word] | (idx << off);
        if bitoff + bits > 32 {
            words[word + 1] = words[word + 1] | (idx >> (32 - off));
        }
        proof {
            lemma_code_fits(idx, bits as u32);
            assert forall|i: int, b: int| 0 <= i < 32 && 0 <= b < bits implies #[trigger] slot_bit(
                words@,
                bits as int,
                i,
                b,
            ) == (if i < j + 1 {
                code_bit(codes@[i], b)
            } else {
                0
            }) by {
                assert(slot_bit(before, bits as int, i, b) == (if i < j {
                    code_bit(codes@[i], b)
                } else {
                    0
                }));
                lemma_slot_position(bits as int, i, j as int, b, 32);
                lemma_put(before, words@, idx, word as int, off, bits as u32, bits * i + b);
                let c = code_bit(idx, b);
                assert(0u32 | c == c) by (bit_vector);
            }
        }
        j += 1;
    }
    proof {
        assert forall|i: int| 0 <= i < BLOCK implies #[trigger] code_at(words@, 0, i, value)
            == codes@[i] by {
            lemma_code_fits(codes@[i], bits as u32);
            assert forall|b: u32| b < bits implies (#[trigger] (codes@[i] >> b)) & 1 == stream_bit(
                words@,
                bits * i + b,
            ) by {
                assert(slot_bit(words@, bits as int, i, b as int) == code_bit(codes@[i], b as int));
            }
            lemma_field_of_bits(codes@[i], words@, bits * i, bits as u32);
        }
    }
    words
}

/// The mask of the low `bits` bits.
pub fn low_mask(bits: u32) -> (mask: u32)
    requires
        1 <= bits <= 8,
    ensures
        mask == code_mask(bits),
{
    assert(1u32 << bits >= 1) by (bit_vector)
        requires
            bits <= 8,
    ;
    (1u32 << bits) - 1
}

} // verus!
