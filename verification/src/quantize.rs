//! Quantization of activations in rotated space: the transform of a block, a scale
//! per half-block, the nearest codes, and the dense packing of the block.
use vstd::prelude::*;
use vstd::arithmetic::power2::pow2;
use crate::arith::{one, sum_of, zero, Real, Stored};
use crate::codebook::{num_levels, Codebook};
use crate::dense::{code_at, field, low_mask, pack_block, BLOCK, UNIT};
use crate::rht::{rotate_block, rotated, RhtSigns};
use crate::scheme::QuantValue;

verus! {

/// The midpoint between centroid `i` and the next.
pub open spec fn boundary<R: Real>(table: Seq<R>, i: int) -> R {
    table[i].plus_spec(table[i + 1]).times_spec(R::decimal_spec(5, 1))
}

/// How many of the first `n` midpoints do not lie above `val`.
pub open spec fn passed<R: Real>(table: Seq<R>, val: R, n: int) -> nat
    decreases n,
{
    if n <= 0 {
        0
    } else {
        passed(table, val, n - 1) + if val.at_least_spec(boundary(table, n - 1)) {
            1nat
        } else {
            0
        }
    }
}

/// The index that stands for `val`: the number of midpoints that do not lie above
/// it.
pub open spec fn chosen<R: Real>(table: Seq<R>, val: R, value: QuantValue) -> nat {
    passed(table, val, pow2(value.bits()) - 1)
}

proof fn lemma_passed_bound<R: Real>(table: Seq<R>, val: R, n: int)
    requires
        n >= 0,
    ensures
        passed(table, val, n) <= n,
    decreases n,
{
    if n > 0 {
        lemma_passed_bound(table, val, n - 1);
    }
}

/// The index of a value is that of a level.
pub proof fn lemma_chosen_bound<R: Real>(table: Seq<R>, val: R, value: QuantValue)
    ensures
        chosen(table, val, value) < pow2(value.bits()),
{
    vstd::arithmetic::power2::lemma_pow2_pos(value.bits());
    lemma_passed_bound(table, val, pow2(value.bits()) - 1);
}

/// Returns the index of the centroid nearest to `val`.
pub fn choose_index<R: Real>(val: R, codebook: &Codebook<R>, value: QuantValue) -> (idx: u32)
    requires
        codebook.0@.len() >= pow2(value.bits()),
    ensures
        idx == chosen(codebook.0@, val, value),
        idx < pow2(value.bits()),
{
    let levels: usize = num_levels(value);
    proof {
        vstd::arithmetic::power2::lemma2_to64();
        lemma_chosen_bound(codebook.0@, val, value);
    }
    let mut idx: u32 = 0;
    let mut i: usize = 0;
    while i < levels - 1
        invariant
            1 <= levels <= 256,
            i <= levels - 1,
            levels <= codebook.0@.len(),
            idx == passed(codebook.0@, val, i as int),
            idx <= i,
        decreases levels - i,
    {
        let mid: R = codebook.0[i].plus(codebook.0[i + 1]).times(R::decimal(5, 1));
        if val.at_least(mid) {
            idx += 1;
        }
        i += 1;
    }
    idx
}

/// The smallest number that a scale is divided by.
pub open spec fn least<R: Real>() -> R {
    R::decimal_spec(1, 10)
}

/// One over the scale; zero where the scale vanishes.
pub open spec fn inverse<R: Real>(d: R) -> R {
    if d.exceeds_spec(least::<R>()) {
        one::<R>().over_spec(d)
    } else {
        zero::<R>()
    }
}

/// One over the scale; zero where the scale vanishes.
fn invert<R: Real>(d: R) -> (inv: R)
    ensures
        inv == inverse(d),
{
    if d.exceeds(R::decimal(1, 10)) {
        R::decimal(1, 0).over(d)
    } else {
        R::decimal(0, 0)
    }
}

/// The products of a half-block's values with those of another.
pub open spec fn products<R: Real>(x: Seq<R>, y: Seq<R>) -> spec_fn(int) -> R {
    |j: int| x[j].times_spec(y[j])
}

/// The first scale of a half-block, its root mean square.
pub open spec fn seed<R: Real>(half: Seq<R>) -> R {
    sum_of(products(half, half), 16).over_spec(R::decimal_spec(16, 0)).sqrt_spec()
}

/// The centroids that stand for the values of a half-block under scale `d`.
pub open spec fn centroids<R: Real>(
    table: Seq<R>,
    half: Seq<R>,
    d: R,
    value: QuantValue,
) -> Seq<R> {
    Seq::new(
        16,
        |j: int| table[chosen(table, half[j].times_spec(inverse(d)), value) as int],
    )
}

/// One step of the refinement: the scale that fits the chosen centroids best; the
/// same where the centroids vanish.
pub open spec fn refine_step<R: Real>(
    table: Seq<R>,
    half: Seq<R>,
    d: R,
    value: QuantValue,
) -> R {
    let c = centroids(table, half, d, value);
    let num = sum_of(products(half, c), 16);
    let den = sum_of(products(c, c), 16);
    if den.exceeds_spec(least::<R>()) {
        num.over_spec(den)
    } else {
        d
    }
}

/// The scale after `steps` steps.
pub open spec fn refined<R: Real>(
    table: Seq<R>,
    half: Seq<R>,
    steps: nat,
    value: QuantValue,
) -> R
    decreases steps,
{
    if steps == 0 {
        seed(half)
    } else {
        refine_step(table, half, refined(table, half, (steps - 1) as nat, value), value)
    }
}

/// Half `h` of a block.
pub open spec fn half_of<R: Real>(block: Seq<R>, h: int) -> Seq<R> {
    block.subrange(16 * h, 16 * h + 16)
}

/// The scale of half `h` of a rotated block: the seed, refined six times.
pub open spec fn half_scale<R: Real>(
    table: Seq<R>,
    block: Seq<R>,
    h: int,
    value: QuantValue,
) -> R {
    refined(table, half_of(block, h), 6, value)
}

/// Code `j` of a rotated block.
pub open spec fn block_code<R: Real>(
    table: Seq<R>,
    block: Seq<R>,
    j: int,
    value: QuantValue,
) -> nat {
    chosen(
        table,
        block[j].times_spec(inverse(half_scale(table, block, j / 16, value))),
        value,
    )
}

/// The sum of the products of a half-block.
fn sum_products<R: Real>(x: &Vec<R>, y: &Vec<R>) -> (sum: R)
    requires
        x@.len() == 16,
        y@.len() == 16,
    ensures
        sum == sum_of(products(x@, y@), 16),
{
    let ghost term = products(x@, y@);
    let mut sum: R = R::decimal(0, 0);
    let mut j: usize = 0;
    while j < UNIT
        invariant
            j <= UNIT,
            x@.len() == 16,
            y@.len() == 16,
            term == products(x@, y@),
            sum == sum_of(term, j as int),
        decreases UNIT - j,
    {
        sum = sum.plus(x[j].times(y[j]));
        j += 1;
    }
    sum
}

/// The scale of a half-block: root mean square, then six steps of refinement.
fn fit_scale<R: Real>(half: &Vec<R>, codebook: &Codebook<R>, value: QuantValue) -> (d: R)
    requires
        half@.len() == 16,
        codebook.0@.len() >= pow2(value.bits()),
    ensures
        d == refined(codebook.0@, half@, 6, value),
{
    let mut d: R = sum_products(half, half).over(R::decimal(16, 0)).sqrt();
    let mut iter: u32 = 0;
    while iter < 6
        invariant
            iter <= 6,
            half@.len() == 16,
            codebook.0@.len() >= pow2(value.bits()),
            d == refined(codebook.0@, half@, iter as nat, value),
        decreases 6 - iter,
    {
        let inv: R = invert(d);
        let ghost all = centroids(codebook.0@, half@, d, value);
        let mut c: Vec<R> = Vec::new();
        let mut j: usize = 0;
        while j < UNIT
            invariant
                j <= UNIT,
                half@.len() == 16,
                codebook.0@.len() >= pow2(value.bits()),
                inv == inverse(d),
                all == centroids(codebook.0@, half@, d, value),
                c@ == all.take(j as int),
            decreases UNIT - j,
        {
            let idx: u32 = choose_index(half[j].times(inv), codebook, value);
            c.push(codebook.0[idx as usize]);
            j += 1;
            proof {
                assert(all.take(j as int) =~= all.take(j - 1).push(all[j - 1]));
            }
        }
        proof {
            assert(all.take(16) =~= all);
        }
        let num: R = sum_products(half, &c);
        let den: R = sum_products(&c, &c);
        if den.exceeds(R::decimal(1, 10)) {
            d = num.over(den);
        }
        iter += 1;
    }
    d
}

/// Copies half `h` of a block.
fn copy_half<R: Real>(block: &Vec<R>, h: usize) -> (half: Vec<R>)
    requires
        block@.len() == 32,
        h < 2,
    ensures
        half@ == half_of(block@, h as int),
        half@.len() == 16,
{
    let ghost all = half_of(block@, h as int);
    let mut half: Vec<R> = Vec::new();
    let mut j: usize = 0;
    while j < UNIT
        invariant
            j <= UNIT,
            block@.len() == 32,
            h < 2,
            all == half_of(block@, h as int),
            half@ == all.take(j as int),
        decreases UNIT - j,
    {
        half.push(block[16 * h + j]);
        j += 1;
        proof {
            assert(all.take(j as int) =~= all.take(j - 1).push(all[j - 1]));
        }
    }
    proof {
        assert(all.take(16) =~= all);
    }
    half
}

/// Whether the words from `base` on hold the packed codes `code(0)`, ..., `code(31)`.
pub open spec fn holds_codes(
    words: Seq<u32>,
    base: int,
    value: QuantValue,
    code: spec_fn(int) -> nat,
) -> bool {
    forall|j: int| 0 <= j < 32 ==> #[trigger] code_at(words, base, j, value) == code(j)
}

/// A field does not depend on words that it does not reach.
proof fn lemma_field_moved(a: Seq<u32>, b: Seq<u32>, shift: int, start: int, width: nat)
    requires
        0 <= start,
        start + width <= 32 * a.len(),
        0 <= shift,
        shift + a.len() <= b.len(),
        forall|i: int| 0 <= i < a.len() ==> #[trigger] a[i] == b[shift + i],
    ensures
        field(a, start, width) == field(b, 32 * shift + start, width),
    decreases width,
{
    if width > 0 {
        let p = 32 * shift + start;
        assert(p / 32 == shift + start / 32 && p % 32 == start % 32);
        assert(a[start / 32] == b[shift + start / 32]);
        lemma_field_moved(a, b, shift, start + 1, (width - 1) as nat);
    }
}

/// Stores the words of a block.
fn store_words(
    words: &Vec<u32>,
    codes: &mut Vec<u32>,
    block: usize,
    value: QuantValue,
    Ghost(code): Ghost<spec_fn(int) -> nat>,
)
    requires
        words@.len() == value.bits(),
        (block + 1) * value.bits() <= old(codes)@.len(),
        holds_codes(words@, 0, value, code),
    ensures
        final(codes)@.len() == old(codes)@.len(),
        holds_codes(final(codes)@, block * value.bits(), value, code),
        forall|i: int|
            0 <= i < old(codes)@.len() && !(block * value.bits() <= i < (block + 1) * value.bits())
                ==> #[trigger] final(codes)@[i] == old(codes)@[i],
{
    let bits: usize = value.size_bits();
    let ghost before = codes@;
    assert((block + 1) * bits == block * bits + bits) by (nonlinear_arith);
    assert(codes@.len() == codes.len());
    let base: usize = block * bits;
    let mut w: usize = 0;
    while w < bits
        invariant
            w <= bits,
            words@.len() == bits,
            codes@.len() == before.len(),
            base + bits <= codes.len(),
            forall|i: int| 0 <= i < w ==> #[trigger] words@[i] == codes@[base + i],
            forall|i: int|
                0 <= i < before.len() && !(base <= i < base + w) ==> #[trigger] codes@[i]
                    == before[i],
        decreases bits - w,
    {
        codes[base + w] = words[w];
        w += 1;
    }
    proof {
        assert forall|j: int| 0 <= j < 32 implies #[trigger] code_at(codes@, base as int, j, value)
            == code(j) by {
            assert(code_at(words@, 0, j, value) == code(j));
            assert(0 <= bits * j && bits * j + bits <= 32 * bits) by (nonlinear_arith)
                requires
                    0 <= j < 32,
            ;
            lemma_field_moved(words@, codes@, base as int, bits * j, bits as nat);
        }
    }
}

/// Block `block` of the activations, rotated.
pub open spec fn rotated_block<R: Real>(hidden: Seq<R>, signs: Seq<R>, block: int) -> Seq<R> {
    rotated(hidden.subrange(32 * block, 32 * block + 32), signs)
}

/// Codes of a rotated block.
pub open spec fn table_codes<R: Real>(
    table: Seq<R>,
    block: Seq<R>,
    value: QuantValue,
) -> spec_fn(int) -> nat {
    |j: int| block_code(table, block, j, value)
}

/// Whether block `block` of the output holds the quantized activations: its codes,
/// and the scale of each half.
pub open spec fn table_quantized<R: Real, H: Stored<R>>(
    hidden: Seq<R>,
    codes: Seq<u32>,
    scales: Seq<H>,
    table: Seq<R>,
    signs: Seq<R>,
    block: int,
    value: QuantValue,
) -> bool {
    let x = rotated_block(hidden, signs, block);
    &&& holds_codes(codes, block * value.bits(), value, table_codes(table, x, value))
    &&& scales[2 * block] == H::narrow_spec(half_scale(table, x, 0, value))
    &&& scales[2 * block + 1] == H::narrow_spec(half_scale(table, x, 1, value))
}

/// A row of whole blocks starts at a block.
proof fn lemma_block_start(block: int, bpr: int)
    requires
        0 <= block,
        0 < bpr,
    ensures
        (block / bpr) * (32 * bpr) + (block % bpr) * 32 == 32 * block,
        0 <= block / bpr,
{
    vstd::arithmetic::div_mod::lemma_fundamental_div_mod(block, bpr);
    let q = block / bpr;
    assert(q * (32 * bpr) == 32 * (bpr * q)) by (nonlinear_arith);
    assert(0 <= q) by {
        vstd::arithmetic::div_mod::lemma_div_pos_is_pos(block, bpr);
    }
}

/// The unit of the device at `block` quantizes one block of thirty-two activations
/// to the table: rotation, root-mean-square seed and refinement of both scales,
/// nearest centroids, dense packing.
pub fn quantize_activations_kernel<R: Real, H: Stored<R>>(
    block: usize,
    hidden: &[R],
    codes: &mut Vec<u32>,
    scales: &mut Vec<H>,
    codebook: &Codebook<R>,
    rht_signs: &RhtSigns<R>,
    hidden_dim: usize,
    value: QuantValue,
)
    requires
        32 * (block + 1) <= hidden@.len(),
        hidden_dim > 0,
        hidden_dim % 32 == 0,
        codebook.0@.len() >= pow2(value.bits()),
        rht_signs.0@.len() >= 32,
        (block + 1) * value.bits() <= old(codes)@.len(),
        2 * (block + 1) <= old(scales)@.len(),
    ensures
        final(codes)@.len() == old(codes)@.len(),
        final(scales)@.len() == old(scales)@.len(),
        table_quantized(
            hidden@,
            final(codes)@,
            final(scales)@,
            codebook.0@,
            rht_signs.0@,
            block as int,
            value,
        ),
        forall|i: int|
            0 <= i < old(codes)@.len() && !(block * value.bits() <= i < (block + 1) * value.bits())
                ==> #[trigger] final(codes)@[i] == old(codes)@[i],
        forall|i: int|
            0 <= i < old(scales)@.len() && !(2 * block <= i < 2 * block + 2)
                ==> #[trigger] final(scales)@[i] == old(scales)@[i],
{
    let bpr: usize = hidden_dim / BLOCK;
    let row: usize = block / bpr;
    let b: usize = block % bpr;
    proof {
        lemma_block_start(block as int, bpr as int);
        assert(hidden@.len() == hidden.len());
        assert(scales@.len() == scales.len());
        assert(row * hidden_dim <= 32 * block);
    }
    let in_base: usize = row * hidden_dim + b * 32;
    let buf: Vec<R> = rotate_block(hidden, in_base, rht_signs);
    let lo: Vec<R> = copy_half(&buf, 0);
    let hi: Vec<R> = copy_half(&buf, 1);
    let d_lo: R = fit_scale(&lo, codebook, value);
    let d_hi: R = fit_scale(&hi, codebook, value);
    scales[block * 2] = H::narrow(d_lo);
    scales[block * 2 + 1] = H::narrow(d_hi);
    let fi_lo: R = invert(d_lo);
    let fi_hi: R = invert(d_hi);
    let ghost code = table_codes(codebook.0@, buf@, value);
    let mut indices: Vec<u32> = Vec::new();
    let mut j: usize = 0;
    while j < BLOCK
        invariant
            j <= BLOCK,
            buf@.len() == 32,
            codebook.0@.len() >= pow2(value.bits()),
            fi_lo == inverse(half_scale(codebook.0@, buf@, 0, value)),
            fi_hi == inverse(half_scale(codebook.0@, buf@, 1, value)),
            code == table_codes(codebook.0@, buf@, value),
            indices@.len() == j,
            forall|i: int|
                0 <= i < j ==> #[trigger] indices@[i] < pow2(value.bits()) && indices@[i] == code(
                    i,
                ),
        decreases BLOCK - j,
    {
        let inv: R = if j < 16 {
            fi_lo
        } else {
            fi_hi
        };
        let idx: u32 = choose_index(buf[j].times(inv), codebook, value);
        indices.push(idx);
        j += 1;
    }
    let words: Vec<u32> = pack_block(&indices, value);
    proof {
        assert forall|i: int| 0 <= i < 32 implies #[trigger] code_at(words@, 0, i, value) == code(
            i,
        ) by {
            assert(indices@[i] == code(i));
        }
    }
    store_words(&words, codes, block, value, Ghost(code));
}

/// How many blocks, words and scales `m` rows of `k` activations take.
pub proof fn lemma_blocks(m: int, k: int, bits: int)
    requires
        0 <= m,
        0 <= k,
        k % 32 == 0,
        1 <= bits,
    ensures
        m * k % 32 == 0,
        m * k / 16 == 2 * (m * k / 32),
        m * k * bits / 32 == m * k / 32 * bits,
        m * k / 32 > 0 ==> k > 0,
        0 <= m * k,
{
    let q = k / 32;
    let n = m * q;
    assert(m * k == 32 * n) by (nonlinear_arith)
        requires
            k == 32 * q,
            n == m * q,
    ;
    assert(0 <= n) by (nonlinear_arith)
        requires
            0 <= m,
            0 <= q,
            n == m * q,
    ;
    assert(m * k * bits == 32 * (n * bits)) by (nonlinear_arith)
        requires
            m * k == 32 * n,
    ;
    if k == 0 {
        assert(m * k == 0) by (nonlinear_arith)
            requires
                k == 0,
        ;
    }
}

/// The words of a block lie within those of all.
pub proof fn lemma_block_words(block: int, blocks: int, bits: int)
    requires
        0 <= block < blocks,
        1 <= bits,
    ensures
        0 <= block * bits,
        (block + 1) * bits == block * bits + bits,
        (block + 1) * bits <= blocks * bits,
{
    assert(0 <= block * bits && (block + 1) * bits == block * bits + bits && (block + 1) * bits
        <= blocks * bits) by (nonlinear_arith)
        requires
            0 <= block < blocks,
            1 <= bits,
    ;
}

/// The codes of a block stay when a later block is written.
pub proof fn lemma_block_kept(
    before: Seq<u32>,
    after: Seq<u32>,
    kept: int,
    written: int,
    value: QuantValue,
    code: spec_fn(int) -> nat,
)
    requires
        0 <= kept < written,
        written * value.bits() <= before.len(),
        after.len() == before.len(),
        holds_codes(before, kept * value.bits(), value, code),
        forall|i: int|
            0 <= i < before.len() && !(written * value.bits() <= i < (written + 1) * value.bits())
                ==> #[trigger] after[i] == before[i],
    ensures
        holds_codes(after, kept * value.bits(), value, code),
{
    let bits = value.bits() as int;
    lemma_block_words(kept, written, bits);
    let base = kept * bits;
    let words = before.subrange(base, base + bits);
    assert forall|j: int| 0 <= j < 32 implies #[trigger] code_at(after, base, j, value) == code(
        j,
    ) by {
        assert(code_at(before, base, j, value) == code(j));
        assert(0 <= bits * j && bits * j + bits <= 32 * bits) by (nonlinear_arith)
            requires
                0 <= j < 32,
                1 <= bits,
        ;
        lemma_field_moved(words, before, base, bits * j, bits as nat);
        lemma_field_moved(words, after, base, bits * j, bits as nat);
    }
}

/// The largest absolute value among the first `n` of a half-block; zero where none
/// exceeds it.
pub open spec fn peak<R: Real>(half: Seq<R>, n: int) -> R
    decreases n,
{
    if n <= 0 {
        zero::<R>()
    } else if half[n - 1].abs_spec().exceeds_spec(peak(half, n - 1)) {
        half[n - 1].abs_spec()
    } else {
        peak(half, n - 1)
    }
}

/// The symmetric scale of half `h` of a rotated block: the largest absolute value
/// over the largest code.
pub open spec fn symmetric_scale<R: Real>(block: Seq<R>, h: int, value: QuantValue) -> R {
    peak(half_of(block, h), 16).over_spec(R::decimal_spec(value.largest() as i64, 0))
}

/// `q`, held between the largest code and its negative.
pub open spec fn limited<R: Real>(q: R, value: QuantValue) -> R {
    let top = R::decimal_spec(value.largest() as i64, 0);
    let bottom = R::decimal_spec((-value.largest()) as i64, 0);
    let upper = if q.exceeds_spec(top) {
        top
    } else {
        q
    };
    if bottom.exceeds_spec(upper) {
        bottom
    } else {
        upper
    }
}

/// Code `j` of a rotated block under symmetric quantization: the rounded multiple of
/// the scale, in two's complement of the value's width.
pub open spec fn symmetric_code<R: Real>(block: Seq<R>, j: int, value: QuantValue) -> nat {
    let q = block[j].times_spec(inverse(symmetric_scale(block, j / 16, value))).round_spec();
    (limited(q, value).whole_spec() as int % pow2(value.bits()) as int) as nat
}

/// Codes of a rotated block under symmetric quantization.
pub open spec fn symmetric_codes<R: Real>(
    block: Seq<R>,
    value: QuantValue,
) -> spec_fn(int) -> nat {
    |j: int| symmetric_code(block, j, value)
}

/// Whether block `block` of the output holds the symmetrically quantized
/// activations: its codes, and the scale of each half.
pub open spec fn symmetric_quantized<R: Real, H: Stored<R>>(
    hidden: Seq<R>,
    codes: Seq<u32>,
    scales: Seq<H>,
    signs: Seq<R>,
    block: int,
    value: QuantValue,
) -> bool {
    let x = rotated_block(hidden, signs, block);
    &&& holds_codes(codes, block * value.bits(), value, symmetric_codes(x, value))
    &&& scales[2 * block] == H::narrow_spec(symmetric_scale(x, 0, value))
    &&& scales[2 * block + 1] == H::narrow_spec(symmetric_scale(x, 1, value))
}

/// The largest absolute value of a half-block.
fn find_peak<R: Real>(half: &Vec<R>) -> (top: R)
    requires
        half@.len() == 16,
    ensures
        top == peak(half@, 16),
{
    let mut top: R = R::decimal(0, 0);
    let mut j: usize = 0;
    while j < UNIT
        invariant
            j <= UNIT,
            half@.len() == 16,
            top == peak(half@, j as int),
        decreases UNIT - j,
    {
        let size: R = half[j].abs();
        if size.exceeds(top) {
            top = size;
        }
        j += 1;
    }
    top
}

/// Two to the 32nd vanishes modulo a smaller power of two.
proof fn lemma_wrap(q: int, m: int)
    requires
        m == 4 || m == 8 || m == 16 || m == 64 || m == 256,
    ensures
        (q + 0x1_0000_0000) % m == q % m,
{
    let times: int = if m == 4 {
        0x4000_0000
    } else if m == 8 {
        0x2000_0000
    } else if m == 16 {
        0x1000_0000
    } else if m == 64 {
        0x400_0000
    } else {
        0x100_0000
    };
    vstd::arithmetic::div_mod::lemma_mod_multiples_vanish(times, q, m);
}

/// The two's complement of `q` in the low `bits` bits.
fn wrap_code(q: i32, value: QuantValue) -> (code: u32)
    ensures
        code == q as int % pow2(value.bits()) as int,
        code < pow2(value.bits()),
{
    let bits: u32 = value.size_bits() as u32;
    let mask: u32 = low_mask(bits);
    let word: u32 = #[verifier::truncate] (q as u32);
    proof {
        vstd::arithmetic::power2::lemma2_to64();
        vstd::bits::lemma_u32_shl_is_mul(1, bits);
        vstd::bits::lemma_u32_low_bits_mask_is_mod(word, bits as nat);
        assert(word == (if q < 0 {
            q + 0x1_0000_0000
        } else {
            q as int
        })) by (bit_vector)
            requires
                word == q as u32,
        ;
        lemma_wrap(q as int, pow2(bits as nat) as int);
    }
    word & mask
}

/// The unit of the device at `block` quantizes one block of thirty-two activations
/// symmetrically: rotation, largest absolute value of both halves, rounding, dense
/// packing.
pub fn quantize_symmetric_activations_kernel<R: Real, H: Stored<R>>(
    block: usize,
    hidden: &[R],
    codes: &mut Vec<u32>,
    scales: &mut Vec<H>,
    rht_signs: &RhtSigns<R>,
    hidden_dim: usize,
    value: QuantValue,
)
    requires
        32 * (block + 1) <= hidden@.len(),
        hidden_dim > 0,
        hidden_dim % 32 == 0,
        rht_signs.0@.len() >= 32,
        (block + 1) * value.bits() <= old(codes)@.len(),
        2 * (block + 1) <= old(scales)@.len(),
    ensures
        final(codes)@.len() == old(codes)@.len(),
        final(scales)@.len() == old(scales)@.len(),
        symmetric_quantized(
            hidden@,
            final(codes)@,
            final(scales)@,
            rht_signs.0@,
            block as int,
            value,
        ),
        forall|i: int|
            0 <= i < old(codes)@.len() && !(block * value.bits() <= i < (block + 1) * value.bits())
                ==> #[trigger] final(codes)@[i] == old(codes)@[i],
        forall|i: int|
            0 <= i < old(scales)@.len() && !(2 * block <= i < 2 * block + 2)
                ==> #[trigger] final(scales)@[i] == old(scales)@[i],
{
    let bpr: usize = hidden_dim / BLOCK;
    let row: usize = block / bpr;
    let b: usize = block % bpr;
    proof {
        lemma_block_start(block as int, bpr as int);
        assert(hidden@.len() == hidden.len());
        assert(scales@.len() == scales.len());
        assert(row * hidden_dim <= 32 * block);
    }
    let in_base: usize = row * hidden_dim + b * 32;
    let buf: Vec<R> = rotate_block(hidden, in_base, rht_signs);
    let qmax: i64 = value.range_max() as i64;
    let top: R = R::decimal(qmax, 0);
    let bottom: R = R::decimal(-qmax, 0);
    let d_lo: R = find_peak(&copy_half(&buf, 0)).over(top);
    let d_hi: R = find_peak(&copy_half(&buf, 1)).over(top);
    scales[block * 2] = H::narrow(d_lo);
    scales[block * 2 + 1] = H::narrow(d_hi);
    let fi_lo: R = invert(d_lo);
    let fi_hi: R = invert(d_hi);
    let ghost code = symmetric_codes(buf@, value);
    let mut indices: Vec<u32> = Vec::new();
    let mut j: usize = 0;
    while j < BLOCK
        invariant
            j <= BLOCK,
            buf@.len() == 32,
            top == R::decimal_spec(value.largest() as i64, 0),
            bottom == R::decimal_spec((-value.largest()) as i64, 0),
            fi_lo == inverse(symmetric_scale(buf@, 0, value)),
            fi_hi == inverse(symmetric_scale(buf@, 1, value)),
            code == symmetric_codes(buf@, value),
            indices@.len() == j,
            forall|i: int|
                0 <= i < j ==> #[trigger] indices@[i] < pow2(value.bits()) && indices@[i] == code(
                    i,
                ),
        decreases BLOCK - j,
    {
        let inv: R = if j < 16 {
            fi_lo
        } else {
            fi_hi
        };
        let mut q: R = buf[j].times(inv).round();
        if q.exceeds(top) {
            q = top;
        }
        if bottom.exceeds(q) {
            q = bottom;
        }
        indices.push(wrap_code(q.whole(), value));
        j += 1;
    }
    let words: Vec<u32> = pack_block(&indices, value);
    proof {
        assert forall|i: int| 0 <= i < 32 implies #[trigger] code_at(words@, 0, i, value) == code(
            i,
        ) by {
            assert(indices@[i] == code(i));
        }
    }
    store_words(&words, codes, block, value, Ghost(code));
}

} // verus!
