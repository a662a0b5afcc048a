//! The weight-reuse product: one cube per column dequantizes the column once, then
//! all its units work together on every row.
use vstd::prelude::*;
use crate::arith::{sum_of, zero, Real, Stored};
use crate::codebook::Codebook;
use crate::dense::{dense_code, unit_words, words_per_unit, UNIT};
use crate::grid::{ceil_div, div_ceil};
use crate::product::{cell, holds_rows, lemma_position, lemma_unit_within, unit_base};
use crate::rht::{rotate_plane, rotated, RhtSigns};
use crate::scheme::QuantValue;
use crate::weights::{reconstruct, table_fits, weight_row};

verus! {

/// How many of `first`, `first + stride`, ... lie below `limit`.
pub open spec fn strided(first: int, stride: int, limit: int) -> int {
    if first < limit {
        ceil_div(limit - first, stride)
    } else {
        0
    }
}

/// The count is reached where the next index is the first at or beyond the limit.
pub proof fn lemma_strided(first: int, stride: int, limit: int, i: int)
    requires
        0 < stride,
        0 <= i,
        first + stride * i >= limit,
        i > 0 ==> first + stride * (i - 1) < limit,
    ensures
        i == strided(first, stride, limit),
{
    if first < limit {
        let gap = limit - first;
        assert(i > 0) by (nonlinear_arith)
            requires
                0 <= i,
                stride * i >= gap,
                gap > 0,
        ;
        assert(stride * (i - 1) == stride * i - stride) by (nonlinear_arith);
        assert(stride * i == i * stride) by (nonlinear_arith);
        vstd::arithmetic::div_mod::lemma_fundamental_div_mod_converse(
            gap + stride - 1,
            stride,
            i,
            gap + stride - 1 - stride * i,
        );
    } else {
        assert(i == 0) by (nonlinear_arith)
            requires
                0 <= i,
                0 < stride,
                first >= limit,
                i > 0 ==> first + stride * (i - 1) < limit,
        ;
    }
}

/// Row `row` of an activation matrix of `k` columns.
pub open spec fn widened_row<R: Real, F: Stored<R>>(a: Seq<F>, row: int, k: int) -> Seq<R> {
    Seq::new(k as nat, |c: int| a[row * k + c].widen_spec())
}

/// Block `blk` of a row.
pub open spec fn block_of<R: Real>(x: Seq<R>, blk: int) -> Seq<R> {
    x.subrange(32 * blk, 32 * blk + 32)
}

/// What lane `lane` of plane `warp` adds up where the activations are rotated: the
/// planes take the blocks in turn, eight apart.
pub open spec fn rotated_share<R: Real>(
    x: Seq<R>,
    w: Seq<R>,
    signs: Seq<R>,
    warp: int,
    lane: int,
) -> spec_fn(int) -> R {
    |i: int|
        rotated(block_of(x, warp + 8 * i), signs)[lane].times_spec(w[32 * (warp + 8 * i) + lane])
}

/// What unit `t` of a cube adds up where they are not: the units take the elements
/// in turn, 256 apart.
pub open spec fn plain_share<R: Real>(x: Seq<R>, w: Seq<R>, t: int) -> spec_fn(int) -> R {
    |i: int| x[t + 256 * i].times_spec(w[t + 256 * i])
}

/// The partial sum of lane `lane` of plane `warp`.
pub open spec fn lane_share<R: Real>(
    x: Seq<R>,
    w: Seq<R>,
    signs: Seq<R>,
    warp: int,
    lane: int,
) -> R {
    if signs.len() > 0 {
        sum_of(
            rotated_share(x, w, signs, warp, lane),
            strided(warp, 8, x.len() as int / 32),
        )
    } else {
        sum_of(
            plain_share(x, w, 32 * warp + lane),
            strided(32 * warp + lane, 256, x.len() as int),
        )
    }
}

/// The sum of a plane's lanes.
pub open spec fn plane_share<R: Real>(
    x: Seq<R>,
    w: Seq<R>,
    signs: Seq<R>,
) -> spec_fn(int) -> R {
    |warp: int| R::plane_sum_spec(Seq::new(32, |lane: int| lane_share(x, w, signs, warp, lane)))
}

/// The product of a row with a column as a cube computes it: the eight planes' sums,
/// added in order.
pub open spec fn cube_dot<R: Real>(x: Seq<R>, w: Seq<R>, signs: Seq<R>) -> R {
    sum_of(plane_share(x, w, signs), 8)
}

/// Dequantizes weight row `col`, every unit of the cube taking the sixteen-code
/// units that are 256 apart.
fn stage_weights<R: Real, H: Stored<R>>(
    col: usize,
    w_codes: &[u32],
    w_scales: &[H],
    codebook: &Codebook<R>,
    n: usize,
    k: usize,
    value: QuantValue,
) -> (w_col: Vec<R>)
    requires
        col < n,
        k % 16 == 0,
        value.bits() % 2 == 0,
        table_fits(codebook.0@, value),
        holds_rows(w_codes@, w_scales@, n as int, k as int / 16, value),
    ensures
        w_col@ == weight_row(codebook.0@, w_codes@, w_scales@, col as int, k as int / 16, value),
{
    let units: usize = k / UNIT;
    let wpu: usize = words_per_unit(value);
    let mut w_col: Vec<R> = Vec::new();
    let mut e: usize = 0;
    while e < k
        invariant
            e <= k,
            w_col@.len() == e,
        decreases k - e,
    {
        w_col.push(R::decimal(0, 0));
        e += 1;
    }
    let ghost row = weight_row(
        codebook.0@,
        w_codes@,
        w_scales@,
        col as int,
        units as int,
        value,
    );
    let mut t: usize = 0;
    while t < 256
        invariant
            t <= 256,
            col < n,
            k == 16 * units,
            wpu == unit_words(value),
            value.bits() % 2 == 0,
            table_fits(codebook.0@, value),
            holds_rows(w_codes@, w_scales@, n as int, units as int, value),
            row == weight_row(
                codebook.0@,
                w_codes@,
                w_scales@,
                col as int,
                units as int,
                value,
            ),
            w_col@.len() == k,
            forall|i: int|
                0 <= i < k && (i / 16) % 256 < t ==> #[trigger] w_col@[i] == row[i],
        decreases 256 - t,
    {
        let mut u: usize = t;
        while u < units
            invariant
                t < 256,
                u % 256 == t,
                col < n,
                k == 16 * units,
                wpu == unit_words(value),
                value.bits() % 2 == 0,
                table_fits(codebook.0@, value),
                holds_rows(w_codes@, w_scales@, n as int, units as int, value),
                row == weight_row(
                    codebook.0@,
                    w_codes@,
                    w_scales@,
                    col as int,
                    units as int,
                    value,
                ),
                w_col@.len() == k,
                u >= t,
                forall|i: int|
                    0 <= i < k && ((i / 16) % 256 < t || ((i / 16) % 256 == t && i / 16 < u))
                        ==> #[trigger] w_col@[i] == row[i],
            decreases units + 256 - u,
        {
            proof {
                lemma_unit_within(col as int, n as int, u as int, units as int, wpu as int);
                assert(w_codes@.len() == w_codes.len());
                assert(w_scales@.len() == w_scales.len());
            }
            let w_base: usize = (col * units + u) * wpu;
            let sw: R = w_scales[col * units + u].widen();
            let mut j: usize = 0;
            while j < UNIT
                invariant
                    j <= UNIT,
                    t < 256,
                    u < units,
                    u % 256 == t,
                    k == 16 * units,
                    value.bits() % 2 == 0,
                    table_fits(codebook.0@, value),
                    w_base == unit_base(col as int, units as int, u as int, value),
                    w_base + unit_words(value) <= w_codes@.len(),
                    sw == w_scales@[col * units + u].widen_spec(),
                    row == weight_row(
                        codebook.0@,
                        w_codes@,
                        w_scales@,
                        col as int,
                        units as int,
                        value,
                    ),
                    w_col@.len() == k,
                    forall|i: int|
                        0 <= i < k && ((i / 16) % 256 < t || ((i / 16) % 256 == t && i / 16 < u)
                            || (i / 16 == u && i % 16 < j)) ==> #[trigger] w_col@[i] == row[i],
                decreases UNIT - j,
            {
                proof {
                    assert(value.bits() * (j + 1) <= value.bits() * 16) by (nonlinear_arith)
                        requires
                            j < 16,
                    ;
                    assert((16 * u + j) / 16 == u && (16 * u + j) % 16 == j);
                }
                let raw: u32 = dense_code(w_codes, w_base, j, value);
                let wv: R = reconstruct(raw, codebook, value);
                w_col[u * 16 + j] = wv.times(sw);
                j += 1;
            }
            u += 256;
        }
        t += 1;
    }
    proof {
        assert(w_col@ =~= row);
    }
    w_col
}

/// Widens row `row` of the activations.
pub fn widen_row<R: Real, F: Stored<R>>(a: &[F], row: usize, k: usize) -> (x: Vec<R>)
    requires
        row * k + k <= a@.len(),
    ensures
        x@ == widened_row::<R, F>(a@, row as int, k as int),
{
    let ghost all = widened_row::<R, F>(a@, row as int, k as int);
    assert(a@.len() == a.len());
    let a_base: usize = row * k;
    let mut x: Vec<R> = Vec::new();
    let mut c: usize = 0;
    while c < k
        invariant
            c <= k,
            a_base == row * k,
            a_base + k <= a@.len(),
            a@.len() == a.len(),
            all == widened_row::<R, F>(a@, row as int, k as int),
            x@ == all.take(c as int),
        decreases k - c,
    {
        x.push(a[a_base + c].widen());
        c += 1;
        proof {
            assert(all.take(c as int) =~= all.take(c - 1).push(all[c - 1]));
        }
    }
    proof {
        assert(all.take(k as int) =~= all);
    }
    x
}

/// Thirty-two zeros, one per lane.
fn no_partials<R: Real>() -> (partials: Vec<R>)
    ensures
        partials@.len() == 32,
        forall|l: int| 0 <= l < 32 ==> #[trigger] partials@[l] == zero::<R>(),
{
    let mut partials: Vec<R> = Vec::new();
    let mut lane: usize = 0;
    while lane < 32
        invariant
            lane <= 32,
            partials@.len() == lane,
            forall|l: int| 0 <= l < lane ==> #[trigger] partials@[l] == zero::<R>(),
        decreases 32 - lane,
    {
        partials.push(R::decimal(0, 0));
        lane += 1;
    }
    partials
}

/// The partial sums of plane `warp` over rotated activations: the plane rotates a
/// block, one value per lane, and every lane multiplies its value with its weight.
fn rotated_partials<R: Real>(
    x: &Vec<R>,
    w_col: &Vec<R>,
    signs: &RhtSigns<R>,
    warp: usize,
) -> (partials: Vec<R>)
    requires
        warp < 8,
        x@.len() == w_col@.len(),
        signs.0@.len() >= 32,
    ensures
        partials@ == Seq::new(
            32,
            |lane: int| lane_share(x@, w_col@, signs.0@, warp as int, lane),
        ),
{
    let k: usize = x.len();
    let nblk: usize = k / 32;
    let mut partials: Vec<R> = no_partials();
    let mut blk: usize = warp;
    let ghost mut i: int = 0;
    while blk < nblk
        invariant
            warp < 8,
            0 <= i,
            blk == warp + 8 * i,
            i > 0 ==> warp + 8 * (i - 1) < nblk,
            k == x@.len(),
            nblk == k / 32,
            x@.len() == w_col@.len(),
            signs.0@.len() >= 32,
            partials@.len() == 32,
            forall|l: int|
                0 <= l < 32 ==> #[trigger] partials@[l] == sum_of(
                    rotated_share(x@, w_col@, signs.0@, warp as int, l),
                    i,
                ),
        decreases nblk + 8 - blk,
    {
        let mut values: Vec<R> = Vec::new();
        let mut lane: usize = 0;
        while lane < 32
            invariant
                lane <= 32,
                blk < nblk,
                k == x@.len(),
                nblk == k / 32,
                values@ == block_of(x@, blk as int).take(lane as int),
            decreases 32 - lane,
        {
            values.push(x[blk * 32 + lane]);
            lane += 1;
            proof {
                let all = block_of(x@, blk as int);
                assert(all.take(lane as int) =~= all.take(lane - 1).push(all[lane - 1]));
            }
        }
        proof {
            assert(block_of(x@, blk as int).take(32) =~= block_of(x@, blk as int));
        }
        let rot: Vec<R> = rotate_plane(&values, signs);
        let ghost before = partials@;
        let mut lane: usize = 0;
        while lane < 32
            invariant
                lane <= 32,
                blk < nblk,
                blk == warp + 8 * i,
                k == x@.len(),
                nblk == k / 32,
                x@.len() == w_col@.len(),
                rot@ == rotated(block_of(x@, blk as int), signs.0@),
                rot@.len() == 32,
                before.len() == 32,
                partials@.len() == 32,
                0 <= i,
                forall|l: int|
                    0 <= l < 32 ==> #[trigger] before[l] == sum_of(
                        rotated_share(x@, w_col@, signs.0@, warp as int, l),
                        i,
                    ),
                forall|l: int|
                    0 <= l < 32 ==> #[trigger] partials@[l] == (if l < lane {
                        sum_of(rotated_share(x@, w_col@, signs.0@, warp as int, l), i + 1)
                    } else {
                        before[l]
                    }),
            decreases 32 - lane,
        {
            let acc: R = partials[lane];
            partials[lane] = acc.plus(rot[lane].times(w_col[blk * 32 + lane]));
            lane += 1;
        }
        blk += 8;
        proof {
            i = i + 1;
        }
    }
    proof {
        lemma_strided(warp as int, 8, nblk as int, i);
        assert(partials@ =~= Seq::new(
            32,
            |lane: int| lane_share(x@, w_col@, signs.0@, warp as int, lane),
        ));
    }
    partials
}

/// The partial sums of plane `warp` over activations that are taken as they are.
fn plain_partials<R: Real>(
    x: &Vec<R>,
    w_col: &Vec<R>,
    signs: &RhtSigns<R>,
    warp: usize,
) -> (partials: Vec<R>)
    requires
        warp < 8,
        x@.len() == w_col@.len(),
        signs.0@.len() == 0,
    ensures
        partials@ == Seq::new(
            32,
            |lane: int| lane_share(x@, w_col@, signs.0@, warp as int, lane),
        ),
{
    let ghost all = Seq::new(
        32,
        |lane: int| lane_share(x@, w_col@, signs.0@, warp as int, lane),
    );
    let k: usize = x.len();
    let mut partials: Vec<R> = Vec::new();
    let mut lane: usize = 0;
    while lane < 32
        invariant
            lane <= 32,
            warp < 8,
            k == x@.len(),
            x@.len() == w_col@.len(),
            signs.0@.len() == 0,
            all == Seq::new(
                32,
                |lane: int| lane_share(x@, w_col@, signs.0@, warp as int, lane),
            ),
            partials@ == all.take(lane as int),
        decreases 32 - lane,
    {
        let t: usize = warp * 32 + lane;
        let ghost share = plain_share(x@, w_col@, t as int);
        let count: usize = if t < k {
            div_ceil(k - t, 256)
        } else {
            0
        };
        let mut acc: R = R::decimal(0, 0);
        let mut i: usize = 0;
        while i < count
            invariant
                i <= count,
                t + 256 * (count - 1) < k,
                k == x@.len(),
                x@.len() == w_col@.len(),
                share == plain_share(x@, w_col@, t as int),
                acc == sum_of(share, i as int),
            decreases count - i,
        {
            let c: usize = t + 256 * i;
            acc = acc.plus(x[c].times(w_col[c]));
            i += 1;
        }
        partials.push(acc);
        lane += 1;
        proof {
            assert(all.take(lane as int) =~= all.take(lane - 1).push(all[lane - 1]));
        }
    }
    proof {
        assert(all.take(32) =~= all);
    }
    partials
}

/// The product of a row with a dequantized column: every plane's lanes are summed,
/// then the planes' sums are.
pub fn cube_product<R: Real>(x: &Vec<R>, w_col: &Vec<R>, signs: &RhtSigns<R>) -> (total: R)
    requires
        x@.len() == w_col@.len(),
        signs.0@.len() == 0 || signs.0@.len() >= 32,
        signs.0@.len() > 0 ==> x@.len() % 32 == 0,
    ensures
        total == cube_dot(x@, w_col@, signs.0@),
{
    let ghost share = plane_share(x@, w_col@, signs.0@);
    let mut total: R = R::decimal(0, 0);
    let mut warp: usize = 0;
    while warp < 8
        invariant
            warp <= 8,
            x@.len() == w_col@.len(),
            signs.0@.len() == 0 || signs.0@.len() >= 32,
            share == plane_share(x@, w_col@, signs.0@),
            total == sum_of(share, warp as int),
        decreases 8 - warp,
    {
        let partials: Vec<R> = if signs.0.len() > 0 {
            rotated_partials(x, w_col, signs, warp)
        } else {
            plain_partials(x, w_col, signs, warp)
        };
        total = total.plus(R::plane_sum(&partials));
        warp += 1;
    }
    total
}

/// The cube of column `col`: dequantizes the column, then computes its entry of
/// every output row.
pub fn qa_gemm_panel_kernel<R: Real, H: Stored<R>, F: Stored<R>>(
    col: usize,
    a: &[F],
    w_codes: &[u32],
    w_scales: &[H],
    out: &mut Vec<R>,
    codebook: &Codebook<R>,
    rht_signs: &RhtSigns<R>,
    m: usize,
    n: usize,
    k: usize,
    value: QuantValue,
)
    requires
        col < n,
        k % 16 == 0,
        value.bits() % 2 == 0,
        table_fits(codebook.0@, value),
        rht_signs.0@.len() == 0 || rht_signs.0@.len() >= 32,
        rht_signs.0@.len() > 0 ==> k % 32 == 0,
        m * k <= a@.len(),
        holds_rows(w_codes@, w_scales@, n as int, k as int / 16, value),
        m * n <= old(out)@.len(),
    ensures
        final(out)@.len() == old(out)@.len(),
        forall|row: int|
            0 <= row < m ==> #[trigger] cell(final(out)@, n as int, row, col as int) == cube_dot(
                widened_row::<R, F>(a@, row, k as int),
                weight_row(
                    codebook.0@,
                    w_codes@,
                    w_scales@,
                    col as int,
                    k as int / 16,
                    value,
                ),
                rht_signs.0@,
            ),
        forall|i: int|
            0 <= i < old(out)@.len() && !(i < m * n && i % n as int == col)
                ==> #[trigger] final(out)@[i] == old(out)@[i],
{
    let w_col: Vec<R> = stage_weights(col, w_codes, w_scales, codebook, n, k, value);
    let ghost before = out@;
    let mut row: usize = 0;
    while row < m
        invariant
            row <= m,
            col < n,
            w_col@.len() == k,
            rht_signs.0@.len() == 0 || rht_signs.0@.len() >= 32,
            rht_signs.0@.len() > 0 ==> k % 32 == 0,
            m * k <= a@.len(),
            m * n <= before.len(),
            out@.len() == before.len(),
            forall|r: int|
                0 <= r < row ==> #[trigger] cell(out@, n as int, r, col as int) == cube_dot(
                    widened_row::<R, F>(a@, r, k as int),
                    w_col@,
                    rht_signs.0@,
                ),
            forall|i: int|
                0 <= i < before.len() && !(i < m * n && i % n as int == col)
                    ==> #[trigger] out@[i] == before[i],
        decreases m - row,
    {
        proof {
            assert(row * k + k <= m * k) by (nonlinear_arith)
                requires
                    row < m,
            ;
            lemma_position(row as int, col as int, m as int, n as int);
            assert(out@.len() == out.len());
        }
        let x: Vec<R> = widen_row(a, row, k);
        let tot: R = cube_product(&x, &w_col, rht_signs);
        let ghost prior = out@;
        out[row * n + col] = tot;
        proof {
            assert forall|r: int| 0 <= r < row + 1 implies #[trigger] cell(
                out@,
                n as int,
                r,
                col as int,
            ) == cube_dot(widened_row::<R, F>(a@, r, k as int), w_col@, rht_signs.0@) by {
                lemma_position(r, col as int, m as int, n as int);
                if r < row {
                    assert(cell(prior, n as int, r, col as int) == cell(
                        out@,
                        n as int,
                        r,
                        col as int,
                    ));
                }
            }
        }
        row += 1;
    }
}

} // verus!
