//! The decode product of a single activation row: one plane per output column. A
//! cube stages the row once, normalized and rotated, for its eight columns.
use vstd::prelude::*;
use crate::arith::{one, sum_of, Real, Stored};
use crate::codebook::Codebook;
use crate::dense::{dense_code_dyn, unit_words, words_per_unit, UNIT};
use crate::grid::div_ceil;
use crate::panel::{block_of, cube_dot, cube_product, strided, widen_row, widened_row};
use crate::product::{holds_rows, lemma_unit_within};
use crate::rht::{rotate_plane, rotated, RhtSigns};
use crate::scheme::QuantValue;
use crate::weights::{reconstruct, table_fits, weight_at};

verus! {

/// The activation row, each value times its gain and stored.
pub open spec fn gained<R: Real, F: Stored<R>, S: Stored<R>>(
    a: Seq<F>,
    gamma: Seq<F>,
    k: int,
) -> Seq<S> {
    Seq::new(
        k as nat,
        |i: int| S::narrow_spec(a[i].widen_spec().times_spec(gamma[i].widen_spec())),
    )
}

/// The stored values of `x`, widened.
pub open spec fn widened<R: Real, S: Stored<R>>(x: Seq<S>) -> Seq<R> {
    x.map_values(|v: S| v.widen_spec())
}

/// Every whole block of `x`, rotated and stored.
pub open spec fn rotated_blocks<R: Real, S: Stored<R>>(x: Seq<R>, signs: Seq<R>) -> Seq<S> {
    Seq::new(
        (32 * (x.len() as int / 32)) as nat,
        |e: int| S::narrow_spec(rotated(block_of(x, e / 32), signs)[e % 32]),
    )
}

/// The staged activation row: each value times its gain where the row is normalized,
/// then rotated where there are signs.
pub open spec fn staged_row<R: Real, F: Stored<R>, S: Stored<R>>(
    a: Seq<F>,
    gamma: Seq<F>,
    signs: Seq<R>,
    k: int,
    do_norm: bool,
) -> Seq<S> {
    if do_norm {
        let g = gained::<R, F, S>(a, gamma, k);
        if signs.len() > 0 {
            rotated_blocks(widened::<R, S>(g), signs)
        } else {
            g
        }
    } else {
        let x = widened_row::<R, F>(a, 0, k);
        if signs.len() > 0 {
            rotated_blocks(x, signs)
        } else {
            Seq::new(k as nat, |e: int| S::narrow_spec(x[e]))
        }
    }
}

/// The root-mean-square scale of a row, one over the root of the mean square plus
/// 0.000001. It factors out of the product, so that it is applied at the end.
pub open spec fn norm_scale<R: Real>(x: Seq<R>) -> R {
    cube_dot(x, x, Seq::<R>::empty()).over_spec(R::decimal_spec(x.len() as i64, 0)).plus_spec(
        R::decimal_spec(1, 6),
    ).sqrt_spec().recip_spec()
}

/// What a lane adds up: every thirty-second element, the weight times the staged
/// activation.
pub open spec fn column_share<R: Real, S: Stored<R>>(
    w: spec_fn(int) -> R,
    staged: Seq<S>,
    lane: int,
) -> spec_fn(int) -> R {
    |i: int| w(lane + 32 * i).times_spec(staged[lane + 32 * i].widen_spec())
}

/// The product of a staged row with the weights `w`, summed over a plane.
pub open spec fn plane_dot<R: Real, S: Stored<R>>(w: spec_fn(int) -> R, staged: Seq<S>) -> R {
    R::plane_sum_spec(
        Seq::new(
            32,
            |lane: int|
                sum_of(column_share(w, staged, lane), strided(lane, 32, staged.len() as int)),
        ),
    )
}

/// Weight row `col`, by element.
pub open spec fn weights_of<R: Real, H: Stored<R>>(
    table: Seq<R>,
    w_codes: Seq<u32>,
    w_scales: Seq<H>,
    col: int,
    units: int,
    value: QuantValue,
) -> spec_fn(int) -> R {
    |e: int| weight_at(table, w_codes, w_scales, col, units, e, value)
}

/// Output `col` of the decode product.
pub open spec fn decode_at<R: Real, H: Stored<R>, F: Stored<R>, S: Stored<R>>(
    table: Seq<R>,
    w_codes: Seq<u32>,
    w_scales: Seq<H>,
    a: Seq<F>,
    gamma: Seq<F>,
    signs: Seq<R>,
    col: int,
    k: int,
    value: QuantValue,
    do_norm: bool,
) -> R {
    plane_dot(
        weights_of(table, w_codes, w_scales, col, k / 16, value),
        staged_row::<R, F, S>(a, gamma, signs, k, do_norm),
    ).times_spec(
        if do_norm {
            norm_scale(widened_row::<R, F>(a, 0, k))
        } else {
            one::<R>()
        },
    )
}

/// Rotates every whole block of `x`, a plane per block, and stores the result.
fn stage_rotated<R: Real, S: Stored<R>>(x: &Vec<R>, signs: &RhtSigns<R>) -> (out: Vec<S>)
    requires
        signs.0@.len() >= 32,
    ensures
        out@ == rotated_blocks::<R, S>(x@, signs.0@),
{
    let ghost all = rotated_blocks::<R, S>(x@, signs.0@);
    let k: usize = x.len();
    let nblk: usize = k / 32;
    let mut out: Vec<S> = Vec::new();
    let mut blk: usize = 0;
    while blk < nblk
        invariant
            blk <= nblk,
            k == x@.len(),
            nblk == k / 32,
            signs.0@.len() >= 32,
            all == rotated_blocks::<R, S>(x@, signs.0@),
            out@ == all.take(32 * blk),
        decreases nblk - blk,
    {
        let mut values: Vec<R> = Vec::new();
        let mut lane: usize = 0;
        while lane < 32
            invariant
                lane <= 32,
                blk < nblk,
                k == x@.len(),
                nblk == k / 32,
                values@ == block_of(x@, blk as int).take(lane as int),
            decreases 32 - lane,
        {
            values.push(x[blk * 32 + lane]);
            lane += 1;
            proof {
                let block = block_of(x@, blk as int);
                assert(block.take(lane as int) =~= block.take(lane - 1).push(block[lane - 1]));
            }
        }
        proof {
            assert(block_of(x@, blk as int).take(32) =~= block_of(x@, blk as int));
        }
        let rot: Vec<R> = rotate_plane(&values, signs);
        let mut lane: usize = 0;
        while lane < 32
            invariant
                lane <= 32,
                blk < nblk,
                k == x@.len(),
                nblk == k / 32,
                rot@ == rotated(block_of(x@, blk as int), signs.0@),
                rot@.len() == 32,
                all == rotated_blocks::<R, S>(x@, signs.0@),
                out@ == all.take(32 * blk + lane),
            decreases 32 - lane,
        {
            out.push(S::narrow(rot[lane]));
            proof {
                let e = 32 * blk + lane;
                assert(e / 32 == blk && e % 32 == lane);
                assert(all.take(e + 1) =~= all.take(e).push(all[e]));
            }
            lane += 1;
        }
        blk += 1;
    }
    proof {
        assert(all.take(32 * nblk) =~= all);
    }
    out
}

/// Multiplies the row by its gains and stores the result.
fn stage_gained<R: Real, F: Stored<R>, S: Stored<R>>(
    a: &[F],
    gamma: &[F],
    k: usize,
) -> (out: Vec<S>)
    requires
        k <= a@.len(),
        k <= gamma@.len(),
    ensures
        out@ == gained::<R, F, S>(a@, gamma@, k as int),
{
    let ghost all = gained::<R, F, S>(a@, gamma@, k as int);
    let mut out: Vec<S> = Vec::new();
    let mut i: usize = 0;
    while i < k
        invariant
            i <= k,
            k <= a@.len(),
            k <= gamma@.len(),
            all == gained::<R, F, S>(a@, gamma@, k as int),
            out@ == all.take(i as int),
        decreases k - i,
    {
        let hi: R = a[i].widen();
        out.push(S::narrow(hi.times(gamma[i].widen())));
        i += 1;
        proof {
            assert(all.take(i as int) =~= all.take(i - 1).push(all[i - 1]));
        }
    }
    proof {
        assert(all.take(k as int) =~= all);
    }
    out
}

/// Widens stored values.
fn widen_all<R: Real, S: Stored<R>>(x: &Vec<S>) -> (out: Vec<R>)
    ensures
        out@ == widened::<R, S>(x@),
{
    let ghost all = widened::<R, S>(x@);
    let mut out: Vec<R> = Vec::new();
    let mut i: usize = 0;
    while i < x.len()
        invariant
            i <= x@.len(),
            all == widened::<R, S>(x@),
            out@ == all.take(i as int),
        decreases x@.len() - i,
    {
        out.push(x[i].widen());
        i += 1;
        proof {
            assert(all.take(i as int) =~= all.take(i - 1).push(all[i - 1]));
        }
    }
    proof {
        assert(all.take(x@.len() as int) =~= all);
    }
    out
}

/// Stores values as they are.
fn stage_plain<R: Real, S: Stored<R>>(x: &Vec<R>) -> (out: Vec<S>)
    ensures
        out@ == Seq::new(x@.len(), |e: int| S::narrow_spec(x@[e])),
{
    let ghost all = Seq::new(x@.len(), |e: int| S::narrow_spec(x@[e]));
    let mut out: Vec<S> = Vec::new();
    let mut i: usize = 0;
    while i < x.len()
        invariant
            i <= x@.len(),
            all == Seq::new(x@.len(), |e: int| S::narrow_spec(x@[e])),
            out@ == all.take(i as int),
        decreases x@.len() - i,
    {
        out.push(S::narrow(x[i]));
        i += 1;
        proof {
            assert(all.take(i as int) =~= all.take(i - 1).push(all[i - 1]));
        }
    }
    proof {
        assert(all.take(x@.len() as int) =~= all);
    }
    out
}

/// Stages the activation row of a cube.
fn stage_row<R: Real, F: Stored<R>, S: Stored<R>>(
    a: &[F],
    gamma: &[F],
    signs: &RhtSigns<R>,
    k: usize,
    do_norm: bool,
) -> (out: Vec<S>)
    requires
        k <= a@.len(),
        do_norm ==> k <= gamma@.len(),
        signs.0@.len() == 0 || signs.0@.len() >= 32,
        signs.0@.len() > 0 ==> k % 32 == 0,
    ensures
        out@ == staged_row::<R, F, S>(a@, gamma@, signs.0@, k as int, do_norm),
        out@.len() == k,
{
    if do_norm {
        let g: Vec<S> = stage_gained(a, gamma, k);
        if signs.0.len() > 0 {
            let x: Vec<R> = widen_all(&g);
            stage_rotated(&x, signs)
        } else {
            g
        }
    } else {
        let x: Vec<R> = widen_row(a, 0, k);
        if signs.0.len() > 0 {
            stage_rotated(&x, signs)
        } else {
            stage_plain(&x)
        }
    }
}

/// The root-mean-square scale of a row.
fn rms_scale<R: Real>(x: &Vec<R>) -> (s: R)
    requires
        x@.len() <= u32::MAX,
    ensures
        s == norm_scale(x@),
{
    let none: RhtSigns<R> = RhtSigns(Vec::new());
    let tot: R = cube_product(x, x, &none);
    assert(none.0@ =~= Seq::<R>::empty());
    let mean: R = tot.over(R::decimal(x.len() as i64, 0)).plus(R::decimal(1, 6));
    mean.sqrt().recip()
}

/// The product of the staged row with weight row `col`, by the plane of the column.
/// Every lane dequantizes the weights that it reads.
fn column_product<R: Real, H: Stored<R>, S: Stored<R>>(
    col: usize,
    w_codes: &[u32],
    w_scales: &[H],
    codebook: &Codebook<R>,
    staged: &Vec<S>,
    n: usize,
    k: usize,
    value: QuantValue,
) -> (total: R)
    requires
        col < n,
        k % 16 == 0,
        value.bits() % 2 == 0,
        table_fits(codebook.0@, value),
        holds_rows(w_codes@, w_scales@, n as int, k as int / 16, value),
        staged@.len() == k,
    ensures
        total == plane_dot(
            weights_of(codebook.0@, w_codes@, w_scales@, col as int, k as int / 16, value),
            staged@,
        ),
{
    let units: usize = k / UNIT;
    let wpu: usize = words_per_unit(value);
    let ghost w = weights_of(codebook.0@, w_codes@, w_scales@, col as int, units as int, value);
    let ghost all = Seq::new(
        32,
        |lane: int| sum_of(column_share(w, staged@, lane), strided(lane, 32, k as int)),
    );
    let mut partials: Vec<R> = Vec::new();
    let mut lane: usize = 0;
    while lane < 32
        invariant
            lane <= 32,
            col < n,
            k == 16 * units,
            wpu == unit_words(value),
            value.bits() % 2 == 0,
            table_fits(codebook.0@, value),
            holds_rows(w_codes@, w_scales@, n as int, units as int, value),
            w == weights_of(codebook.0@, w_codes@, w_scales@, col as int, units as int, value),
            staged@.len() == k,
            all == Seq::new(
                32,
                |lane: int| sum_of(column_share(w, staged@, lane), strided(lane, 32, k as int)),
            ),
            partials@ == all.take(lane as int),
        decreases 32 - lane,
    {
        let ghost share = column_share(w, staged@, lane as int);
        let count: usize = if lane < k {
            div_ceil(k - lane, 32)
        } else {
            0
        };
        let mut partial: R = R::decimal(0, 0);
        let mut i: usize = 0;
        while i < count
            invariant
                i <= count,
                lane + 32 * (count - 1) < k,
                lane < 32,
                col < n,
                k == 16 * units,
                wpu == unit_words(value),
                value.bits() % 2 == 0,
                table_fits(codebook.0@, value),
                holds_rows(w_codes@, w_scales@, n as int, units as int, value),
                w == weights_of(
                    codebook.0@,
                    w_codes@,
                    w_scales@,
                    col as int,
                    units as int,
                    value,
                ),
                staged@.len() == k,
                share == column_share(w, staged@, lane as int),
                partial == sum_of(share, i as int),
            decreases count - i,
        {
            let p: usize = lane + 32 * i;
            let unit: usize = p / 16;
            let jj: u32 = (p % 16) as u32;
            proof {
                lemma_unit_within(col as int, n as int, unit as int, units as int, wpu as int);
                assert(w_codes@.len() == w_codes.len());
                assert(w_scales@.len() == w_scales.len());
                assert(value.bits() * (jj + 1) <= value.bits() * 16) by (nonlinear_arith)
                    requires
                        jj < 16,
                ;
            }
            let base: usize = (col * units + unit) * wpu;
            let raw: u32 = dense_code_dyn(w_codes, base, jj, value);
            let wq: R = reconstruct(raw, codebook, value);
            let sw: R = w_scales[col * units + unit].widen();
            partial = partial.plus(wq.times(sw).times(staged[p].widen()));
            i += 1;
        }
        partials.push(partial);
        lane += 1;
        proof {
            assert(all.take(lane as int) =~= all.take(lane - 1).push(all[lane - 1]));
        }
    }
    proof {
        assert(all.take(32) =~= all);
    }
    R::plane_sum(&partials)
}

/// Cube `cube` of the decode product: stages the row, then each of its eight planes
/// computes one column.
pub fn qa_gemv_kernel<R: Real, H: Stored<R>, F: Stored<R>, S: Stored<R>>(
    cube: usize,
    a: &[F],
    w_codes: &[u32],
    w_scales: &[H],
    out: &mut Vec<R>,
    gamma: &[F],
    codebook: &Codebook<R>,
    rht_signs: &RhtSigns<R>,
    n: usize,
    k: usize,
    value: QuantValue,
    do_norm: bool,
)
    requires
        8 * cube + 7 <= usize::MAX,
        k <= u32::MAX,
        k % 16 == 0,
        value.bits() % 2 == 0,
        table_fits(codebook.0@, value),
        rht_signs.0@.len() == 0 || rht_signs.0@.len() >= 32,
        rht_signs.0@.len() > 0 ==> k % 32 == 0,
        k <= a@.len(),
        do_norm ==> k <= gamma@.len(),
        holds_rows(w_codes@, w_scales@, n as int, k as int / 16, value),
        n <= old(out)@.len(),
    ensures
        final(out)@.len() == old(out)@.len(),
        forall|i: int|
            0 <= i < old(out)@.len() ==> #[trigger] final(out)@[i] == (if 8 * cube <= i < 8 * cube
                + 8 && i < n {
                decode_at::<R, H, F, S>(
                    codebook.0@,
                    w_codes@,
                    w_scales@,
                    a@,
                    gamma@,
                    rht_signs.0@,
                    i,
                    k as int,
                    value,
                    do_norm,
                )
            } else {
                old(out)@[i]
            }),
{
    let ghost before = out@;
    let staged: Vec<S> = stage_row(a, gamma, rht_signs, k, do_norm);
    let s: R = if do_norm {
        let x: Vec<R> = widen_row(a, 0, k);
        rms_scale(&x)
    } else {
        R::decimal(1, 0)
    };
    let mut warp: usize = 0;
    while warp < 8
        invariant
            warp <= 8,
            8 * cube + 7 <= usize::MAX,
            k % 16 == 0,
            value.bits() % 2 == 0,
            table_fits(codebook.0@, value),
            holds_rows(w_codes@, w_scales@, n as int, k as int / 16, value),
            staged@.len() == k,
            staged@ == staged_row::<R, F, S>(
                a@,
                gamma@,
                rht_signs.0@,
                k as int,
                do_norm,
            ),
            s == (if do_norm {
                norm_scale(widened_row::<R, F>(a@, 0, k as int))
            } else {
                one::<R>()
            }),
            out@.len() == before.len(),
            n <= before.len(),
            forall|i: int|
                0 <= i < before.len() ==> #[trigger] out@[i] == (if 8 * cube <= i < 8 * cube + warp
                    && i < n {
                    decode_at::<R, H, F, S>(
                        codebook.0@,
                        w_codes@,
                        w_scales@,
                        a@,
                        gamma@,
                        rht_signs.0@,
                        i,
                        k as int,
                        value,
                        do_norm,
                    )
                } else {
                    before[i]
                }),
        decreases 8 - warp,
    {
        let col: usize = cube * 8 + warp;
        if col < n {
            let total: R = column_product(
                col,
                w_codes,
                w_scales,
                codebook,
                &staged,
                n,
                k,
                value,
            );
            out[col] = total.times(s);
        }
        warp += 1;
    }
}

} // verus!
