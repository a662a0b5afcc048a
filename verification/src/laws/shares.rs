//! The planes and units of a cube share a sum among them, and no term is left out or
//! taken twice: where no operation rounds, the panel and the decode product are
//! plain inner products.
use vstd::prelude::*;
use crate::arith::{sum_of, Real, Stored};
use crate::exact::{
    column_sums, lemma_sums, lemma_total_plus, lemma_total_runs, lemma_total_same,
    lemma_total_swap, lemma_total_zero, multiplies, read, row_sums, shifted, sums, sums_plane,
    total,
};
use crate::gemv::{column_share, plane_dot};
use crate::panel::{
    block_of, cube_dot, lane_share, lemma_strided, plain_share, plane_share, rotated_share,
    strided,
};
use crate::rht::rotated;

verus! {

/// The terms `t`, `t + stride`, ...
pub open spec fn every(g: spec_fn(int) -> real, stride: int, t: int) -> spec_fn(int) -> real {
    |i: int| g(t + stride * i)
}

/// What each of `stride` workers adds up of the first `k` terms.
pub open spec fn worker_sums(g: spec_fn(int) -> real, stride: int, k: int) -> spec_fn(
    int,
) -> real {
    |t: int| total(every(g, stride, t), strided(t, stride, k))
}

/// A sum with one term that counts.
proof fn lemma_total_single(d: spec_fn(int) -> real, r: int, n: int)
    requires
        0 <= r < n,
        forall|t: int| 0 <= t < n && t != r ==> #[trigger] d(t) == 0 as real,
    ensures
        total(d, n) == d(r),
    decreases n,
{
    if r == n - 1 {
        lemma_total_zero(d, n - 1);
    } else {
        lemma_total_single(d, r, n - 1);
        assert(d(n - 1) == 0 as real);
    }
}

/// With one more term, one worker has one more.
proof fn lemma_strided_next(stride: int, k: int, t: int)
    requires
        0 < stride,
        0 <= k,
        0 <= t < stride,
    ensures
        t == k % stride ==> strided(t, stride, k) == k / stride && strided(t, stride, k + 1) == k
            / stride + 1 && t + stride * (k / stride) == k,
        t != k % stride ==> strided(t, stride, k + 1) == strided(t, stride, k),
        0 <= k / stride,
{
    vstd::arithmetic::div_mod::lemma_fundamental_div_mod(k, stride);
    vstd::arithmetic::div_mod::lemma_div_pos_is_pos(k, stride);
    let q = k / stride;
    let r = k % stride;
    assert(stride * (q + 1) == stride * q + stride && stride * (q - 1) == stride * q - stride)
        by (nonlinear_arith);
    if t == r {
        lemma_strided(t, stride, k, q);
        lemma_strided(t, stride, k + 1, q + 1);
    } else if t < r {
        lemma_strided(t, stride, k, q + 1);
        lemma_strided(t, stride, k + 1, q + 1);
    } else {
        lemma_strided(t, stride, k, q);
        lemma_strided(t, stride, k + 1, q);
    }
}

/// Workers that take every `stride`-th term take every term once.
pub proof fn lemma_workers(g: spec_fn(int) -> real, stride: int, k: int)
    requires
        0 < stride,
        0 <= k,
    ensures
        total(worker_sums(g, stride, k), stride) == total(g, k),
    decreases k,
{
    if k == 0 {
        assert forall|t: int| 0 <= t < stride implies #[trigger] worker_sums(g, stride, 0)(t)
            == 0 as real by {
        }
        lemma_total_zero(worker_sums(g, stride, 0), stride);
    } else {
        let j = k - 1;
        let r = j % stride;
        lemma_workers(g, stride, j);
        let more = |t: int|
            if t == r {
                g(j)
            } else {
                0 as real
            };
        assert forall|t: int| 0 <= t < stride implies #[trigger] worker_sums(g, stride, k)(t)
            == worker_sums(g, stride, j)(t) + more(t) by {
            lemma_strided_next(stride, j, t);
            if t == r {
                let own = every(g, stride, t);
                assert(total(own, j / stride + 1) == total(own, j / stride) + own(j / stride));
            }
        }
        lemma_total_plus(worker_sums(g, stride, j), more, worker_sums(g, stride, k), stride);
        lemma_total_single(more, r, stride);
    }
}

/// The products of two rows, element by element.
pub open spec fn products_of<R: Real>(
    f: spec_fn(R) -> real,
    x: spec_fn(int) -> R,
    y: spec_fn(int) -> R,
) -> spec_fn(int) -> real {
    |e: int| f(x(e)) * f(y(e))
}

/// A row, block for block rotated, by element.
pub open spec fn rotated_row<R: Real>(x: Seq<R>, signs: Seq<R>) -> spec_fn(int) -> R {
    |e: int| rotated(block_of(x, e / 32), signs)[e % 32]
}

/// A sequence, by element.
pub open spec fn entries<T>(x: Seq<T>) -> spec_fn(int) -> T {
    |e: int| x[e]
}

/// The partial sums of the lanes of plane `warp`.
pub open spec fn plane_lanes<R: Real>(
    x: Seq<R>,
    w: Seq<R>,
    signs: Seq<R>,
    warp: int,
) -> Seq<R> {
    Seq::new(32, |lane: int| lane_share(x, w, signs, warp, lane))
}

/// Whether no operation of a cube's product rounds.
pub open spec fn cube_exact<R: Real>(
    f: spec_fn(R) -> real,
    x: Seq<R>,
    w: Seq<R>,
    signs: Seq<R>,
) -> bool {
    &&& sums(f, plane_share(x, w, signs), 8)
    &&& forall|warp: int|
        0 <= warp < 8 ==> #[trigger] sums_plane(f, plane_lanes(x, w, signs, warp))
    &&& if signs.len() > 0 {
        &&& forall|warp: int, lane: int|
            0 <= warp < 8 && 0 <= lane < 32 ==> sums(
                f,
                #[trigger] rotated_share(x, w, signs, warp, lane),
                strided(warp, 8, x.len() as int / 32),
            )
        &&& forall|e: int|
            0 <= e < 32 * (x.len() as int / 32) ==> multiplies(
                f,
                #[trigger] rotated_row(x, signs)(e),
                w[e],
            )
    } else {
        &&& forall|t: int|
            0 <= t < 256 ==> sums(
                f,
                #[trigger] plain_share(x, w, t),
                strided(t, 256, x.len() as int),
            )
        &&& forall|e: int| 0 <= e < x.len() ==> multiplies(f, x[e], #[trigger] w[e])
    }
}

/// The number of strided indices, and the last of them.
proof fn lemma_strided_within(first: int, stride: int, limit: int, i: int)
    requires
        0 < stride,
        0 <= first,
        0 <= i < strided(first, stride, limit),
    ensures
        0 <= first + stride * i < limit,
{
    let gap = limit - first;
    let q = strided(first, stride, limit);
    vstd::arithmetic::div_mod::lemma_fundamental_div_mod(gap + stride - 1, stride);
    assert(0 <= stride * i < gap) by (nonlinear_arith)
        requires
            0 < stride,
            0 <= i < q,
            gap + stride - 1 == stride * q + (gap + stride - 1) % stride,
            0 <= (gap + stride - 1) % stride,
    {
        assert(stride * (i + 1) <= stride * q);
        assert(stride * (i + 1) == stride * i + stride);
    }
}

/// Where no operation rounds and there are no signs, the product that a cube computes
/// is the inner product of the row and the column.
pub proof fn law_panel_is_inner_product<R: Real>(
    f: spec_fn(R) -> real,
    x: Seq<R>,
    w: Seq<R>,
    signs: Seq<R>,
)
    requires
        signs.len() == 0,
        cube_exact(f, x, w, signs),
    ensures
        f(cube_dot(x, w, signs)) == total(
            products_of(f, entries(x), entries(w)),
            x.len() as int,
        ),
{
    let k = x.len() as int;
    let g = products_of(f, entries(x), entries(w));
    let workers = worker_sums(g, 256, k);
    let planes = plane_share(x, w, signs);
    lemma_sums(f, planes, 8);
    assert forall|warp: int| 0 <= warp < 8 implies #[trigger] read(f, planes)(warp) == total(
        shifted(workers, 32 * warp),
        32,
    ) by {
        let lanes = plane_lanes(x, w, signs, warp);
        assert(planes(warp) == R::plane_sum_spec(lanes));
        assert(sums_plane(f, lanes));
        let by_lane = |i: int| f(lanes[i]);
        assert forall|lane: int| 0 <= lane < 32 implies #[trigger] by_lane(lane) == shifted(
            workers,
            32 * warp,
        )(lane) by {
            let t = 32 * warp + lane;
            let own = plain_share(x, w, t);
            let n = strided(t, 256, k);
            assert(sums(f, own, n));
            lemma_sums(f, own, n);
            assert forall|i: int| 0 <= i < n implies #[trigger] read(f, own)(i) == every(
                g,
                256,
                t,
            )(i) by {
                lemma_strided_within(t, 256, k, i);
                let e = t + 256 * i;
                assert(multiplies(f, x[e], w[e]));
            }
            lemma_total_same(read(f, own), every(g, 256, t), n);
        }
        lemma_total_same(by_lane, shifted(workers, 32 * warp), 32);
    }
    lemma_total_runs(workers, read(f, planes), 32, 8);
    lemma_workers(g, 256, k);
}

/// Where no operation rounds, the product that a cube computes with signs is the inner
/// product of the rotated row and the column, as far as whole blocks go.
pub proof fn law_panel_rotates_the_row<R: Real>(
    f: spec_fn(R) -> real,
    x: Seq<R>,
    w: Seq<R>,
    signs: Seq<R>,
)
    requires
        signs.len() > 0,
        cube_exact(f, x, w, signs),
    ensures
        f(cube_dot(x, w, signs)) == total(
            products_of(f, rotated_row(x, signs), entries(w)),
            32 * (x.len() as int / 32),
        ),
{
    let nblk = x.len() as int / 32;
    let g = products_of(f, rotated_row(x, signs), entries(w));
    let blocks = |blk: int| total(shifted(g, 32 * blk), 32);
    let planes = plane_share(x, w, signs);
    lemma_sums(f, planes, 8);
    assert forall|warp: int| 0 <= warp < 8 implies #[trigger] read(f, planes)(warp) == worker_sums(
        blocks,
        8,
        nblk,
    )(warp) by {
        let lanes = plane_lanes(x, w, signs, warp);
        assert(planes(warp) == R::plane_sum_spec(lanes));
        assert(sums_plane(f, lanes));
        let by_lane = |i: int| f(lanes[i]);
        let n = strided(warp, 8, nblk);
        let grid = |lane: int, i: int| g(32 * (warp + 8 * i) + lane);
        assert forall|lane: int| 0 <= lane < 32 implies #[trigger] by_lane(lane) == row_sums(
            grid,
            n,
        )(lane) by {
            let own = rotated_share(x, w, signs, warp, lane);
            assert(sums(f, own, n));
            lemma_sums(f, own, n);
            let line = |i: int| grid(lane, i);
            assert forall|i: int| 0 <= i < n implies #[trigger] read(f, own)(i) == line(i) by {
                lemma_strided_within(warp, 8, nblk, i);
                let blk = warp + 8 * i;
                let e = 32 * blk + lane;
                assert(e / 32 == blk && e % 32 == lane);
                assert(multiplies(f, rotated_row(x, signs)(e), w[e]));
            }
            lemma_total_same(read(f, own), line, n);
        }
        lemma_total_same(by_lane, row_sums(grid, n), 32);
        assert(0 <= n) by {
            if warp < nblk {
                lemma_strided_count(warp, 8, nblk);
            }
        }
        lemma_total_swap(grid, 32, n);
        assert forall|i: int| 0 <= i < n implies #[trigger] column_sums(grid, 32)(i) == every(
            blocks,
            8,
            warp,
        )(i) by {
            let line = |lane: int| grid(lane, i);
            let run = shifted(g, 32 * (warp + 8 * i));
            assert forall|lane: int| 0 <= lane < 32 implies #[trigger] line(lane) == run(lane) by {
            }
            lemma_total_same(line, run, 32);
        }
        lemma_total_same(column_sums(grid, 32), every(blocks, 8, warp), n);
    }
    lemma_total_same(read(f, planes), worker_sums(blocks, 8, nblk), 8);
    lemma_workers(blocks, 8, nblk);
    lemma_total_runs(g, blocks, 32, nblk);
}

/// Counts are not negative.
proof fn lemma_strided_count(first: int, stride: int, limit: int)
    requires
        0 < stride,
        first < limit,
    ensures
        0 < strided(first, stride, limit),
{
    let gap = limit - first;
    let q = strided(first, stride, limit);
    vstd::arithmetic::div_mod::lemma_fundamental_div_mod(gap + stride - 1, stride);
    assert(0 < q) by (nonlinear_arith)
        requires
            0 < stride,
            0 < gap,
            gap + stride - 1 == stride * q + (gap + stride - 1) % stride,
            (gap + stride - 1) % stride < stride,
    ;
}

/// The staged row, by element, widened.
pub open spec fn staged_entries<R: Real, S: Stored<R>>(staged: Seq<S>) -> spec_fn(int) -> R {
    |e: int| staged[e].widen_spec()
}

/// The partial sums of the lanes of a plane over a staged row.
pub open spec fn column_lanes<R: Real, S: Stored<R>>(
    w: spec_fn(int) -> R,
    staged: Seq<S>,
) -> Seq<R> {
    Seq::new(
        32,
        |lane: int| sum_of(column_share(w, staged, lane), strided(lane, 32, staged.len() as int)),
    )
}

/// Whether no operation of a plane's product rounds.
pub open spec fn plane_exact<R: Real, S: Stored<R>>(
    f: spec_fn(R) -> real,
    w: spec_fn(int) -> R,
    staged: Seq<S>,
) -> bool {
    &&& sums_plane(f, column_lanes(w, staged))
    &&& forall|lane: int|
        0 <= lane < 32 ==> sums(
            f,
            #[trigger] column_share(w, staged, lane),
            strided(lane, 32, staged.len() as int),
        )
    &&& forall|e: int|
        0 <= e < staged.len() ==> multiplies(f, w(e), (#[trigger] staged[e]).widen_spec())
}

/// Where no operation rounds, the product that a plane computes is the inner product of
/// the weights and the staged row.
pub proof fn law_plane_is_inner_product<R: Real, S: Stored<R>>(
    f: spec_fn(R) -> real,
    w: spec_fn(int) -> R,
    staged: Seq<S>,
)
    requires
        plane_exact(f, w, staged),
    ensures
        f(plane_dot(w, staged)) == total(
            products_of(f, w, staged_entries(staged)),
            staged.len() as int,
        ),
{
    let k = staged.len() as int;
    let g = products_of(f, w, staged_entries(staged));
    let lanes = column_lanes(w, staged);
    assert(plane_dot(w, staged) == R::plane_sum_spec(lanes)) by {
        assert(lanes =~= Seq::new(
            32,
            |lane: int|
                sum_of(column_share(w, staged, lane), strided(lane, 32, staged.len() as int)),
        ));
    }
    let by_lane = |i: int| f(lanes[i]);
    assert forall|lane: int| 0 <= lane < 32 implies #[trigger] by_lane(lane) == worker_sums(
        g,
        32,
        k,
    )(lane) by {
        let own = column_share(w, staged, lane);
        let n = strided(lane, 32, k);
        assert(sums(f, own, n));
        lemma_sums(f, own, n);
        assert forall|i: int| 0 <= i < n implies #[trigger] read(f, own)(i) == every(g, 32, lane)(
            i,
        ) by {
            lemma_strided_within(lane, 32, k, i);
            let e = lane + 32 * i;
            assert(multiplies(f, w(e), staged[e].widen_spec()));
        }
        lemma_total_same(read(f, own), every(g, 32, lane), n);
    }
    lemma_total_same(by_lane, worker_sums(g, 32, k), 32);
    lemma_workers(g, 32, k);
}

} // verus!
