//! The rotation keeps inner products, up to the rounding of its normalization, so that
//! it cancels where both operands are rotated.
use vstd::prelude::*;
use crate::arith::Real;
use crate::exact::{
    adds, lemma_total_plus, lemma_total_runs, lemma_total_same, lemma_total_scaled,
    lemma_total_split, multiplies, shifted, subtracts, total,
};
use crate::laws::shares::{
    cube_exact, entries, law_panel_rotates_the_row, products_of, rotated_row,
};
use crate::panel::{block_of, cube_dot};
use crate::rht::{butterfly, inv_sqrt32, is_step, rotated, stages, with_signs};

verus! {

/// The products of two blocks, element by element.
pub open spec fn block_products<R: Real>(f: spec_fn(R) -> real, u: Seq<R>, v: Seq<R>) -> spec_fn(
    int,
) -> real {
    |i: int| f(u[i]) * f(v[i])
}

/// The inner product of two blocks.
pub open spec fn block_inner<R: Real>(f: spec_fn(R) -> real, u: Seq<R>, v: Seq<R>) -> real {
    total(block_products(f, u, v), 32)
}

/// Whether position `i` of a butterfly stage does not round.
pub open spec fn wing_exact<R: Real>(f: spec_fn(R) -> real, s: Seq<R>, step: int, i: int) -> bool {
    if (i / step) % 2 == 0 {
        adds(f, s[i], s[i + step])
    } else {
        subtracts(f, s[i - step], s[i])
    }
}

/// Whether no operation of a butterfly stage rounds.
pub open spec fn stage_exact<R: Real>(f: spec_fn(R) -> real, s: Seq<R>, step: int) -> bool {
    forall|i: int| 0 <= i < 32 ==> #[trigger] wing_exact(f, s, step, i)
}

/// Whether no operation of the rotation of a block rounds.
pub open spec fn rotation_exact<R: Real>(
    f: spec_fn(R) -> real,
    x: Seq<R>,
    signs: Seq<R>,
) -> bool {
    let s = with_signs(x, signs);
    &&& forall|j: int| 0 <= j < 32 ==> multiplies(f, #[trigger] x[j], signs[j])
    &&& forall|step: int| is_step(step) ==> #[trigger] stage_exact(f, stages(s, step), step)
    &&& forall|j: int|
        0 <= j < 32 ==> multiplies(f, #[trigger] stages(s, 32)[j], inv_sqrt32::<R>())
}

/// A factor goes into a sum and into a difference.
proof fn lemma_spread(a: real, b: real, c: real)
    ensures
        (a + b) * c == a * c + b * c,
        (a - b) * c == a * c - b * c,
        c * (a + b) == a * c + b * c,
        c * (a - b) == a * c - b * c,
{
    assert((a + b) * c == a * c + b * c) by (nonlinear_arith);
    assert((a - b) * c == a * c - b * c) by (nonlinear_arith);
    assert(c * (a + b) == (a + b) * c) by (nonlinear_arith);
    assert(c * (a - b) == (a - b) * c) by (nonlinear_arith);
}

/// A sum and a difference keep the inner product of a pair, doubled.
proof fn lemma_wings(a: real, b: real, c: real, d: real)
    ensures
        (a + b) * (c + d) + (a - b) * (c - d) == a * c + a * c + (b * d + b * d),
{
    lemma_spread(a, b, c + d);
    lemma_spread(a, b, c - d);
    lemma_spread(c, d, a);
    lemma_spread(c, d, b);
    assert(c * a == a * c) by (nonlinear_arith);
    assert(d * b == b * d) by (nonlinear_arith);
}

/// A pair of positions of a butterfly stage keeps its inner product, doubled.
proof fn lemma_pair_inner<R: Real>(
    f: spec_fn(R) -> real,
    u: Seq<R>,
    v: Seq<R>,
    step: int,
    i: int,
)
    requires
        u.len() == 32,
        v.len() == 32,
        0 < step,
        0 <= i,
        i + step < 32,
        (i / step) % 2 == 0,
        ((i + step) / step) % 2 == 1,
        stage_exact(f, u, step),
        stage_exact(f, v, step),
    ensures
        ({
            let p = block_products(f, butterfly(u, step), butterfly(v, step));
            let q = block_products(f, u, v);
            p(i) + p(i + step) == q(i) + q(i) + (q(i + step) + q(i + step))
        }),
{
    assert(wing_exact(f, u, step, i) && wing_exact(f, v, step, i));
    assert(wing_exact(f, u, step, i + step) && wing_exact(f, v, step, i + step));
    lemma_wings(f(u[i]), f(u[i + step]), f(v[i]), f(v[i + step]));
}

/// Positions of the two halves of a group of pairs.
proof fn lemma_group_position(step: int, group: int, i: int)
    requires
        0 < step,
        0 <= i < step,
        0 <= group,
    ensures
        ((2 * step * group + i) / step) % 2 == 0,
        ((2 * step * group + i + step) / step) % 2 == 1,
        0 <= 2 * step * group,
{
    let at = 2 * step * group + i;
    assert(2 * step * group == (2 * group) * step && 0 <= 2 * step * group) by (nonlinear_arith)
        requires
            0 < step,
            0 <= group,
    ;
    vstd::arithmetic::div_mod::lemma_fundamental_div_mod_converse(at, step, 2 * group, i);
    assert((2 * group + 1) * step == (2 * group) * step + step) by (nonlinear_arith);
    vstd::arithmetic::div_mod::lemma_fundamental_div_mod_converse(
        at + step,
        step,
        2 * group + 1,
        i,
    );
}

/// A group of pairs keeps its inner product, doubled.
proof fn lemma_group_inner<R: Real>(
    f: spec_fn(R) -> real,
    u: Seq<R>,
    v: Seq<R>,
    step: int,
    group: int,
)
    requires
        u.len() == 32,
        v.len() == 32,
        0 < step,
        0 <= group,
        2 * step * group + 2 * step <= 32,
        stage_exact(f, u, step),
        stage_exact(f, v, step),
    ensures
        ({
            let p = block_products(f, butterfly(u, step), butterfly(v, step));
            let q = block_products(f, u, v);
            let start = 2 * step * group;
            total(shifted(p, start), 2 * step) == total(shifted(q, start), 2 * step) + total(
                shifted(q, start),
                2 * step,
            )
        }),
{
    let p = block_products(f, butterfly(u, step), butterfly(v, step));
    let q = block_products(f, u, v);
    let start = 2 * step * group;
    let (ps, qs) = (shifted(p, start), shifted(q, start));
    let (ph, qh) = (shifted(ps, step), shifted(qs, step));
    lemma_total_split(ps, step, step);
    lemma_total_split(qs, step, step);
    let both = |i: int| ps(i) + ph(i);
    let twice_low = |i: int| qs(i) + qs(i);
    let twice_high = |i: int| qh(i) + qh(i);
    assert forall|i: int| 0 <= i < step implies #[trigger] both(i) == twice_low(i) + twice_high(
        i,
    ) by {
        lemma_group_position(step, group, i);
        lemma_pair_inner(f, u, v, step, start + i);
    }
    lemma_total_plus(ps, ph, both, step);
    lemma_total_plus(twice_low, twice_high, both, step);
    lemma_total_plus(qs, qs, twice_low, step);
    lemma_total_plus(qh, qh, twice_high, step);
}

/// A butterfly stage keeps the inner product of two blocks, doubled.
proof fn lemma_stage_inner<R: Real>(
    f: spec_fn(R) -> real,
    u: Seq<R>,
    v: Seq<R>,
    step: int,
    groups: int,
)
    requires
        u.len() == 32,
        v.len() == 32,
        0 < step,
        0 <= groups,
        2 * step * groups == 32,
        stage_exact(f, u, step),
        stage_exact(f, v, step),
    ensures
        block_inner(f, butterfly(u, step), butterfly(v, step)) == block_inner(f, u, v)
            + block_inner(f, u, v),
{
    let p = block_products(f, butterfly(u, step), butterfly(v, step));
    let q = block_products(f, u, v);
    let p_groups = |g: int| total(shifted(p, 2 * step * g), 2 * step);
    let q_groups = |g: int| total(shifted(q, 2 * step * g), 2 * step);
    assert forall|g: int| 0 <= g < groups implies #[trigger] p_groups(g) == q_groups(g) + q_groups(
        g,
    ) by {
        assert(2 * step * g + 2 * step <= 2 * step * groups) by (nonlinear_arith)
            requires
                0 < step,
                g + 1 <= groups,
        ;
        lemma_group_inner(f, u, v, step, g);
    }
    lemma_total_plus(q_groups, q_groups, p_groups, groups);
    lemma_total_runs(p, p_groups, 2 * step, groups);
    lemma_total_runs(q, q_groups, 2 * step, groups);
}

/// All stages keep the inner product of two blocks, times thirty-two.
proof fn lemma_stages_inner<R: Real>(f: spec_fn(R) -> real, u: Seq<R>, v: Seq<R>)
    requires
        u.len() == 32,
        v.len() == 32,
        forall|step: int| is_step(step) ==> #[trigger] stage_exact(f, stages(u, step), step),
        forall|step: int| is_step(step) ==> #[trigger] stage_exact(f, stages(v, step), step),
    ensures
        block_inner(f, stages(u, 32), stages(v, 32)) == block_inner(f, u, v) * (32 as real),
        stages(u, 32).len() == 32,
        stages(v, 32).len() == 32,
{
    assert(stages(u, 1) == u && stages(v, 1) == v);
    assert(stage_exact(f, stages(u, 1), 1) && stage_exact(f, stages(v, 1), 1));
    lemma_stage_inner(f, stages(u, 1), stages(v, 1), 1, 16);
    assert(stages(u, 2) == butterfly(stages(u, 1), 1) && stages(v, 2) == butterfly(
        stages(v, 1),
        1,
    ));
    assert(stage_exact(f, stages(u, 2), 2) && stage_exact(f, stages(v, 2), 2));
    lemma_stage_inner(f, stages(u, 2), stages(v, 2), 2, 8);
    assert(stages(u, 4) == butterfly(stages(u, 2), 2) && stages(v, 4) == butterfly(
        stages(v, 2),
        2,
    ));
    assert(stage_exact(f, stages(u, 4), 4) && stage_exact(f, stages(v, 4), 4));
    lemma_stage_inner(f, stages(u, 4), stages(v, 4), 4, 4);
    assert(stages(u, 8) == butterfly(stages(u, 4), 4) && stages(v, 8) == butterfly(
        stages(v, 4),
        4,
    ));
    assert(stage_exact(f, stages(u, 8), 8) && stage_exact(f, stages(v, 8), 8));
    lemma_stage_inner(f, stages(u, 8), stages(v, 8), 8, 2);
    assert(stages(u, 16) == butterfly(stages(u, 8), 8) && stages(v, 16) == butterfly(
        stages(v, 8),
        8,
    ));
    assert(stage_exact(f, stages(u, 16), 16) && stage_exact(f, stages(v, 16), 16));
    lemma_stage_inner(f, stages(u, 16), stages(v, 16), 16, 1);
    assert(stages(u, 32) == butterfly(stages(u, 16), 16) && stages(v, 32) == butterfly(
        stages(v, 16),
        16,
    ));
}

/// What the rotation leaves on an inner product: thirty-two times the square of the
/// normalization, one where the normalization is exactly one over the root of 32.
pub open spec fn rotation_gain<R: Real>(f: spec_fn(R) -> real) -> real {
    32 as real * (f(inv_sqrt32::<R>()) * f(inv_sqrt32::<R>()))
}

/// Where no operation rounds and the signs are one or minus one, the inner product of
/// two rotated blocks is that of the blocks, times the gain of the rotation: the
/// rotation cancels.
pub proof fn law_rotation_cancels<R: Real>(
    f: spec_fn(R) -> real,
    a: Seq<R>,
    w: Seq<R>,
    signs: Seq<R>,
)
    requires
        forall|j: int| 0 <= j < 32 ==> f(#[trigger] signs[j]) * f(signs[j]) == 1 as real,
        rotation_exact(f, a, signs),
        rotation_exact(f, w, signs),
    ensures
        block_inner(f, rotated(a, signs), rotated(w, signs)) == block_inner(f, a, w)
            * rotation_gain(f),
{
    let c = f(inv_sqrt32::<R>());
    let u = with_signs(a, signs);
    let v = with_signs(w, signs);
    lemma_stages_inner(f, u, v);
    let plain = block_products(f, a, w);
    let signed = block_products(f, u, v);
    assert forall|j: int| 0 <= j < 32 implies #[trigger] plain(j) == signed(j) by {
        assert(multiplies(f, a[j], signs[j]) && multiplies(f, w[j], signs[j]));
        let (x, y, s) = (f(a[j]), f(w[j]), f(signs[j]));
        assert((x * s) * (y * s) == (x * y) * (s * s)) by (nonlinear_arith);
        assert((x * y) * (1 as real) == x * y) by (nonlinear_arith);
    }
    lemma_total_same(plain, signed, 32);
    let staged = block_products(f, stages(u, 32), stages(v, 32));
    let done = block_products(f, rotated(a, signs), rotated(w, signs));
    assert forall|j: int| 0 <= j < 32 implies #[trigger] done(j) == staged(j) * (c * c) by {
        assert(multiplies(f, stages(u, 32)[j], inv_sqrt32::<R>()));
        assert(multiplies(f, stages(v, 32)[j], inv_sqrt32::<R>()));
        let (x, y) = (f(stages(u, 32)[j]), f(stages(v, 32)[j]));
        assert((x * c) * (y * c) == (x * y) * (c * c)) by (nonlinear_arith);
    }
    lemma_total_scaled(staged, done, c * c, 32);
    let t = block_inner(f, a, w);
    let cc = c * c;
    assert((t * (32 as real)) * cc == t * (32 as real * cc)) by (nonlinear_arith);
}

/// Where no operation of the rotations rounds and the signs are one or minus one, the
/// inner product of two rows that are rotated block for block is that of the rows,
/// times the gain of the rotation.
pub proof fn law_rotated_rows<R: Real>(
    f: spec_fn(R) -> real,
    x: Seq<R>,
    w: Seq<R>,
    signs: Seq<R>,
    nblk: int,
)
    requires
        0 <= nblk,
        32 * nblk <= x.len(),
        32 * nblk <= w.len(),
        forall|j: int| 0 <= j < 32 ==> f(#[trigger] signs[j]) * f(signs[j]) == 1 as real,
        forall|blk: int|
            0 <= blk < nblk ==> rotation_exact(f, #[trigger] block_of(x, blk), signs)
                && rotation_exact(f, block_of(w, blk), signs),
    ensures
        total(products_of(f, rotated_row(x, signs), rotated_row(w, signs)), 32 * nblk) == total(
            products_of(f, entries(x), entries(w)),
            32 * nblk,
        ) * rotation_gain(f),
{
    let g = products_of(f, rotated_row(x, signs), rotated_row(w, signs));
    let h = products_of(f, entries(x), entries(w));
    let g_blocks = |blk: int| total(shifted(g, 32 * blk), 32);
    let h_blocks = |blk: int| total(shifted(h, 32 * blk), 32);
    assert forall|blk: int| 0 <= blk < nblk implies #[trigger] g_blocks(blk) == h_blocks(blk)
        * rotation_gain(f) by {
        let (a, b) = (block_of(x, blk), block_of(w, blk));
        law_rotation_cancels(f, a, b, signs);
        let turned = block_products(f, rotated(a, signs), rotated(b, signs));
        let plain = block_products(f, a, b);
        let (g_run, h_run) = (shifted(g, 32 * blk), shifted(h, 32 * blk));
        assert forall|i: int| 0 <= i < 32 implies #[trigger] g_run(i) == turned(i) by {
            let e = 32 * blk + i;
            assert(e / 32 == blk && e % 32 == i);
        }
        assert forall|i: int| 0 <= i < 32 implies #[trigger] h_run(i) == plain(i) by {
        }
        lemma_total_same(g_run, turned, 32);
        lemma_total_same(h_run, plain, 32);
    }
    lemma_total_scaled(h_blocks, g_blocks, rotation_gain(f), nblk);
    lemma_total_runs(g, g_blocks, 32, nblk);
    lemma_total_runs(h, h_blocks, 32, nblk);
}

/// Where no operation rounds and the signs are one or minus one, the panel product of
/// a row with a column that holds rotated weights is the inner product of the row with
/// the weights, times the gain of the rotation.
pub proof fn law_rotated_panel<R: Real>(
    f: spec_fn(R) -> real,
    x: Seq<R>,
    w: Seq<R>,
    column: Seq<R>,
    signs: Seq<R>,
)
    requires
        signs.len() >= 32,
        32 * (x.len() as int / 32) <= w.len(),
        forall|j: int| 0 <= j < 32 ==> f(#[trigger] signs[j]) * f(signs[j]) == 1 as real,
        forall|blk: int|
            0 <= blk < x.len() as int / 32 ==> rotation_exact(f, #[trigger] block_of(x, blk), signs)
                && rotation_exact(f, block_of(w, blk), signs),
        forall|e: int|
            0 <= e < 32 * (x.len() as int / 32) ==> f(#[trigger] column[e]) == f(
                rotated_row(w, signs)(e),
            ),
        cube_exact(f, x, column, signs),
    ensures
        f(cube_dot(x, column, signs)) == total(
            products_of(f, entries(x), entries(w)),
            32 * (x.len() as int / 32),
        ) * rotation_gain(f),
{
    let nblk = x.len() as int / 32;
    law_panel_rotates_the_row(f, x, column, signs);
    law_rotated_rows(f, x, w, signs, nblk);
    let got = products_of(f, rotated_row(x, signs), entries(column));
    let want = products_of(f, rotated_row(x, signs), rotated_row(w, signs));
    assert forall|e: int| 0 <= e < 32 * nblk implies #[trigger] got(e) == want(e) by {
        assert(f(column[e]) == f(rotated_row(w, signs)(e)));
    }
    lemma_total_same(got, want, 32 * nblk);
}

} // verus!
