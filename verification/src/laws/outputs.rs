//! What the products put out, in terms of what goes in: in exact arithmetic every output
//! is a sum over all elements of a row, each the number that the activation stands for
//! times the number that the weight's code and scale stand for.
use vstd::prelude::*;
use vstd::arithmetic::power2::pow2;
use crate::arith::{Real, Stored};
use crate::dense::{code_at, lemma_field_bound};
use crate::exact::{lemma_total_same, multiplies, total};
use crate::gemv::{
    column_share, decode_at, gained, norm_scale, plane_dot, staged_row, weights_of, widened,
};
use crate::laws::decode::{law_norm_scale_is_inverse_root_mean_square, norm_exact};
use crate::laws::ideal::{
    exact_decimals, exact_quotients, exact_ring, exact_roots, lemma_exact_pair,
    lemma_exact_plane, lemma_exact_quotient, lemma_exact_root, lemma_exact_storage,
    lemma_exact_sums, lemma_small_decimals, lemma_whole_decimal, stores_exactly,
};
use crate::laws::products::{
    dequantized, elementwise, law_product_is_inner_product, product_exact, unit_exact,
};
use crate::laws::rotation::{rotation_exact, stage_exact, wing_exact};
use crate::laws::shares::{
    column_lanes, cube_exact, entries, law_panel_is_inner_product, law_panel_rotates_the_row,
    law_plane_is_inner_product, plane_exact, plane_lanes, products_of, rotated_row,
    staged_entries,
};
use crate::laws::transform::{law_rotation_is_walsh_hadamard, transform_terms, walsh};
use crate::panel::{
    block_of, cube_dot, plain_share, plane_share, rotated_share, strided, widened_row,
};
use crate::product::{centroid_product, product_at, unit_base, unit_product};
use crate::rht::{is_step, rotated, stages, with_signs};
use crate::scheme::QuantValue;
use crate::weights::{reconstructed, weight_at, weight_row};

verus! {

/// The number that a code stands for: two's complement where the value is symmetric, the
/// entry of the table otherwise.
pub open spec fn code_number<R: Real>(
    f: spec_fn(R) -> real,
    table: Seq<R>,
    code: int,
    value: QuantValue,
) -> real {
    if value.symmetric() {
        (if 2 * code >= pow2(value.bits()) {
            code - pow2(value.bits())
        } else {
            code
        }) as real
    } else {
        f(table[code])
    }
}

/// Element `e` of row `row` of a quantized matrix with `k` columns. The codes of all rows
/// are one stream, and sixteen of them in a row share a scale.
pub open spec fn matrix_number<R: Real, H: Stored<R>>(
    f: spec_fn(R) -> real,
    table: Seq<R>,
    codes: Seq<u32>,
    scales: Seq<H>,
    row: int,
    k: int,
    value: QuantValue,
) -> spec_fn(int) -> real {
    |e: int|
        code_number(f, table, code_at(codes, 0, row * k + e, value) as int, value) * f(
            scales[row * (k / 16) + e / 16].widen_spec(),
        )
}

/// Element `e` of row `row` of a matrix with `k` columns.
pub open spec fn plain_number<R: Real, F: Stored<R>>(
    f: spec_fn(R) -> real,
    a: Seq<F>,
    row: int,
    k: int,
) -> spec_fn(int) -> real {
    |e: int| f(a[row * k + e].widen_spec())
}

/// Element `e` of a row that is transformed block by block: over the thirty-two elements
/// of its block, each with its sign and the sign of the Walsh-Hadamard matrix, the sum
/// times 0.17677669.
pub open spec fn turned_number<R: Real>(
    f: spec_fn(R) -> real,
    x: spec_fn(int) -> real,
    signs: Seq<R>,
) -> spec_fn(int) -> real {
    |e: int|
        total(
            |i: int| walsh(i, e % 32) * (f(signs[i]) * x(32 * (e / 32) + i)),
            32,
        ) * f(R::decimal_spec(17677669, 8))
}

/// The elements that a product takes of an activation row: as they are, or transformed
/// where there are signs.
pub open spec fn taken_number<R: Real>(
    f: spec_fn(R) -> real,
    x: spec_fn(int) -> real,
    signs: Seq<R>,
) -> spec_fn(int) -> real {
    if signs.len() > 0 {
        turned_number(f, x, signs)
    } else {
        x
    }
}

/// Codes of a unit are codes of the stream of all rows.
proof fn lemma_stream_position(words: Seq<u32>, row: int, units: int, e: int, value: QuantValue)
    requires
        value.bits() % 2 == 0,
        0 <= e,
    ensures
        code_at(words, unit_base(row, units, e / 16, value), e % 16, value) == code_at(
            words,
            0,
            row * (16 * units) + e,
            value,
        ),
{
    let bits = value.bits() as int;
    let half = bits / 2;
    let u = row * units + e / 16;
    assert(unit_base(row, units, e / 16, value) == u * half);
    assert(32 * (u * half) + bits * (e % 16) == bits * (16 * u + e % 16)) by (nonlinear_arith)
        requires
            bits == 2 * half,
    ;
    assert(16 * u + e % 16 == row * (16 * units) + e) by (nonlinear_arith)
        requires
            u == row * units + e / 16,
    ;
}

/// In exact arithmetic output (`row`, `col`) of the product of two quantized matrices of
/// table codes is the sum over all columns of the activation's number times the weight's.
pub proof fn law_product_output<R: Real, H: Stored<R>>(
    f: spec_fn(R) -> real,
    table: Seq<R>,
    a_codes: Seq<u32>,
    a_scales: Seq<H>,
    w_codes: Seq<u32>,
    w_scales: Seq<H>,
    row: int,
    col: int,
    k: int,
    value: QuantValue,
)
    requires
        exact_ring(f),
        exact_decimals(f),
        0 <= k,
        k % 16 == 0,
        value.bits() % 2 == 0,
    ensures
        f(product_at(table, a_codes, a_scales, w_codes, w_scales, row, col, k / 16, value))
            == total(
            |e: int|
                (f(table[code_at(a_codes, 0, row * k + e, value) as int]) * f(
                    a_scales[row * (k / 16) + e / 16].widen_spec(),
                )) * (f(table[code_at(w_codes, 0, col * k + e, value) as int]) * f(
                    w_scales[col * (k / 16) + e / 16].widen_spec(),
                )),
            k,
        ),
{
    let units = k / 16;
    lemma_exact_sums(
        f,
        unit_product(table, a_codes, a_scales, w_codes, w_scales, row, col, units, value),
        units,
    );
    assert forall|u: int| 0 <= u < units implies #[trigger] unit_exact(
        f,
        table,
        a_codes,
        a_scales,
        w_codes,
        w_scales,
        row,
        col,
        units,
        value,
        u,
    ) by {
        let a_base = unit_base(row, units, u, value);
        let w_base = unit_base(col, units, u, value);
        let term = centroid_product(table, a_codes, a_base, w_codes, w_base, value);
        lemma_exact_sums(f, term, 16);
        reveal(exact_ring);
    }
    assert(product_exact(
        f,
        table,
        a_codes,
        a_scales,
        w_codes,
        w_scales,
        row,
        col,
        units,
        value,
    ));
    law_product_is_inner_product(
        f,
        table,
        a_codes,
        a_scales,
        w_codes,
        w_scales,
        row,
        col,
        units,
        value,
    );
    let got = elementwise(
        dequantized(f, table, a_codes, a_scales, row, units, value),
        dequantized(f, table, w_codes, w_scales, col, units, value),
    );
    let want = |e: int|
        (f(table[code_at(a_codes, 0, row * k + e, value) as int]) * f(
            a_scales[row * (k / 16) + e / 16].widen_spec(),
        )) * (f(table[code_at(w_codes, 0, col * k + e, value) as int]) * f(
            w_scales[col * (k / 16) + e / 16].widen_spec(),
        ));
    assert forall|e: int| 0 <= e < k implies #[trigger] got(e) == want(e) by {
        lemma_stream_position(a_codes, row, units, e, value);
        lemma_stream_position(w_codes, col, units, e, value);
    }
    lemma_total_same(got, want, k);
}

/// In any format, exact or not, element `e` of weight row `col` that the decode and the
/// panel product multiply with is its centroid, or its level where the value is
/// symmetric, times the scale that its sixteen elements share.
pub proof fn law_weights_output<R: Real, H: Stored<R>>(
    table: Seq<R>,
    w_codes: Seq<u32>,
    w_scales: Seq<H>,
    col: int,
    k: int,
    e: int,
    value: QuantValue,
)
    requires
        k % 16 == 0,
        0 <= e < k,
        value.bits() % 2 == 0,
    ensures
        ({
            let code = code_at(w_codes, 0, col * k + e, value) as int;
            let scale = w_scales[col * (k / 16) + e / 16].widen_spec();
            let level = if 2 * code >= pow2(value.bits()) {
                code - pow2(value.bits())
            } else {
                code
            };
            let weight = if value.symmetric() {
                R::decimal_spec(level as i64, 0).times_spec(scale)
            } else {
                table[code].times_spec(scale)
            };
            &&& weights_of(table, w_codes, w_scales, col, k / 16, value)(e) == weight
            &&& weight_row(table, w_codes, w_scales, col, k / 16, value).len() == k
            &&& weight_row(table, w_codes, w_scales, col, k / 16, value)[e] == weight
        }),
{
    lemma_stream_position(w_codes, col, k / 16, e, value);
    vstd::arithmetic::power2::lemma2_to64();
}

/// A weight in exact arithmetic.
proof fn lemma_weight_number<R: Real, H: Stored<R>>(
    f: spec_fn(R) -> real,
    table: Seq<R>,
    codes: Seq<u32>,
    scales: Seq<H>,
    col: int,
    k: int,
    e: int,
    value: QuantValue,
)
    requires
        exact_ring(f),
        exact_decimals(f),
        k % 16 == 0,
        0 <= e < k,
        value.bits() % 2 == 0,
    ensures
        f(weight_at(table, codes, scales, col, k / 16, e, value)) == matrix_number(
            f,
            table,
            codes,
            scales,
            col,
            k,
            value,
        )(e),
{
    lemma_stream_position(codes, col, k / 16, e, value);
    let code = code_at(codes, 0, col * k + e, value) as int;
    lemma_field_bound(codes, value.bits() * (col * k + e), value.bits());
    vstd::arithmetic::power2::lemma2_to64();
    lemma_exact_pair(
        f,
        reconstructed(table, code, value),
        scales[col * (k / 16) + e / 16].widen_spec(),
    );
    if value.symmetric() {
        lemma_whole_decimal(
            f,
            (if 2 * code >= pow2(value.bits()) {
                code - pow2(value.bits())
            } else {
                code
            }) as i64,
        );
    }
}

/// A rotation in exact arithmetic does not round.
pub proof fn lemma_rotation_is_exact<R: Real>(f: spec_fn(R) -> real, x: Seq<R>, signs: Seq<R>)
    requires
        exact_ring(f),
    ensures
        rotation_exact(f, x, signs),
{
    let s = with_signs(x, signs);
    assert forall|j: int| 0 <= j < 32 implies multiplies(
        f,
        #[trigger] x[j],
        signs[j],
    ) by {
        lemma_exact_pair(f, x[j], signs[j]);
    }
    assert forall|step: int| is_step(step) implies #[trigger] stage_exact(
        f,
        stages(s, step),
        step,
    ) by {
        let t = stages(s, step);
        assert forall|i: int| 0 <= i < 32 implies #[trigger] wing_exact(f, t, step, i) by {
            lemma_exact_pair(f, t[i], t[i + step]);
            lemma_exact_pair(f, t[i - step], t[i]);
        }
    }
    assert forall|j: int| 0 <= j < 32 implies multiplies(
        f,
        #[trigger] stages(s, 32)[j],
        crate::rht::inv_sqrt32::<R>(),
    ) by {
        lemma_exact_pair(f, stages(s, 32)[j], crate::rht::inv_sqrt32::<R>());
    }
}

/// In exact arithmetic entry `j` of a rotated block is the sum over its thirty-two values,
/// each times its sign and times minus one to the power of the number of bits that its
/// position has in common with `j`, times 0.17677669.
pub proof fn law_rotation_output<R: Real>(
    f: spec_fn(R) -> real,
    x: Seq<R>,
    signs: Seq<R>,
    j: int,
)
    requires
        exact_ring(f),
        0 <= j < 32,
    ensures
        f(rotated(x, signs)[j]) == total(
            |i: int| walsh(i, j) * (f(signs[i]) * f(x[i])),
            32,
        ) * f(R::decimal_spec(17677669, 8)),
{
    lemma_rotation_is_exact(f, x, signs);
    law_rotation_is_walsh_hadamard(f, x, signs, j);
    let want = |i: int| walsh(i, j) * (f(signs[i]) * f(x[i]));
    lemma_total_same(transform_terms(f, x, signs, j), want, 32);
}

/// Element `e` of a row that is rotated block by block.
proof fn lemma_turned_number<R: Real>(
    f: spec_fn(R) -> real,
    x: Seq<R>,
    numbers: spec_fn(int) -> real,
    signs: Seq<R>,
    e: int,
)
    requires
        exact_ring(f),
        x.len() % 32 == 0,
        0 <= e < x.len(),
        forall|i: int| 0 <= i < x.len() ==> f(#[trigger] x[i]) == numbers(i),
    ensures
        f(rotated(block_of(x, e / 32), signs)[e % 32]) == turned_number(f, numbers, signs)(e),
{
    let block = block_of(x, e / 32);
    law_rotation_output(f, block, signs, e % 32);
    let got = |i: int| walsh(i, e % 32) * (f(signs[i]) * f(block[i]));
    let want = |i: int| walsh(i, e % 32) * (f(signs[i]) * numbers(32 * (e / 32) + i));
    assert forall|i: int| 0 <= i < 32 implies #[trigger] got(i) == want(i) by {
        assert(block[i] == x[32 * (e / 32) + i]);
    }
    lemma_total_same(got, want, 32);
}

/// A cube's product in exact arithmetic does not round.
proof fn lemma_cube_is_exact<R: Real>(
    f: spec_fn(R) -> real,
    x: Seq<R>,
    w: Seq<R>,
    signs: Seq<R>,
)
    requires
        exact_ring(f),
        exact_decimals(f),
    ensures
        cube_exact(f, x, w, signs),
{
    lemma_exact_sums(f, plane_share(x, w, signs), 8);
    assert forall|warp: int| 0 <= warp < 8 implies #[trigger] crate::exact::sums_plane(
        f,
        plane_lanes(x, w, signs, warp),
    ) by {
        lemma_exact_plane(f, plane_lanes(x, w, signs, warp));
    }
    if signs.len() > 0 {
        assert forall|warp: int, lane: int|
            0 <= warp < 8 && 0 <= lane < 32 implies crate::exact::sums(
            f,
            #[trigger] rotated_share(x, w, signs, warp, lane),
            strided(warp, 8, x.len() as int / 32),
        ) by {
            lemma_exact_sums(
                f,
                rotated_share(x, w, signs, warp, lane),
                strided(warp, 8, x.len() as int / 32),
            );
        }
        assert forall|e: int|
            0 <= e < 32 * (x.len() as int / 32) implies multiplies(
            f,
            #[trigger] rotated_row(x, signs)(e),
            w[e],
        ) by {
            lemma_exact_pair(f, rotated_row(x, signs)(e), w[e]);
        }
    } else {
        assert forall|t: int| 0 <= t < 256 implies crate::exact::sums(
            f,
            #[trigger] plain_share(x, w, t),
            strided(t, 256, x.len() as int),
        ) by {
            lemma_exact_sums(f, plain_share(x, w, t), strided(t, 256, x.len() as int));
        }
        assert forall|e: int| 0 <= e < x.len() implies multiplies(
            f,
            x[e],
            #[trigger] w[e],
        ) by {
            lemma_exact_pair(f, x[e], w[e]);
        }
    }
}

/// In exact arithmetic output (`row`, `col`) of the panel product is the sum over all
/// columns of the activation's number, transformed where there are signs, times the
/// weight's.
pub proof fn law_panel_output<R: Real, H: Stored<R>, F: Stored<R>>(
    f: spec_fn(R) -> real,
    table: Seq<R>,
    a: Seq<F>,
    w_codes: Seq<u32>,
    w_scales: Seq<H>,
    signs: Seq<R>,
    row: int,
    col: int,
    k: int,
    value: QuantValue,
)
    requires
        exact_ring(f),
        exact_decimals(f),
        0 <= k,
        k % 16 == 0,
        signs.len() > 0 ==> k % 32 == 0,
        value.bits() % 2 == 0,
    ensures
        f(
            cube_dot(
                widened_row::<R, F>(a, row, k),
                weight_row(table, w_codes, w_scales, col, k / 16, value),
                signs,
            ),
        ) == total(
            |e: int|
                taken_number(f, plain_number::<R, F>(f, a, row, k), signs)(e) * matrix_number(
                    f,
                    table,
                    w_codes,
                    w_scales,
                    col,
                    k,
                    value,
                )(e),
            k,
        ),
{
    let x = widened_row::<R, F>(a, row, k);
    let w = weight_row(table, w_codes, w_scales, col, k / 16, value);
    let numbers = plain_number::<R, F>(f, a, row, k);
    let weights = matrix_number(f, table, w_codes, w_scales, col, k, value);
    lemma_cube_is_exact(f, x, w, signs);
    let want = |e: int| taken_number(f, numbers, signs)(e) * weights(e);
    if signs.len() > 0 {
        law_panel_rotates_the_row(f, x, w, signs);
        let got = products_of(f, rotated_row(x, signs), entries(w));
        assert forall|e: int| 0 <= e < k implies #[trigger] got(e) == want(e) by {
            lemma_turned_number(f, x, numbers, signs, e);
            lemma_weight_number(f, table, w_codes, w_scales, col, k, e, value);
        }
        lemma_total_same(got, want, k);
    } else {
        law_panel_is_inner_product(f, x, w, signs);
        let got = products_of(f, entries(x), entries(w));
        assert forall|e: int| 0 <= e < k implies #[trigger] got(e) == want(e) by {
            lemma_weight_number(f, table, w_codes, w_scales, col, k, e, value);
        }
        lemma_total_same(got, want, k);
    }
}

/// In exact arithmetic a code is reconstructed as the number that it stands for.
pub proof fn law_reconstruction_output<R: Real>(
    f: spec_fn(R) -> real,
    table: Seq<R>,
    code: int,
    value: QuantValue,
)
    requires
        exact_decimals(f),
        0 <= code < pow2(value.bits()),
    ensures
        f(reconstructed(table, code, value)) == code_number(f, table, code, value),
{
    vstd::arithmetic::power2::lemma2_to64();
    if value.symmetric() {
        lemma_whole_decimal(
            f,
            (if 2 * code >= pow2(value.bits()) {
                code - pow2(value.bits())
            } else {
                code
            }) as i64,
        );
    }
}

/// The elements of a row that is decoded: with its gains where the row is normalized.
pub open spec fn decoded_number<R: Real, F: Stored<R>>(
    f: spec_fn(R) -> real,
    a: Seq<F>,
    gamma: Seq<F>,
    do_norm: bool,
) -> spec_fn(int) -> real {
    |e: int|
        if do_norm {
            f(a[e].widen_spec()) * f(gamma[e].widen_spec())
        } else {
            f(a[e].widen_spec())
        }
}

/// The staged row in exact arithmetic.
proof fn lemma_staged_number<R: Real, F: Stored<R>, S: Stored<R>>(
    f: spec_fn(R) -> real,
    a: Seq<F>,
    gamma: Seq<F>,
    signs: Seq<R>,
    k: int,
    do_norm: bool,
    e: int,
)
    requires
        exact_ring(f),
        stores_exactly::<R, S>(f),
        signs.len() > 0 ==> k % 32 == 0,
        0 <= e < k,
    ensures
        staged_row::<R, F, S>(a, gamma, signs, k, do_norm).len() == k,
        f(staged_row::<R, F, S>(a, gamma, signs, k, do_norm)[e].widen_spec()) == taken_number(
            f,
            decoded_number(f, a, gamma, do_norm),
            signs,
        )(e),
{
    let numbers = decoded_number(f, a, gamma, do_norm);
    let x = if do_norm {
        widened::<R, S>(gained::<R, F, S>(a, gamma, k))
    } else {
        widened_row::<R, F>(a, 0, k)
    };
    assert forall|i: int| 0 <= i < k implies f(#[trigger] x[i]) == numbers(i) by {
        if do_norm {
            let v = a[i].widen_spec().times_spec(gamma[i].widen_spec());
            lemma_exact_storage::<R, S>(f, v);
            lemma_exact_pair(f, a[i].widen_spec(), gamma[i].widen_spec());
            assert(x[i] == S::narrow_spec(v).widen_spec());
        }
    }
    if signs.len() > 0 {
        lemma_turned_number(f, x, numbers, signs, e);
        lemma_exact_storage::<R, S>(f, rotated(block_of(x, e / 32), signs)[e % 32]);
    } else if !do_norm {
        lemma_exact_storage::<R, S>(f, x[e]);
    } else {
        assert(f(x[e]) == numbers(e));
    }
}

/// The product of a plane in exact arithmetic.
proof fn lemma_decoded_sum<R: Real, H: Stored<R>, F: Stored<R>, S: Stored<R>>(
    f: spec_fn(R) -> real,
    table: Seq<R>,
    w_codes: Seq<u32>,
    w_scales: Seq<H>,
    a: Seq<F>,
    gamma: Seq<F>,
    signs: Seq<R>,
    col: int,
    k: int,
    value: QuantValue,
    do_norm: bool,
)
    requires
        exact_ring(f),
        exact_decimals(f),
        stores_exactly::<R, S>(f),
        0 <= k,
        k % 16 == 0,
        signs.len() > 0 ==> k % 32 == 0,
        value.bits() % 2 == 0,
    ensures
        f(
            plane_dot(
                weights_of(table, w_codes, w_scales, col, k / 16, value),
                staged_row::<R, F, S>(a, gamma, signs, k, do_norm),
            ),
        ) == total(
            |e: int|
                taken_number(f, decoded_number(f, a, gamma, do_norm), signs)(e) * matrix_number(
                    f,
                    table,
                    w_codes,
                    w_scales,
                    col,
                    k,
                    value,
                )(e),
            k,
        ),
{
    let w = weights_of(table, w_codes, w_scales, col, k / 16, value);
    let staged = staged_row::<R, F, S>(a, gamma, signs, k, do_norm);
    let numbers = decoded_number(f, a, gamma, do_norm);
    let weights = matrix_number(f, table, w_codes, w_scales, col, k, value);
    assert(staged.len() == k);
    lemma_exact_plane(f, column_lanes(w, staged));
    assert forall|lane: int| 0 <= lane < 32 implies crate::exact::sums(
        f,
        #[trigger] column_share(w, staged, lane),
        strided(lane, 32, staged.len() as int),
    ) by {
        lemma_exact_sums(
            f,
            column_share(w, staged, lane),
            strided(lane, 32, staged.len() as int),
        );
    }
    assert forall|e: int| 0 <= e < staged.len() implies multiplies(
        f,
        w(e),
        (#[trigger] staged[e]).widen_spec(),
    ) by {
        lemma_exact_pair(f, w(e), staged[e].widen_spec());
    }
    assert(plane_exact(f, w, staged));
    law_plane_is_inner_product(f, w, staged);
    let got = products_of(f, w, staged_entries(staged));
    let want = |e: int| taken_number(f, numbers, signs)(e) * weights(e);
    assert forall|e: int| 0 <= e < k implies #[trigger] got(e) == want(e) by {
        lemma_staged_number::<R, F, S>(f, a, gamma, signs, k, do_norm, e);
        lemma_weight_number(f, table, w_codes, w_scales, col, k, e, value);
        let (p, q) = (f(w(e)), f(staged[e].widen_spec()));
        assert(p * q == q * p) by (nonlinear_arith);
    }
    lemma_total_same(got, want, k);
}

/// In exact arithmetic output `col` of the decode product without normalization is the
/// sum over all columns of the activation's number, transformed where there are signs,
/// times the weight's.
pub proof fn law_decode_output<R: Real, H: Stored<R>, F: Stored<R>, S: Stored<R>>(
    f: spec_fn(R) -> real,
    table: Seq<R>,
    w_codes: Seq<u32>,
    w_scales: Seq<H>,
    a: Seq<F>,
    gamma: Seq<F>,
    signs: Seq<R>,
    col: int,
    k: int,
    value: QuantValue,
)
    requires
        exact_ring(f),
        exact_decimals(f),
        stores_exactly::<R, S>(f),
        0 <= k,
        k % 16 == 0,
        signs.len() > 0 ==> k % 32 == 0,
        value.bits() % 2 == 0,
    ensures
        f(
            decode_at::<R, H, F, S>(
                table,
                w_codes,
                w_scales,
                a,
                gamma,
                signs,
                col,
                k,
                value,
                false,
            ),
        ) == total(
            |e: int|
                taken_number(f, plain_number::<R, F>(f, a, 0, k), signs)(e) * matrix_number(
                    f,
                    table,
                    w_codes,
                    w_scales,
                    col,
                    k,
                    value,
                )(e),
            k,
        ),
{
    lemma_decoded_sum::<R, H, F, S>(
        f,
        table,
        w_codes,
        w_scales,
        a,
        gamma,
        signs,
        col,
        k,
        value,
        false,
    );
    let dot = plane_dot(
        weights_of(table, w_codes, w_scales, col, k / 16, value),
        staged_row::<R, F, S>(a, gamma, signs, k, false),
    );
    lemma_exact_pair(f, dot, R::decimal_spec(1, 0));
    lemma_whole_decimal(f, 1);
    let v = f(dot);
    assert(v * (1 as real) == v) by (nonlinear_arith);
    let numbers = decoded_number(f, a, gamma, false);
    let plain = plain_number::<R, F>(f, a, 0, k);
    assert(numbers =~= plain);
}

/// Squares add up to no less than zero.
proof fn lemma_squares(g: spec_fn(int) -> real, h: spec_fn(int) -> real, n: int)
    requires
        forall|i: int| 0 <= i < n ==> #[trigger] h(i) == g(i) * g(i),
    ensures
        total(h, n) >= 0 as real,
    decreases n,
{
    if n > 0 {
        lemma_squares(g, h, n - 1);
        let (v, w) = (g(n - 1), h(n - 1));
        assert(w >= 0 as real) by (nonlinear_arith)
            requires
                w == v * v,
        ;
    }
}

/// In exact arithmetic, with the mean square of the activations and the sum over all
/// columns of the gained activation's number, transformed where there are signs, times
/// the weight's, output `col` of the decode product with normalization is that sum over
/// the root of the mean square plus 0.000001: it has the sign of the sum, and its square
/// times the radicand is the square of the sum.
pub proof fn law_normalized_decode_output<R: Real, H: Stored<R>, F: Stored<R>, S: Stored<R>>(
    f: spec_fn(R) -> real,
    table: Seq<R>,
    w_codes: Seq<u32>,
    w_scales: Seq<H>,
    a: Seq<F>,
    gamma: Seq<F>,
    signs: Seq<R>,
    col: int,
    k: int,
    value: QuantValue,
)
    requires
        exact_ring(f),
        exact_decimals(f),
        exact_quotients(f),
        exact_roots(f),
        stores_exactly::<R, S>(f),
        0 < k <= u32::MAX,
        k % 16 == 0,
        signs.len() > 0 ==> k % 32 == 0,
        value.bits() % 2 == 0,
    ensures
        ({
            let out = f(
                decode_at::<R, H, F, S>(
                    table,
                    w_codes,
                    w_scales,
                    a,
                    gamma,
                    signs,
                    col,
                    k,
                    value,
                    true,
                ),
            );
            let sum = total(
                |e: int|
                    taken_number(
                        f,
                        |e: int| f(a[e].widen_spec()) * f(gamma[e].widen_spec()),
                        signs,
                    )(e) * matrix_number(f, table, w_codes, w_scales, col, k, value)(e),
                k,
            );
            let square = total(
                |e: int| f(a[e].widen_spec()) * f(a[e].widen_spec()),
                k,
            );
            &&& (out * out) * (square / (k as real) + 1 as real / 1000000 as real) == sum * sum
            &&& sum >= 0 as real ==> out >= 0 as real
            &&& sum <= 0 as real ==> out <= 0 as real
        }),
{
    lemma_decoded_sum::<R, H, F, S>(
        f,
        table,
        w_codes,
        w_scales,
        a,
        gamma,
        signs,
        col,
        k,
        value,
        true,
    );
    let dot = plane_dot(
        weights_of(table, w_codes, w_scales, col, k / 16, value),
        staged_row::<R, F, S>(a, gamma, signs, k, true),
    );
    let x = widened_row::<R, F>(a, 0, k);
    let s = norm_scale(x);
    lemma_exact_pair(f, dot, s);
    let numbers = decoded_number(f, a, gamma, true);
    let gains = |e: int| f(a[e].widen_spec()) * f(gamma[e].widen_spec());
    assert(numbers =~= gains);
    let squares = |e: int| f(a[e].widen_spec()) * f(a[e].widen_spec());
    let square = total(squares, k);
    let values = products_of(f, entries(x), entries(x));
    lemma_total_same(values, squares, k);
    lemma_squares(|e: int| f(a[e].widen_spec()), squares, k);
    lemma_norm_is_exact(f, x, square);
    let n = k as real;
    let mean = square / n;
    assert(mean * n == square) by (nonlinear_arith)
        requires
            mean == square / n,
            n > 0 as real,
    ;
    law_norm_scale_is_inverse_root_mean_square(f, x, mean);
    lemma_small_decimals(f);
    let (v, t) = (f(dot), f(s));
    let radicand = mean + 1 as real / 1000000 as real;
    assert((v * t) * (v * t) == (v * v) * (t * t)) by (nonlinear_arith);
    let (vv, tt) = (v * v, t * t);
    assert((vv * tt) * radicand == vv * (tt * radicand)) by (nonlinear_arith);
    assert(vv * (1 as real) == vv) by (nonlinear_arith);
    if v >= 0 as real {
        assert(v * t >= 0 as real) by (nonlinear_arith)
            requires
                v >= 0 as real,
                t > 0 as real,
        ;
    }
    if v <= 0 as real {
        assert(v * t <= 0 as real) by (nonlinear_arith)
            requires
                v <= 0 as real,
                t > 0 as real,
        ;
    }
}

/// The scale of a row in exact arithmetic does not round.
proof fn lemma_norm_is_exact<R: Real>(f: spec_fn(R) -> real, x: Seq<R>, square: real)
    requires
        exact_ring(f),
        exact_decimals(f),
        exact_quotients(f),
        exact_roots(f),
        0 < x.len() <= u32::MAX,
        square == total(products_of(f, entries(x), entries(x)), x.len() as int),
        square >= 0 as real,
    ensures
        norm_exact(f, x),
{
    let none = Seq::<R>::empty();
    let sum = cube_dot(x, x, none);
    lemma_cube_is_exact(f, x, x, none);
    law_panel_is_inner_product(f, x, x, none);
    let count = R::decimal_spec(x.len() as i64, 0);
    let least = R::decimal_spec(1, 6);
    lemma_whole_decimal(f, x.len() as i64);
    lemma_small_decimals(f);
    let mean = sum.over_spec(count);
    lemma_exact_quotient(f, sum, count);
    lemma_exact_pair(f, mean, least);
    let (g, n) = (f(mean), x.len() as real);
    assert(g >= 0 as real) by (nonlinear_arith)
        requires
            g * n == square,
            square >= 0 as real,
            n > 0 as real,
    ;
    let radicand = mean.plus_spec(least);
    lemma_exact_root(f, radicand);
    let root = radicand.sqrt_spec();
    let r = f(root);
    assert(r > 0 as real) by (nonlinear_arith)
        requires
            r >= 0 as real,
            r * r > 0 as real,
    ;
    lemma_exact_quotient(f, root, root);
}

} // verus!
