//! The decode product of a single row: what it computes, what the normalization adds to
//! it, that rotated weights cancel the rotation of the row, and that it is the panel
//! product of one row.
use vstd::prelude::*;
use crate::arith::{Real, Stored};
use crate::exact::{adds, lemma_total_same, lemma_total_scaled, multiplies, total};
use crate::gemv::{decode_at, gained, norm_scale, plane_dot, staged_row, weights_of, widened};
use crate::laws::rotation::{law_rotated_rows, rotation_exact, rotation_gain};
use crate::laws::shares::{
    cube_exact, entries, law_panel_is_inner_product, law_panel_rotates_the_row,
    law_plane_is_inner_product, plane_exact, products_of, rotated_row, staged_entries,
};
use crate::panel::{block_of, cube_dot, widened_row};
use crate::rht::rotated;
use crate::scheme::QuantValue;
use crate::weights::weight_row;

verus! {

/// Where no operation rounds, an output of the decode product without normalization is
/// the inner product of the weight row and the staged activations.
pub proof fn law_decode_is_inner_product<R: Real, H: Stored<R>, F: Stored<R>, S: Stored<R>>(
    f: spec_fn(R) -> real,
    table: Seq<R>,
    w_codes: Seq<u32>,
    w_scales: Seq<H>,
    a: Seq<F>,
    gamma: Seq<F>,
    signs: Seq<R>,
    col: int,
    k: int,
    value: QuantValue,
)
    requires
        0 <= k,
        signs.len() > 0 ==> k % 32 == 0,
        ({
            let w = weights_of(table, w_codes, w_scales, col, k / 16, value);
            let staged = staged_row::<R, F, S>(a, gamma, signs, k, false);
            &&& plane_exact(f, w, staged)
            &&& multiplies(f, plane_dot(w, staged), R::decimal_spec(1, 0))
            &&& f(R::decimal_spec(1, 0)) == 1 as real
        }),
    ensures
        f(
            decode_at::<R, H, F, S>(
                table,
                w_codes,
                w_scales,
                a,
                gamma,
                signs,
                col,
                k,
                value,
                false,
            ),
        ) == total(
            products_of(
                f,
                weights_of(table, w_codes, w_scales, col, k / 16, value),
                staged_entries(staged_row::<R, F, S>(a, gamma, signs, k, false)),
            ),
            k,
        ),
{
    let w = weights_of(table, w_codes, w_scales, col, k / 16, value);
    let staged = staged_row::<R, F, S>(a, gamma, signs, k, false);
    law_plane_is_inner_product(f, w, staged);
    assert(staged.len() == k);
}

/// Where no operation rounds, an output of the decode product with normalization is the
/// inner product of the weight row and the staged activations, each of them times the
/// scale of the row: the scale, applied once at the end, factors out.
pub proof fn law_norm_factors_out<R: Real, H: Stored<R>, F: Stored<R>, S: Stored<R>>(
    f: spec_fn(R) -> real,
    table: Seq<R>,
    w_codes: Seq<u32>,
    w_scales: Seq<H>,
    a: Seq<F>,
    gamma: Seq<F>,
    signs: Seq<R>,
    col: int,
    k: int,
    value: QuantValue,
)
    requires
        0 <= k,
        signs.len() > 0 ==> k % 32 == 0,
        ({
            let w = weights_of(table, w_codes, w_scales, col, k / 16, value);
            let staged = staged_row::<R, F, S>(a, gamma, signs, k, true);
            &&& plane_exact(f, w, staged)
            &&& multiplies(f, plane_dot(w, staged), norm_scale(widened_row::<R, F>(a, 0, k)))
        }),
    ensures
        ({
            let w = weights_of(table, w_codes, w_scales, col, k / 16, value);
            let staged = staged_row::<R, F, S>(a, gamma, signs, k, true);
            let scale = f(norm_scale(widened_row::<R, F>(a, 0, k)));
            f(
                decode_at::<R, H, F, S>(
                    table,
                    w_codes,
                    w_scales,
                    a,
                    gamma,
                    signs,
                    col,
                    k,
                    value,
                    true,
                ),
            ) == total(
                |e: int| f(w(e)) * (f(staged[e].widen_spec()) * scale),
                k,
            )
        }),
{
    let w = weights_of(table, w_codes, w_scales, col, k / 16, value);
    let staged = staged_row::<R, F, S>(a, gamma, signs, k, true);
    let scale = f(norm_scale(widened_row::<R, F>(a, 0, k)));
    law_plane_is_inner_product(f, w, staged);
    assert(staged.len() == k);
    let g = products_of(f, w, staged_entries(staged));
    let h = |e: int| f(w(e)) * (f(staged[e].widen_spec()) * scale);
    assert forall|e: int| 0 <= e < k implies #[trigger] h(e) == g(e) * scale by {
        let (x, y) = (f(w(e)), f(staged[e].widen_spec()));
        assert(x * (y * scale) == (x * y) * scale) by (nonlinear_arith);
    }
    lemma_total_scaled(g, h, scale, k);
}

/// Where neither an operation nor the staging rounds, the decode product of a single
/// row without normalization is the panel product of the row.
pub proof fn law_decode_agrees_with_panel<R: Real, H: Stored<R>, F: Stored<R>, S: Stored<R>>(
    f: spec_fn(R) -> real,
    table: Seq<R>,
    w_codes: Seq<u32>,
    w_scales: Seq<H>,
    a: Seq<F>,
    gamma: Seq<F>,
    signs: Seq<R>,
    col: int,
    k: int,
    value: QuantValue,
)
    requires
        0 <= k,
        k % 16 == 0,
        signs.len() > 0 ==> k % 32 == 0,
        ({
            let w = weights_of(table, w_codes, w_scales, col, k / 16, value);
            let staged = staged_row::<R, F, S>(a, gamma, signs, k, false);
            &&& plane_exact(f, w, staged)
            &&& multiplies(f, plane_dot(w, staged), R::decimal_spec(1, 0))
            &&& f(R::decimal_spec(1, 0)) == 1 as real
        }),
        forall|v: R| f((#[trigger] S::narrow_spec(v)).widen_spec()) == f(v),
        cube_exact(
            f,
            widened_row::<R, F>(a, 0, k),
            weight_row(table, w_codes, w_scales, col, k / 16, value),
            signs,
        ),
    ensures
        f(
            decode_at::<R, H, F, S>(
                table,
                w_codes,
                w_scales,
                a,
                gamma,
                signs,
                col,
                k,
                value,
                false,
            ),
        ) == f(
            cube_dot(
                widened_row::<R, F>(a, 0, k),
                weight_row(table, w_codes, w_scales, col, k / 16, value),
                signs,
            ),
        ),
{
    let w = weights_of(table, w_codes, w_scales, col, k / 16, value);
    let staged = staged_row::<R, F, S>(a, gamma, signs, k, false);
    let x = widened_row::<R, F>(a, 0, k);
    let column = weight_row(table, w_codes, w_scales, col, k / 16, value);
    law_decode_is_inner_product::<R, H, F, S>(
        f,
        table,
        w_codes,
        w_scales,
        a,
        gamma,
        signs,
        col,
        k,
        value,
    );
    let g = products_of(f, w, staged_entries(staged));
    let h = if signs.len() > 0 {
        law_panel_rotates_the_row(f, x, column, signs);
        products_of(f, rotated_row(x, signs), entries(column))
    } else {
        law_panel_is_inner_product(f, x, column, signs);
        products_of(f, entries(x), entries(column))
    };
    assert forall|e: int| 0 <= e < k implies #[trigger] g(e) == h(e) by {
        assert(column[e] == w(e));
        if signs.len() > 0 {
            let v = rotated(block_of(x, e / 32), signs)[e % 32];
            assert(staged[e] == S::narrow_spec(v));
            let (p, q) = (f(w(e)), f(v));
            assert(p * q == q * p) by (nonlinear_arith);
        } else {
            assert(staged[e] == S::narrow_spec(x[e]));
            let (p, q) = (f(w(e)), f(x[e]));
            assert(p * q == q * p) by (nonlinear_arith);
        }
    }
    lemma_total_same(g, h, k);
}

/// Where no operation rounds and the signs are one or minus one, an output of the decode
/// product whose weight row holds rotated weights is the inner product of the row with
/// the weights, times the gain of the rotation.
pub proof fn law_rotated_decode<R: Real, H: Stored<R>, F: Stored<R>, S: Stored<R>>(
    f: spec_fn(R) -> real,
    table: Seq<R>,
    w_codes: Seq<u32>,
    w_scales: Seq<H>,
    a: Seq<F>,
    gamma: Seq<F>,
    signs: Seq<R>,
    w: Seq<R>,
    col: int,
    k: int,
    value: QuantValue,
)
    requires
        0 <= k,
        k % 32 == 0,
        k <= w.len(),
        signs.len() >= 32,
        forall|j: int| 0 <= j < 32 ==> f(#[trigger] signs[j]) * f(signs[j]) == 1 as real,
        ({
            let x = widened_row::<R, F>(a, 0, k);
            let column = weights_of(table, w_codes, w_scales, col, k / 16, value);
            let staged = staged_row::<R, F, S>(a, gamma, signs, k, false);
            &&& forall|blk: int|
                0 <= blk < k / 32 ==> rotation_exact(f, #[trigger] block_of(x, blk), signs)
                    && rotation_exact(f, block_of(w, blk), signs)
            &&& forall|e: int| 0 <= e < k ==> f(#[trigger] column(e)) == f(rotated_row(w, signs)(e))
            &&& forall|e: int|
                0 <= e < k ==> f((#[trigger] staged[e]).widen_spec()) == f(
                    rotated_row(x, signs)(e),
                )
            &&& plane_exact(f, column, staged)
            &&& multiplies(f, plane_dot(column, staged), R::decimal_spec(1, 0))
            &&& f(R::decimal_spec(1, 0)) == 1 as real
        }),
    ensures
        f(
            decode_at::<R, H, F, S>(
                table,
                w_codes,
                w_scales,
                a,
                gamma,
                signs,
                col,
                k,
                value,
                false,
            ),
        ) == total(
            products_of(f, entries(widened_row::<R, F>(a, 0, k)), entries(w)),
            k,
        ) * rotation_gain(f),
{
    let x = widened_row::<R, F>(a, 0, k);
    let column = weights_of(table, w_codes, w_scales, col, k / 16, value);
    let staged = staged_row::<R, F, S>(a, gamma, signs, k, false);
    law_decode_is_inner_product::<R, H, F, S>(
        f,
        table,
        w_codes,
        w_scales,
        a,
        gamma,
        signs,
        col,
        k,
        value,
    );
    law_rotated_rows(f, x, w, signs, k / 32);
    let got = products_of(f, column, staged_entries(staged));
    let want = products_of(f, rotated_row(x, signs), rotated_row(w, signs));
    assert forall|e: int| 0 <= e < k implies #[trigger] got(e) == want(e) by {
        assert(f(column(e)) == f(rotated_row(w, signs)(e)));
        assert(f(staged[e].widen_spec()) == f(rotated_row(x, signs)(e)));
        let (p, q) = (f(column(e)), f(staged[e].widen_spec()));
        assert(p * q == q * p) by (nonlinear_arith);
    }
    lemma_total_same(got, want, k);
}

/// The staged row of a normalized run is that of a plain run on the activations times
/// their gains.
proof fn lemma_staged_gains<R: Real, F: Stored<R>, G: Stored<R>, S: Stored<R>>(
    a: Seq<F>,
    gamma: Seq<F>,
    product: Seq<G>,
    unread: Seq<G>,
    signs: Seq<R>,
    k: int,
)
    requires
        0 <= k,
        forall|i: int|
            0 <= i < k ==> (#[trigger] product[i]).widen_spec() == a[i].widen_spec().times_spec(
                gamma[i].widen_spec(),
            ),
        signs.len() > 0 ==> forall|i: int|
            0 <= i < k ==> S::narrow_spec((#[trigger] product[i]).widen_spec()).widen_spec()
                == product[i].widen_spec(),
    ensures
        staged_row::<R, F, S>(a, gamma, signs, k, true) == staged_row::<R, G, S>(
            product,
            unread,
            signs,
            k,
            false,
        ),
{
    let g = gained::<R, F, S>(a, gamma, k);
    let x = widened_row::<R, G>(product, 0, k);
    assert forall|i: int| 0 <= i < k implies #[trigger] g[i] == S::narrow_spec(x[i]) by {
        assert(product[i].widen_spec() == a[i].widen_spec().times_spec(gamma[i].widen_spec()));
    }
    if signs.len() > 0 {
        assert forall|i: int| 0 <= i < k implies #[trigger] widened::<R, S>(g)[i] == x[i] by {
            assert(S::narrow_spec(product[i].widen_spec()).widen_spec() == product[i].widen_spec());
            assert(g[i] == S::narrow_spec(x[i]));
        }
        assert(widened::<R, S>(g) =~= x);
    } else {
        assert(g =~= Seq::new(k as nat, |e: int| S::narrow_spec(x[e])));
    }
}

/// An output of the decode product with normalization is that of the plain run on the
/// activations times their gains, times the scale of the activations alone, where the
/// two products with the scale and with one do not round, and, with signs, the staging
/// of the gained activations does not.
pub proof fn law_normalized_run_is_scaled_plain_run<
    R: Real,
    H: Stored<R>,
    F: Stored<R>,
    G: Stored<R>,
    S: Stored<R>,
>(
    f: spec_fn(R) -> real,
    table: Seq<R>,
    w_codes: Seq<u32>,
    w_scales: Seq<H>,
    a: Seq<F>,
    gamma: Seq<F>,
    product: Seq<G>,
    unread: Seq<G>,
    signs: Seq<R>,
    col: int,
    k: int,
    value: QuantValue,
)
    requires
        0 <= k,
        forall|i: int|
            0 <= i < k ==> (#[trigger] product[i]).widen_spec() == a[i].widen_spec().times_spec(
                gamma[i].widen_spec(),
            ),
        signs.len() > 0 ==> forall|i: int|
            0 <= i < k ==> S::narrow_spec((#[trigger] product[i]).widen_spec()).widen_spec()
                == product[i].widen_spec(),
        ({
            let dot = plane_dot(
                weights_of(table, w_codes, w_scales, col, k / 16, value),
                staged_row::<R, G, S>(product, unread, signs, k, false),
            );
            &&& multiplies(f, dot, R::decimal_spec(1, 0))
            &&& f(R::decimal_spec(1, 0)) == 1 as real
            &&& multiplies(f, dot, norm_scale(widened_row::<R, F>(a, 0, k)))
        }),
    ensures
        f(
            decode_at::<R, H, F, S>(
                table,
                w_codes,
                w_scales,
                a,
                gamma,
                signs,
                col,
                k,
                value,
                true,
            ),
        ) == f(
            decode_at::<R, H, G, S>(
                table,
                w_codes,
                w_scales,
                product,
                unread,
                signs,
                col,
                k,
                value,
                false,
            ),
        ) * f(norm_scale(widened_row::<R, F>(a, 0, k))),
{
    lemma_staged_gains::<R, F, G, S>(a, gamma, product, unread, signs, k);
}

/// Whether no operation of the scale of a row rounds.
pub open spec fn norm_exact<R: Real>(f: spec_fn(R) -> real, x: Seq<R>) -> bool {
    let square = cube_dot(x, x, Seq::<R>::empty());
    let count = R::decimal_spec(x.len() as i64, 0);
    let least = R::decimal_spec(1, 6);
    let mean = square.over_spec(count);
    let root = mean.plus_spec(least).sqrt_spec();
    &&& cube_exact(f, x, x, Seq::<R>::empty())
    &&& f(count) == x.len() as real
    &&& f(mean) * f(count) == f(square)
    &&& adds(f, mean, least)
    &&& f(root) > 0 as real
    &&& f(root) * f(root) == f(mean.plus_spec(least))
    &&& f(root.recip_spec()) * f(root) == 1 as real
}

/// Where no operation rounds, the scale of a row is one over the root of its mean square
/// plus 0.000001, as the format holds that number: it is positive, and its square times
/// that sum is one.
pub proof fn law_norm_scale_is_inverse_root_mean_square<R: Real>(
    f: spec_fn(R) -> real,
    x: Seq<R>,
    mean: real,
)
    requires
        norm_exact(f, x),
        x.len() > 0,
        mean * (x.len() as real) == total(
            products_of(f, entries(x), entries(x)),
            x.len() as int,
        ),
    ensures
        f(norm_scale(x)) > 0 as real,
        (f(norm_scale(x)) * f(norm_scale(x))) * (mean + f(R::decimal_spec(1, 6))) == 1 as real,
{
    law_panel_is_inner_product(f, x, x, Seq::<R>::empty());
    let square = cube_dot(x, x, Seq::<R>::empty());
    let count = R::decimal_spec(x.len() as i64, 0);
    let least = R::decimal_spec(1, 6);
    let got = square.over_spec(count);
    let root = got.plus_spec(least).sqrt_spec();
    let (s, r, n, g) = (f(root.recip_spec()), f(root), x.len() as real, f(got));
    assert(n > 0 as real);
    assert(g == mean) by (nonlinear_arith)
        requires
            g * n == mean * n,
            n > 0 as real,
    ;
    assert(s > 0 as real) by (nonlinear_arith)
        requires
            s * r == 1 as real,
            r > 0 as real,
    ;
    assert((s * s) * (r * r) == (s * r) * (s * r)) by (nonlinear_arith);
}

} // verus!
