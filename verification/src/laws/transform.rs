//! The rotation is the Walsh-Hadamard transform: where no operation rounds, every entry
//! is a sum over all values, each with the sign of the Walsh-Hadamard matrix.
use vstd::prelude::*;
use crate::arith::Real;
use crate::exact::{
    lemma_total_same, lemma_total_scaled, lemma_total_split, multiplies, shifted, total,
};
use crate::laws::rotation::{rotation_exact, stage_exact, wing_exact};
use crate::rht::{butterfly, inv_sqrt32, is_step, rotated, stages, with_signs};

verus! {

/// How many bits are set in both numbers.
pub open spec fn common_bits(i: int, j: int) -> nat
    decreases i,
{
    if i <= 0 {
        0
    } else {
        common_bits(i / 2, j / 2) + if i % 2 == 1 && j % 2 == 1 {
            1nat
        } else {
            0
        }
    }
}

/// Entry (`i`, `j`) of the Walsh-Hadamard matrix: minus one to the power of the number
/// of bits that are set in both.
pub open spec fn walsh(i: int, j: int) -> real {
    if common_bits(i, j) % 2 == 0 {
        1 as real
    } else {
        -1 as real
    }
}

/// The values from `base` on, each with its sign for entry `q`.
pub open spec fn walsh_terms<R: Real>(
    f: spec_fn(R) -> real,
    s: Seq<R>,
    base: int,
    q: int,
) -> spec_fn(int) -> real {
    |i: int| walsh(i, q) * f(s[base + i])
}

/// A bit above those of two numbers is common to both where both have it.
proof fn lemma_top_bit(i: int, j: int, a: int, b: int, step: int)
    requires
        is_step(step),
        0 <= i < step,
        0 <= j < step,
        a == 0 || a == 1,
        b == 0 || b == 1,
    ensures
        common_bits(i + step * a, j + step * b) == common_bits(i, j) + (if a == 1 && b == 1 {
            1nat
        } else {
            0
        }),
    decreases step,
{
    reveal_with_fuel(common_bits, 2);
    if step > 1 {
        let h = step / 2;
        assert(step == 2 * h && is_step(h));
        lemma_top_bit(i / 2, j / 2, a, b, h);
        assert((i + step * a) / 2 == i / 2 + h * a && (i + step * a) % 2 == i % 2) by {
            assert(step * a == 2 * (h * a)) by (nonlinear_arith)
                requires
                    step == 2 * h,
            ;
        }
        assert((j + step * b) / 2 == j / 2 + h * b && (j + step * b) % 2 == j % 2) by {
            assert(step * b == 2 * (h * b)) by (nonlinear_arith)
                requires
                    step == 2 * h,
            ;
        }
        if i + step * a <= 0 {
            assert(a == 0 && i == 0);
        }
    }
}

/// Signs of the halves of a wider transform.
proof fn lemma_walsh_halves(i: int, q: int, step: int)
    requires
        is_step(step),
        0 <= i < step,
        0 <= q < step,
    ensures
        walsh(i, q + step) == walsh(i, q),
        walsh(i + step, q) == walsh(i, q),
        walsh(i + step, q + step) == -walsh(i, q),
{
    lemma_top_bit(i, q, 0, 1, step);
    lemma_top_bit(i, q, 1, 0, step);
    lemma_top_bit(i, q, 1, 1, step);
}

/// Positions of an entry within its group and within its half.
proof fn lemma_entry_place(j: int, step: int)
    requires
        is_step(step),
        0 <= j < 32,
    ensures
        ({
            let base = 2 * step * (j / (2 * step));
            let q = j % (2 * step);
            &&& 0 <= base && base + 2 * step <= 32
            &&& j == base + q && 0 <= q < 2 * step
            &&& q < step ==> {
                &&& (j / step) % 2 == 0
                &&& step * (j / step) == base && j % step == q
                &&& step * ((j + step) / step) == base + step && (j + step) % step == q
            }
            &&& q >= step ==> {
                &&& (j / step) % 2 == 1
                &&& step * (j / step) == base + step && j % step == q - step
                &&& step * ((j - step) / step) == base && (j - step) % step == q - step
            }
        }),
{
    let span = 2 * step;
    let g = j / span;
    let q = j % span;
    let base = span * g;
    vstd::arithmetic::div_mod::lemma_fundamental_div_mod(j, span);
    let groups: int = if step == 1 {
        16
    } else if step == 2 {
        8
    } else if step == 4 {
        4
    } else if step == 8 {
        2
    } else {
        1
    };
    assert(span * groups == 32);
    assert(0 <= base && base + span <= 32) by (nonlinear_arith)
        requires
            0 < span,
            base == span * g,
            span * groups == 32,
            j == base + q,
            0 <= j < 32,
            0 <= q < span,
    ;
    assert(base == (2 * g) * step && (2 * g + 1) * step == base + step) by (nonlinear_arith)
        requires
            base == span * g,
            span == 2 * step,
    ;
    assert(step * (2 * g) == base && step * (2 * g + 1) == base + step) by (nonlinear_arith)
        requires
            base == span * g,
            span == 2 * step,
    ;
    if q < step {
        vstd::arithmetic::div_mod::lemma_fundamental_div_mod_converse(j, step, 2 * g, q);
        vstd::arithmetic::div_mod::lemma_fundamental_div_mod_converse(
            j + step,
            step,
            2 * g + 1,
            q,
        );
    } else {
        vstd::arithmetic::div_mod::lemma_fundamental_div_mod_converse(
            j,
            step,
            2 * g + 1,
            q - step,
        );
        vstd::arithmetic::div_mod::lemma_fundamental_div_mod_converse(
            j - step,
            step,
            2 * g,
            q - step,
        );
    }
}

/// Stages keep the length.
proof fn lemma_stages_len<R: Real>(s: Seq<R>, width: int)
    ensures
        stages(s, width).len() == s.len(),
    decreases width,
{
    if width > 1 {
        lemma_stages_len(s, width / 2);
    }
}

/// The halves of an entry's sum, which are entries of the stage before.
proof fn lemma_halves<R: Real>(f: spec_fn(R) -> real, s: Seq<R>, base: int, q: int, step: int)
    requires
        is_step(step),
        0 <= q < step,
    ensures
        ({
            let low = total(walsh_terms(f, s, base, q), step);
            let high = total(walsh_terms(f, s, base + step, q), step);
            &&& total(walsh_terms(f, s, base, q), 2 * step) == low + high
            &&& total(walsh_terms(f, s, base, q + step), 2 * step) == low - high
        }),
{
    let low = walsh_terms(f, s, base, q);
    let high = walsh_terms(f, s, base + step, q);
    let other = walsh_terms(f, s, base, q + step);
    lemma_total_split(low, step, step);
    lemma_total_split(other, step, step);
    assert forall|i: int| 0 <= i < step implies #[trigger] shifted(low, step)(i) == high(i) by {
        lemma_walsh_halves(i, q, step);
        assert(step + i == i + step);
    }
    lemma_total_same(shifted(low, step), high, step);
    assert forall|i: int| 0 <= i < step implies #[trigger] other(i) == low(i) by {
        lemma_walsh_halves(i, q, step);
    }
    lemma_total_same(other, low, step);
    let minus = -1 as real;
    assert forall|i: int| 0 <= i < step implies #[trigger] shifted(other, step)(i) == high(i)
        * minus by {
        lemma_walsh_halves(i, q, step);
        assert(step + i == i + step);
        let (w, v) = (walsh(i, q), f(s[base + step + i]));
        assert((-w) * v == (w * v) * (-1 as real)) by (nonlinear_arith);
    }
    lemma_total_scaled(high, shifted(other, step), minus, step);
    let t = total(high, step);
    assert(t * (-1 as real) == -t) by (nonlinear_arith);
}

/// The stages with steps below `width` transform every group of `width` values.
proof fn lemma_stages_walsh<R: Real>(f: spec_fn(R) -> real, s: Seq<R>, width: int, j: int)
    requires
        s.len() == 32,
        width == 32 || is_step(width),
        0 <= j < 32,
        forall|step: int| is_step(step) ==> #[trigger] stage_exact(f, stages(s, step), step),
    ensures
        f(stages(s, width)[j]) == total(
            walsh_terms(f, s, width * (j / width), j % width),
            width,
        ),
    decreases width,
{
    if width == 1 {
        let term = walsh_terms(f, s, j, 0);
        reveal_with_fuel(total, 3);
        assert(walsh(0, 0) == 1 as real);
        let v = f(s[j]);
        assert((1 as real) * v == v) by (nonlinear_arith);
        assert(term(0) == v);
        assert(stages(s, 1) == s);
        assert(1 * (j / 1) == j && j % 1 == 0);
    } else {
        let step = width / 2;
        assert(is_step(step) && width == 2 * step);
        let before = stages(s, step);
        lemma_stages_len(s, step);
        assert(stages(s, width) == butterfly(before, step));
        assert(stage_exact(f, before, step));
        assert(wing_exact(f, before, step, j));
        lemma_entry_place(j, step);
        let base = 2 * step * (j / (2 * step));
        let q = j % (2 * step);
        if q < step {
            lemma_stages_walsh(f, s, step, j);
            lemma_stages_walsh(f, s, step, j + step);
            lemma_halves(f, s, base, q, step);
        } else {
            lemma_stages_walsh(f, s, step, j - step);
            lemma_stages_walsh(f, s, step, j);
            lemma_halves(f, s, base, q - step, step);
        }
    }
}

/// The values of a block with their signs, each with the sign of the matrix for entry
/// `j`.
pub open spec fn transform_terms<R: Real>(
    f: spec_fn(R) -> real,
    x: Seq<R>,
    signs: Seq<R>,
    j: int,
) -> spec_fn(int) -> real {
    |i: int| walsh(i, j) * (f(signs[i]) * f(x[i]))
}

/// Where no operation rounds, entry `j` of a rotated block is the normalization times
/// the sum over all values of the block, each times its sign and times minus one to the
/// power of the number of bits that its position has in common with `j`.
pub proof fn law_rotation_is_walsh_hadamard<R: Real>(
    f: spec_fn(R) -> real,
    x: Seq<R>,
    signs: Seq<R>,
    j: int,
)
    requires
        0 <= j < 32,
        rotation_exact(f, x, signs),
    ensures
        f(rotated(x, signs)[j]) == total(transform_terms(f, x, signs, j), 32) * f(
            inv_sqrt32::<R>(),
        ),
{
    let s = with_signs(x, signs);
    lemma_stages_walsh(f, s, 32, j);
    lemma_stages_len(s, 32);
    assert(32 * (j / 32) == 0 && j % 32 == j);
    assert(multiplies(f, stages(s, 32)[j], inv_sqrt32::<R>()));
    let term = walsh_terms(f, s, 0, j);
    let want = transform_terms(f, x, signs, j);
    assert forall|i: int| 0 <= i < 32 implies #[trigger] term(i) == want(i) by {
        assert(multiplies(f, x[i], signs[i]));
        let (p, q) = (f(x[i]), f(signs[i]));
        assert(p * q == q * p) by (nonlinear_arith);
    }
    lemma_total_same(term, want, 32);
}

} // verus!
