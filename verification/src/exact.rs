//! Readings: what the numbers of a format stand for. Where no operation rounds, a
//! computation stands for the real number that it is written for; the predicates
//! here say of single operations that they do not round.
use vstd::prelude::*;
use crate::arith::{sum_of, Real};

verus! {

/// The sum of the first `n` terms.
pub open spec fn total(term: spec_fn(int) -> real, n: int) -> real
    decreases n,
{
    if n <= 0 {
        0 as real
    } else {
        total(term, n - 1) + term(n - 1)
    }
}

/// The terms, read.
pub open spec fn read<R: Real>(f: spec_fn(R) -> real, term: spec_fn(int) -> R) -> spec_fn(
    int,
) -> real {
    |i: int| f(term(i))
}

/// The terms from `start` on.
pub open spec fn shifted(term: spec_fn(int) -> real, start: int) -> spec_fn(int) -> real {
    |i: int| term(start + i)
}

/// Sums of the rows of a table with `m` columns.
pub open spec fn row_sums(g: spec_fn(int, int) -> real, m: int) -> spec_fn(int) -> real {
    |i: int| total(|j: int| g(i, j), m)
}

/// Sums of the columns of a table with `n` rows.
pub open spec fn column_sums(g: spec_fn(int, int) -> real, n: int) -> spec_fn(int) -> real {
    |j: int| total(|i: int| g(i, j), n)
}

/// Whether the sum of `a` and `b` does not round.
pub open spec fn adds<R: Real>(f: spec_fn(R) -> real, a: R, b: R) -> bool {
    f(a.plus_spec(b)) == f(a) + f(b)
}

/// Whether the difference of `a` and `b` does not round.
pub open spec fn subtracts<R: Real>(f: spec_fn(R) -> real, a: R, b: R) -> bool {
    f(a.minus_spec(b)) == f(a) - f(b)
}

/// Whether the product of `a` and `b` does not round.
pub open spec fn multiplies<R: Real>(f: spec_fn(R) -> real, a: R, b: R) -> bool {
    f(a.times_spec(b)) == f(a) * f(b)
}

/// Whether no addition of the first `n` terms rounds.
pub open spec fn sums<R: Real>(f: spec_fn(R) -> real, term: spec_fn(int) -> R, n: int) -> bool {
    &&& f(R::decimal_spec(0, 0)) == 0 as real
    &&& forall|i: int| 0 <= i < n ==> #[trigger] adds(f, sum_of(term, i), term(i))
}

/// Whether the sum over the lanes of a plane does not round.
pub open spec fn sums_plane<R: Real>(f: spec_fn(R) -> real, lanes: Seq<R>) -> bool {
    f(R::plane_sum_spec(lanes)) == total(|i: int| f(lanes[i]), lanes.len() as int)
}

/// A sum that does not round stands for the sum of what the terms stand for.
pub proof fn lemma_sums<R: Real>(f: spec_fn(R) -> real, term: spec_fn(int) -> R, n: int)
    requires
        sums(f, term, n),
    ensures
        f(sum_of(term, n)) == total(read(f, term), n),
    decreases n,
{
    if n > 0 {
        lemma_sums(f, term, n - 1);
        assert(adds(f, sum_of(term, n - 1), term(n - 1)));
    }
}

/// Equal terms have equal sums.
pub proof fn lemma_total_same(g: spec_fn(int) -> real, h: spec_fn(int) -> real, n: int)
    requires
        forall|i: int| 0 <= i < n ==> #[trigger] g(i) == h(i),
    ensures
        total(g, n) == total(h, n),
    decreases n,
{
    if n > 0 {
        lemma_total_same(g, h, n - 1);
        assert(g(n - 1) == h(n - 1));
    }
}

/// Smaller terms have a smaller sum.
pub proof fn lemma_total_at_most(g: spec_fn(int) -> real, h: spec_fn(int) -> real, n: int)
    requires
        forall|i: int| 0 <= i < n ==> #[trigger] g(i) <= h(i),
    ensures
        total(g, n) <= total(h, n),
    decreases n,
{
    if n > 0 {
        lemma_total_at_most(g, h, n - 1);
        assert(g(n - 1) <= h(n - 1));
    }
}

/// A common factor goes out of a sum.
pub proof fn lemma_total_scaled(
    g: spec_fn(int) -> real,
    h: spec_fn(int) -> real,
    c: real,
    n: int,
)
    requires
        forall|i: int| 0 <= i < n ==> #[trigger] h(i) == g(i) * c,
    ensures
        total(h, n) == total(g, n) * c,
    decreases n,
{
    if n <= 0 {
        assert((0 as real) * c == 0 as real) by (nonlinear_arith);
    } else {
        lemma_total_scaled(g, h, c, n - 1);
        let (s, t) = (total(g, n - 1), g(n - 1));
        assert(h(n - 1) == t * c);
        assert((s + t) * c == s * c + t * c) by (nonlinear_arith);
    }
}

/// The sum of termwise sums.
pub proof fn lemma_total_plus(
    a: spec_fn(int) -> real,
    b: spec_fn(int) -> real,
    h: spec_fn(int) -> real,
    n: int,
)
    requires
        forall|i: int| 0 <= i < n ==> #[trigger] h(i) == a(i) + b(i),
    ensures
        total(h, n) == total(a, n) + total(b, n),
    decreases n,
{
    if n > 0 {
        lemma_total_plus(a, b, h, n - 1);
        assert(h(n - 1) == a(n - 1) + b(n - 1));
    }
}

/// A sum in two parts.
pub proof fn lemma_total_split(g: spec_fn(int) -> real, n: int, m: int)
    requires
        0 <= n,
        0 <= m,
    ensures
        total(g, n + m) == total(g, n) + total(shifted(g, n), m),
    decreases m,
{
    if m > 0 {
        lemma_total_split(g, n, m - 1);
        assert(shifted(g, n)(m - 1) == g(n + m - 1));
    }
}

/// A sum of `outer` runs of `inner` terms each is the sum of all terms.
pub proof fn lemma_total_runs(
    g: spec_fn(int) -> real,
    h: spec_fn(int) -> real,
    inner: int,
    outer: int,
)
    requires
        0 <= inner,
        0 <= outer,
        forall|o: int| 0 <= o < outer ==> #[trigger] h(o) == total(shifted(g, inner * o), inner),
    ensures
        total(h, outer) == total(g, inner * outer),
    decreases outer,
{
    if outer <= 0 {
        assert(inner * outer == 0) by (nonlinear_arith)
            requires
                outer == 0,
        ;
    } else {
        lemma_total_runs(g, h, inner, outer - 1);
        let start = inner * (outer - 1);
        assert(0 <= start && start + inner == inner * outer) by (nonlinear_arith)
            requires
                start == inner * (outer - 1),
                0 <= inner,
                0 < outer,
        ;
        assert(h(outer - 1) == total(shifted(g, start), inner));
        lemma_total_split(g, start, inner);
    }
}

/// The order of two sums does not matter.
pub proof fn lemma_total_swap(g: spec_fn(int, int) -> real, n: int, m: int)
    requires
        0 <= n,
        0 <= m,
    ensures
        total(row_sums(g, m), n) == total(column_sums(g, n), m),
    decreases n,
{
    if n <= 0 {
        assert forall|j: int| 0 <= j < m implies #[trigger] column_sums(g, n)(j) == 0 as real by {
        }
        lemma_total_zero(column_sums(g, n), m);
    } else {
        lemma_total_swap(g, n - 1, m);
        let last = |j: int| g(n - 1, j);
        assert(row_sums(g, m)(n - 1) == total(last, m));
        assert forall|j: int| 0 <= j < m implies #[trigger] column_sums(g, n)(j) == column_sums(
            g,
            n - 1,
        )(j) + last(j) by {
            let column = |i: int| g(i, j);
            assert(total(column, n) == total(column, n - 1) + column(n - 1));
        }
        lemma_total_plus(column_sums(g, n - 1), last, column_sums(g, n), m);
    }
}

/// Zeros add up to zero.
pub proof fn lemma_total_zero(g: spec_fn(int) -> real, n: int)
    requires
        forall|i: int| 0 <= i < n ==> #[trigger] g(i) == 0 as real,
    ensures
        total(g, n) == 0 as real,
    decreases n,
{
    if n > 0 {
        lemma_total_zero(g, n - 1);
        assert(g(n - 1) == 0 as real);
    }
}

} // verus!
