//! Sign patterns as keys: equality goes by bit patterns, and so does the hash.
use vstd::prelude::*;
use vstd::std_specs::cmp::PartialEqSpec;
use crate::arith::Real;
use crate::rht::{same_words, RhtSigns};

verus! {

/// Patterns are equal where, and only where, the words that their hashes are made of
/// are the same.
pub proof fn law_equal_patterns_hash_alike<R: Real>(a: Seq<R>, b: Seq<R>)
    ensures
        same_words(a, b) <==> a.map_values(|x: R| x.word_spec()) == b.map_values(
            |x: R| x.word_spec(),
        ),
{
    let p = a.map_values(|x: R| x.word_spec());
    let q = b.map_values(|x: R| x.word_spec());
    if same_words(a, b) {
        assert(p =~= q);
    }
    if p == q {
        assert(a.len() == p.len() && b.len() == q.len());
        assert forall|i: int| 0 <= i < a.len() implies #[trigger] a[i].word_spec()
            == b[i].word_spec() by {
            assert(p[i] == q[i]);
        }
    }
}

/// Comparing two patterns goes by their bit patterns: they are equal where they are as
/// long and no entry differs in a bit.
pub proof fn law_patterns_compare_by_words<R: Real>(a: RhtSigns<R>, b: RhtSigns<R>)
    ensures
        a.eq_spec(&b) <==> a.0@.len() == b.0@.len() && forall|i: int|
            0 <= i < a.0@.len() ==> (#[trigger] a.0@[i]).word_spec() == b.0@[i].word_spec(),
{
    if a.eq_spec(&b) {
        assert forall|i: int| 0 <= i < a.0@.len() implies (#[trigger] a.0@[i]).word_spec()
            == b.0@[i].word_spec() by {
            assert(a.0@[i].word_spec() == b.0@[i].word_spec());
        }
    }
}

/// Equality of patterns is an equivalence.
pub proof fn law_pattern_equality_is_equivalence<R: Real>(a: Seq<R>, b: Seq<R>, c: Seq<R>)
    ensures
        same_words(a, a),
        same_words(a, b) ==> same_words(b, a),
        same_words(a, b) && same_words(b, c) ==> same_words(a, c),
{
    if same_words(a, b) {
        assert forall|i: int| 0 <= i < b.len() implies #[trigger] b[i].word_spec()
            == a[i].word_spec() by {
            assert(a[i].word_spec() == b[i].word_spec());
        }
        if same_words(b, c) {
            assert forall|i: int| 0 <= i < a.len() implies #[trigger] a[i].word_spec()
                == c[i].word_spec() by {
                assert(b[i].word_spec() == c[i].word_spec());
            }
        }
    }
}

} // verus!
