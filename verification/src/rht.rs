//! The randomized Hadamard transform of a block of thirty-two values: signs, the
//! Walsh-Hadamard butterfly, and the normalization by one over the root of 32.
use vstd::prelude::*;
use vstd::std_specs::cmp::PartialEqSpecImpl;
use crate::arith::{copy_all, Real};

verus! {

/// The digits of the normalization, one over the square root of 32.
pub const INV_SQRT32: i64 = 17677669;

/// The decimal places of [`INV_SQRT32`].
pub const INV_SQRT32_PLACES: u32 = 8;

/// The sign pattern of the rotation, 32 wide. An empty pattern selects no rotation.
#[derive(Debug)]
pub struct RhtSigns<R: Real>(pub Vec<R>);

/// Whether two patterns hold the same bit patterns.
pub open spec fn same_words<R: Real>(a: Seq<R>, b: Seq<R>) -> bool {
    a.len() == b.len() && forall|i: int|
        0 <= i < a.len() ==> #[trigger] a[i].word_spec() == b[i].word_spec()
}

impl<R: Real> PartialEq for RhtSigns<R> {
    fn eq(&self, other: &Self) -> (same: bool) {
        if self.0.len() != other.0.len() {
            return false;
        }
        let mut i: usize = 0;
        while i < self.0.len()
            invariant
                i <= self.0.len(),
                self.0.len() == other.0.len(),
                forall|j: int|
                    0 <= j < i ==> #[trigger] self.0@[j].word_spec() == other.0@[j].word_spec(),
            decreases self.0.len() - i,
        {
            if self.0[i].word() != other.0[i].word() {
                return false;
            }
            i += 1;
        }
        true
    }
}

impl<R: Real> PartialEqSpecImpl for RhtSigns<R> {
    open spec fn obeys_eq_spec() -> bool {
        true
    }

    open spec fn eq_spec(&self, other: &Self) -> bool {
        same_words(self.0@, other.0@)
    }
}

impl<R: Real> Eq for RhtSigns<R> {

}

impl<R: Real> Clone for RhtSigns<R> {
    fn clone(&self) -> (copy: Self)
        ensures
            copy.0@ == self.0@,
    {
        RhtSigns(copy_all(&self.0))
    }
}

impl<R: Real> RhtSigns<R> {
    /// The words that a hash of the pattern is made of: every bit pattern, in order.
    pub fn hash(&self) -> (words: Vec<u32>)
        ensures
            words@ == self.0@.map_values(|x: R| x.word_spec()),
    {
        let mut words: Vec<u32> = Vec::new();
        let mut i: usize = 0;
        while i < self.0.len()
            invariant
                i <= self.0.len(),
                words@ == self.0@.take(i as int).map_values(|x: R| x.word_spec()),
            decreases self.0.len() - i,
        {
            words.push(self.0[i].word());
            i += 1;
            proof {
                assert(self.0@.take(i as int).map_values(|x: R| x.word_spec())
                    =~= self.0@.take(i - 1).map_values(|x: R| x.word_spec()).push(
                    self.0@[i - 1].word_spec(),
                ));
            }
        }
        proof {
            assert(self.0@.take(i as int) =~= self.0@);
        }
        words
    }
}

/// One stage of the butterfly: values `step` apart are replaced by their sum and
/// their difference.
pub open spec fn butterfly<R: Real>(s: Seq<R>, step: int) -> Seq<R> {
    Seq::new(
        s.len(),
        |i: int|
            if (i / step) % 2 == 0 {
                s[i].plus_spec(s[i + step])
            } else {
                s[i - step].minus_spec(s[i])
            },
    )
}

/// The stages of the butterfly with steps below `width`, the smallest first.
pub open spec fn stages<R: Real>(s: Seq<R>, width: int) -> Seq<R>
    decreases width,
{
    if width <= 1 {
        s
    } else {
        butterfly(stages(s, width / 2), width / 2)
    }
}

/// The normalization factor.
pub open spec fn inv_sqrt32<R: Real>() -> R {
    R::decimal_spec(INV_SQRT32, INV_SQRT32_PLACES)
}

/// The first 32 values of `x`, each with its sign.
pub open spec fn with_signs<R: Real>(x: Seq<R>, signs: Seq<R>) -> Seq<R> {
    Seq::new(32, |j: int| x[j].times_spec(signs[j]))
}

/// The forward transform of a block.
pub open spec fn rotated<R: Real>(x: Seq<R>, signs: Seq<R>) -> Seq<R> {
    stages(with_signs(x, signs), 32).map_values(|v: R| v.times_spec(inv_sqrt32::<R>()))
}

/// Whether `step` is the step of a butterfly stage.
pub open spec fn is_step(step: int) -> bool {
    step == 1 || step == 2 || step == 4 || step == 8 || step == 16
}

/// The lower position of the pair that position `i` belongs to.
spec fn pair_low(i: int, step: int) -> int {
    if (i / step) % 2 == 0 {
        i
    } else {
        i - step
    }
}

/// Positions within a block and the bits of their numbers.
proof fn lemma_pair(i: u32, step: u32)
    requires
        i < 32,
        is_step(step as int),
    ensures
        (i & step == 0) == ((i as int / step as int) % 2 == 0),
        i & step == 0 ==> i ^ step == i + step && i + step < 32 && ((i + step) / step as int) % 2
            == 1,
        i & step != 0 ==> i ^ step == i - step && ((i - step) / step as int) % 2 == 0,
{
    assert((i & step == 0) == ((i / step) % 2 == 0)) by (bit_vector)
        requires
            i < 32,
            step == 1 || step == 2 || step == 4 || step == 8 || step == 16,
    ;
    if i & step == 0 {
        assert(i ^ step == i + step && i + step < 32 && (((i + step) as u32) / step) % 2 == 1)
            by (bit_vector)
            requires
                i < 32,
                step == 1 || step == 2 || step == 4 || step == 8 || step == 16,
                i & step == 0,
        ;
    } else {
        assert(i ^ step == i - step && i >= step && (((i - step) as u32) / step) % 2 == 0)
            by (bit_vector)
            requires
                i < 32,
                step == 1 || step == 2 || step == 4 || step == 8 || step == 16,
                i & step != 0,
        ;
    }
}

/// The lower positions of the pairs from `q` on are the `step` positions behind it.
proof fn lemma_group(i: u32, q: u32, step: u32)
    requires
        i < 32,
        q < 32,
        is_step(step as int),
        q % ((2 * step) as u32) == 0,
    ensures
        q + 2 * step <= 32,
        ((q + 2 * step) as u32) % ((2 * step) as u32) == 0,
        (i as int / step as int) % 2 == 0 ==> (i < q + step <==> i < q + 2 * step),
        q <= i < q + step ==> (i as int / step as int) % 2 == 0,
{
    assert(q + 2 * step <= 32 && ((q + 2 * step) as u32) % ((2 * step) as u32) == 0 && ((i / step)
        % 2 == 0 ==> (i < q + step <==> i < q + 2 * step)) && (q <= i && i < q + step ==> (i
        / step) % 2 == 0)) by (bit_vector)
        requires
            i < 32,
            q < 32,
            step == 1 || step == 2 || step == 4 || step == 8 || step == 16,
            q % ((2 * step) as u32) == 0,
    ;
}

/// One butterfly stage on a block, in place.
fn butterfly_stage<R: Real>(buf: &mut Vec<R>, step: usize)
    requires
        old(buf)@.len() == 32,
        is_step(step as int),
    ensures
        final(buf)@ == butterfly(old(buf)@, step as int),
{
    let ghost before = buf@;
    let ghost after = butterfly(before, step as int);
    let span: usize = step * 2;
    let mut q: usize = 0;
    proof {
        vstd::arithmetic::div_mod::lemma_small_mod(0, span as nat);
    }
    while q < 32
        invariant
            buf@.len() == 32,
            before.len() == 32,
            is_step(step as int),
            span == 2 * step,
            after == butterfly(before, step as int),
            q <= 32,
            (q as u32) % (span as u32) == 0,
            forall|i: int|
                0 <= i < 32 ==> #[trigger] buf@[i] == (if pair_low(i, step as int) < q {
                    after[i]
                } else {
                    before[i]
                }),
        decreases 32 - q,
    {
        proof {
            lemma_group(0, q as u32, step as u32);
        }
        let mut idx: usize = q;
        while idx < q + step
            invariant
                buf@.len() == 32,
                before.len() == 32,
                is_step(step as int),
                span == 2 * step,
                after == butterfly(before, step as int),
                q <= idx <= q + step,
                q + span <= 32,
                (q as u32) % (span as u32) == 0,
                forall|i: int|
                    0 <= i < 32 ==> #[trigger] buf@[i] == (if pair_low(i, step as int) < idx {
                        after[i]
                    } else {
                        before[i]
                    }),
            decreases q + step - idx,
        {
            proof {
                lemma_group(idx as u32, q as u32, step as u32);
                lemma_pair(idx as u32, step as u32);
            }
            let a: R = buf[idx];
            let c: R = buf[idx + step];
            assert(a == before[idx as int] && c == before[idx + step]);
            buf[idx] = a.plus(c);
            buf[idx + step] = a.minus(c);
            proof {
                assert forall|i: int| 0 <= i < 32 implies #[trigger] buf@[i] == (if pair_low(
                    i,
                    step as int,
                ) < idx + 1 {
                    after[i]
                } else {
                    before[i]
                }) by {
                    lemma_pair(i as u32, step as u32);
                }
            }
            idx += 1;
        }
        proof {
            assert forall|i: int| 0 <= i < 32 implies #[trigger] buf@[i] == (if pair_low(
                i,
                step as int,
            ) < q + span {
                after[i]
            } else {
                before[i]
            }) by {
                lemma_pair(i as u32, step as u32);
                lemma_group(pair_low(i, step as int) as u32, q as u32, step as u32);
            }
        }
        q += span;
    }
    proof {
        assert forall|i: int| 0 <= i < 32 implies #[trigger] buf@[i] == after[i] by {
            lemma_pair(i as u32, step as u32);
        }
        assert(buf@ =~= after);
    }
}

/// The forward transform of the 32 values of `x` from `base` on, by one unit of
/// the device that holds the whole block.
pub fn rotate_block<R: Real>(x: &[R], base: usize, signs: &RhtSigns<R>) -> (out: Vec<R>)
    requires
        base + 32 <= x@.len(),
        signs.0@.len() >= 32,
    ensures
        out@ == rotated(x@.subrange(base as int, base + 32), signs.0@),
        out@.len() == 32,
{
    let ghost block = x@.subrange(base as int, base + 32);
    let mut buf: Vec<R> = Vec::new();
    let mut j: usize = 0;
    while j < 32
        invariant
            j <= 32,
            base + 32 <= x@.len(),
            x@.len() == x.len(),
            signs.0@.len() >= 32,
            block == x@.subrange(base as int, base + 32),
            buf@ == with_signs(block, signs.0@).take(j as int),
        decreases 32 - j,
    {
        buf.push(x[base + j].times(signs.0[j]));
        j += 1;
        proof {
            assert(with_signs(block, signs.0@).take(j as int) =~= with_signs(
                block,
                signs.0@,
            ).take(j - 1).push(with_signs(block, signs.0@)[j - 1]));
        }
    }
    proof {
        assert(with_signs(block, signs.0@).take(32) =~= with_signs(block, signs.0@));
    }
    let mut step: usize = 1;
    while step < 32
        invariant
            is_step(step as int) || step == 32,
            buf@.len() == 32,
            buf@ == stages(with_signs(block, signs.0@), step as int),
        decreases 32 - step,
    {
        butterfly_stage(&mut buf, step);
        step *= 2;
    }
    normalize(&mut buf);
    buf
}

/// Multiplies every value by the normalization factor.
fn normalize<R: Real>(buf: &mut Vec<R>)
    ensures
        final(buf)@ == old(buf)@.map_values(|v: R| v.times_spec(inv_sqrt32::<R>())),
{
    let ghost before = buf@;
    let factor: R = R::decimal(INV_SQRT32, INV_SQRT32_PLACES);
    let mut j: usize = 0;
    while j < buf.len()
        invariant
            j <= buf@.len(),
            buf@.len() == before.len(),
            factor == inv_sqrt32::<R>(),
            forall|i: int| 0 <= i < j ==> #[trigger] buf@[i] == before[i].times_spec(factor),
            forall|i: int| j <= i < before.len() ==> #[trigger] buf@[i] == before[i],
        decreases buf@.len() - j,
    {
        let v: R = buf[j];
        buf[j] = v.times(factor);
        j += 1;
    }
    proof {
        assert(buf@ =~= before.map_values(|v: R| v.times_spec(inv_sqrt32::<R>())));
    }
}

/// One butterfly stage across the lanes of a plane: every lane `l` takes the value
/// of lane `l ^ mask`; the lower lane of a pair adds, the upper one subtracts its
/// own from what it took.
fn plane_butterfly<R: Real>(lanes: &Vec<R>, mask: u32) -> (out: Vec<R>)
    requires
        lanes@.len() == 32,
        is_step(mask as int),
    ensures
        out@ == butterfly(lanes@, mask as int),
{
    let mut out: Vec<R> = Vec::new();
    let mut lane: u32 = 0;
    while lane < 32
        invariant
            lane <= 32,
            lanes@.len() == 32,
            is_step(mask as int),
            out@ == butterfly(lanes@, mask as int).take(lane as int),
        decreases 32 - lane,
    {
        proof {
            lemma_pair(lane, mask);
        }
        let v: R = lanes[lane as usize];
        let p: R = lanes[(lane ^ mask) as usize];
        if (lane & mask) == 0 {
            out.push(v.plus(p));
        } else {
            out.push(p.minus(v));
        }
        lane += 1;
        proof {
            let all = butterfly(lanes@, mask as int);
            assert(all.take(lane as int) =~= all.take(lane - 1).push(all[lane - 1]));
        }
    }
    proof {
        assert(butterfly(lanes@, mask as int).take(32) =~= butterfly(lanes@, mask as int));
    }
    out
}

/// The forward transform of a block that a plane holds, one value per lane.
pub fn rotate_plane<R: Real>(x: &Vec<R>, signs: &RhtSigns<R>) -> (out: Vec<R>)
    requires
        x@.len() == 32,
        signs.0@.len() >= 32,
    ensures
        out@ == rotated(x@, signs.0@),
        out@.len() == 32,
{
    let mut lanes: Vec<R> = Vec::new();
    let mut lane: usize = 0;
    while lane < 32
        invariant
            lane <= 32,
            x@.len() == 32,
            signs.0@.len() >= 32,
            lanes@ == with_signs(x@, signs.0@).take(lane as int),
        decreases 32 - lane,
    {
        lanes.push(x[lane].times(signs.0[lane]));
        lane += 1;
        proof {
            let all = with_signs(x@, signs.0@);
            assert(all.take(lane as int) =~= all.take(lane - 1).push(all[lane - 1]));
        }
    }
    proof {
        assert(with_signs(x@, signs.0@).take(32) =~= with_signs(x@, signs.0@));
    }
    let mut mask: u32 = 1;
    while mask < 32
        invariant
            is_step(mask as int) || mask == 32,
            lanes@.len() == 32,
            lanes@ == stages(with_signs(x@, signs.0@), mask as int),
        decreases 32 - mask,
    {
        lanes = plane_butterfly(&lanes, mask);
        mask *= 2;
    }
    normalize(&mut lanes);
    lanes
}

} // verus!
