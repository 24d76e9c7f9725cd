//! What a replacement pass makes of a sequence, as a function of the
//! sequence, the ranges and the tokens put in their place.
//!
//! Ranges are inclusive and speak of positions in the sequence as it was
//! before the pass. A range is applied when it ends inside that sequence
//! and is skipped otherwise.
use crate::search::ranges_ascending;
use vstd::prelude::*;

verus! {

/// The range ends inside a sequence of `len` items, so the pass applies it.
pub open spec fn range_applies(range: (usize, usize), len: nat) -> bool {
    range.1 < len
}

/// The position in the original sequence up to which the first `i` ranges
/// have consumed it: behind the last range applied among them.
pub open spec fn resume_point(len: nat, ranges: Seq<(usize, usize)>, i: int) -> int
    decreases i,
{
    if i <= 0 {
        0
    } else if range_applies(ranges[i - 1], len) {
        ranges[i - 1].1 + 1
    } else {
        resume_point(len, ranges, i - 1)
    }
}

/// By how much the first `i` ranges shorten a sequence of `len` items: an
/// applied range from `start` to `end` takes `end - start + 1` items out
/// and puts one in.
pub open spec fn shrink_prefix(len: nat, ranges: Seq<(usize, usize)>, i: int) -> int
    decreases i,
{
    if i <= 0 {
        0
    } else if range_applies(ranges[i - 1], len) {
        shrink_prefix(len, ranges, i - 1) + (ranges[i - 1].1 - ranges[i - 1].0)
    } else {
        shrink_prefix(len, ranges, i - 1)
    }
}

/// By how much the whole list of ranges shortens a sequence of `len` items.
pub open spec fn shrink(len: nat, ranges: Seq<(usize, usize)>) -> int {
    shrink_prefix(len, ranges, ranges.len() as int)
}

/// What the first `i` ranges put out: for each applied range the untouched
/// items in front of it, then the item `reps[k]` that stands in its place.
pub open spec fn rewritten_prefix<T>(
    seq: Seq<T>,
    ranges: Seq<(usize, usize)>,
    reps: Seq<T>,
    i: int,
) -> Seq<T>
    decreases i,
{
    if i <= 0 {
        Seq::empty()
    } else if range_applies(ranges[i - 1], seq.len()) {
        rewritten_prefix(seq, ranges, reps, i - 1) + seq.subrange(
            resume_point(seq.len(), ranges, i - 1),
            ranges[i - 1].0 as int,
        ) + seq![reps[i - 1]]
    } else {
        rewritten_prefix(seq, ranges, reps, i - 1)
    }
}

/// The sequence after the pass: every applied range `ranges[k]` replaced by
/// the one item `reps[k]`, everything else in its old order.
pub open spec fn rewritten<T>(seq: Seq<T>, ranges: Seq<(usize, usize)>, reps: Seq<T>) -> Seq<T> {
    rewritten_prefix(seq, ranges, reps, ranges.len() as int) + seq.subrange(
        resume_point(seq.len(), ranges, ranges.len() as int),
        seq.len() as int,
    )
}

/// The items of `seq` that the range covers, both ends included.
pub open spec fn covered<T>(seq: Seq<T>, range: (usize, usize)) -> Seq<T> {
    seq.subrange(range.0 as int, range.1 + 1)
}

/// The resume point lies inside the sequence and in front of every range
/// that is still to come.
pub proof fn lemma_resume_point_bounds(len: nat, ranges: Seq<(usize, usize)>, i: int)
    requires
        ranges_ascending(ranges),
        0 <= i <= ranges.len(),
    ensures
        0 <= resume_point(len, ranges, i) <= len,
        forall|k: int| i <= k < ranges.len() ==> resume_point(len, ranges, i) <= (#[trigger] ranges[k]).0,
        i > 0 ==> resume_point(len, ranges, i) <= ranges[i - 1].1 + 1,
    decreases i,
{
    if i > 0 {
        lemma_resume_point_bounds(len, ranges, i - 1);
        if range_applies(ranges[i - 1], len) {
            assert forall|k: int| i <= k < ranges.len() implies resume_point(len, ranges, i) <= (
            #[trigger] ranges[k]).0 by {
                assert(ranges[i - 1].1 < ranges[k].0);
            }
        } else {
            if i > 1 {
                assert(ranges[i - 2].1 < ranges[i - 1].0);
            }
        }
    }
}

/// What the first `i` ranges put out is as long as the stretch they have
/// consumed, less what they took away.
pub proof fn lemma_rewritten_prefix_len<T>(
    seq: Seq<T>,
    ranges: Seq<(usize, usize)>,
    reps: Seq<T>,
    i: int,
)
    requires
        ranges_ascending(ranges),
        0 <= i <= ranges.len(),
    ensures
        rewritten_prefix(seq, ranges, reps, i).len() == resume_point(seq.len(), ranges, i)
            - shrink_prefix(seq.len(), ranges, i),
        0 <= shrink_prefix(seq.len(), ranges, i) <= resume_point(seq.len(), ranges, i),
    decreases i,
{
    if i > 0 {
        lemma_rewritten_prefix_len(seq, ranges, reps, i - 1);
        lemma_resume_point_bounds(seq.len(), ranges, i - 1);
        assert(ranges[i - 1].0 <= ranges[i - 1].1);
    }
}

/// A pass shortens the sequence by `end - start` for each range it applies:
/// one item comes in for the `end - start + 1` that go out.
pub proof fn lemma_rewritten_len<T>(seq: Seq<T>, ranges: Seq<(usize, usize)>, reps: Seq<T>)
    requires
        ranges_ascending(ranges),
    ensures
        rewritten(seq, ranges, reps).len() == seq.len() - shrink(seq.len(), ranges),
        0 <= shrink(seq.len(), ranges) <= seq.len(),
{
    lemma_rewritten_prefix_len(seq, ranges, reps, ranges.len() as int);
    lemma_resume_point_bounds(seq.len(), ranges, ranges.len() as int);
}

/// The outcome depends on the replacement items of the applied ranges
/// only.
pub proof fn lemma_rewritten_prefix_depends_on_applied<T>(
    seq: Seq<T>,
    ranges: Seq<(usize, usize)>,
    reps1: Seq<T>,
    reps2: Seq<T>,
    i: int,
)
    requires
        0 <= i <= ranges.len(),
        forall|k: int|
            0 <= k < i && range_applies(#[trigger] ranges[k], seq.len()) ==> reps1[k] == reps2[k],
    ensures
        rewritten_prefix(seq, ranges, reps1, i) == rewritten_prefix(seq, ranges, reps2, i),
    decreases i,
{
    if i > 0 {
        lemma_rewritten_prefix_depends_on_applied(seq, ranges, reps1, reps2, i - 1);
        if range_applies(ranges[i - 1], seq.len()) {
            assert(reps1[i - 1] == reps2[i - 1]);
        }
    }
}

/// Two passes over the same ranges that put the same items in place of the
/// applied ranges give the same sequence.
pub proof fn lemma_rewritten_depends_on_applied<T>(
    seq: Seq<T>,
    ranges: Seq<(usize, usize)>,
    reps1: Seq<T>,
    reps2: Seq<T>,
)
    requires
        forall|k: int|
            0 <= k < ranges.len() && range_applies(#[trigger] ranges[k], seq.len()) ==> reps1[k]
                == reps2[k],
    ensures
        rewritten(seq, ranges, reps1) == rewritten(seq, ranges, reps2),
{
    lemma_rewritten_prefix_depends_on_applied(seq, ranges, reps1, reps2, ranges.len() as int);
}

/// A pass without ranges, or one whose ranges are all skipped, leaves the
/// sequence as it was.
pub proof fn lemma_rewritten_nothing_applied<T>(
    seq: Seq<T>,
    ranges: Seq<(usize, usize)>,
    reps: Seq<T>,
    i: int,
)
    requires
        0 <= i <= ranges.len(),
        forall|k: int| 0 <= k < i ==> !range_applies(#[trigger] ranges[k], seq.len()),
    ensures
        rewritten_prefix(seq, ranges, reps, i) == Seq::<T>::empty(),
        resume_point(seq.len(), ranges, i) == 0,
        i == ranges.len() ==> rewritten(seq, ranges, reps) == seq,
    decreases i,
{
    if i > 0 {
        assert(!range_applies(ranges[i - 1], seq.len()));
        lemma_rewritten_nothing_applied(seq, ranges, reps, i - 1);
    }
    if i == ranges.len() {
        assert(rewritten(seq, ranges, reps) =~= seq);
    }
}

} // verus!
