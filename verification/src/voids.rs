//! Gaps: stretches of keys that no longer stand for live items, and the
//! step from a position among the live items to its key.
use std::ops::Range;
use vstd::prelude::*;

verus! {

/// How many keys the gap `gap` covers.
pub open spec fn gap_width(gap: (usize, usize)) -> int {
    gap.1 - gap.0
}

/// How many keys the gaps cover in all.
pub open spec fn total_width(gaps: Seq<(usize, usize)>) -> int
    decreases gaps.len(),
{
    if gaps.len() == 0 {
        0
    } else {
        total_width(gaps.drop_last()) + gap_width(gaps.last())
    }
}

/// The key that the position `idx` stands for once the gaps are taken into
/// account.
///
/// The gaps are applied one after the other, in the order in which they
/// were recorded. A cursor that stands below a gap's first key is left as
/// it is; one that stands at or above it moves forward by the gap's width.
pub open spec fn translate(gaps: Seq<(usize, usize)>, idx: int) -> int
    decreases gaps.len(),
{
    if gaps.len() == 0 {
        idx
    } else {
        let cursor = translate(gaps.drop_last(), idx);
        if gaps.last().0 <= cursor {
            cursor + gap_width(gaps.last())
        } else {
            cursor
        }
    }
}

/// Every gap of the list begins at or before it ends.
pub open spec fn gaps_valid(gaps: Seq<(usize, usize)>) -> bool {
    forall|i: int| 0 <= i < gaps.len() ==> (#[trigger] gaps[i]).0 <= gaps[i].1
}

/// A translated position never lies below the position itself, nor above
/// it by more than the gaps cover.
pub proof fn lemma_translate_bounds(gaps: Seq<(usize, usize)>, idx: int)
    requires
        gaps_valid(gaps),
    ensures
        idx <= translate(gaps, idx) <= idx + total_width(gaps),
        0 <= total_width(gaps),
    decreases gaps.len(),
{
    if gaps.len() > 0 {
        assert(gaps.last() == gaps[gaps.len() - 1]);
        lemma_translate_bounds(gaps.drop_last(), idx);
    }
}

/// The order of positions is kept: a larger position gets a larger key.
pub proof fn lemma_translate_monotone(gaps: Seq<(usize, usize)>, a: int, b: int)
    requires
        gaps_valid(gaps),
        a < b,
    ensures
        translate(gaps, a) < translate(gaps, b),
    decreases gaps.len(),
{
    if gaps.len() > 0 {
        assert(gaps.last() == gaps[gaps.len() - 1]);
        lemma_translate_monotone(gaps.drop_last(), a, b);
    }
}

/// With one more gap recorded, a position is translated as before and then
/// moved past the new gap where it stands at or above its first key.
pub proof fn lemma_translate_push(gaps: Seq<(usize, usize)>, gap: (usize, usize), idx: int)
    ensures
        translate(gaps.push(gap), idx) == if gap.0 <= translate(gaps, idx) {
            translate(gaps, idx) + gap_width(gap)
        } else {
            translate(gaps, idx)
        },
        total_width(gaps.push(gap)) == total_width(gaps) + gap_width(gap),
{
    assert(gaps.push(gap).drop_last() =~= gaps);
    assert(gaps.push(gap).last() == gap);
}

/// Where every gap moves the position `s`, every gap moves the positions
/// behind it too.
pub proof fn lemma_translate_saturated(gaps: Seq<(usize, usize)>, s: int, k: int)
    requires
        gaps_valid(gaps),
        translate(gaps, s) == s + total_width(gaps),
        s <= k,
    ensures
        translate(gaps, k) == k + total_width(gaps),
    decreases gaps.len(),
{
    if gaps.len() > 0 {
        let rest = gaps.drop_last();
        assert(gaps.last() == gaps[gaps.len() - 1]);
        lemma_translate_bounds(rest, s);
        lemma_translate_saturated(rest, s, k);
        if s < k {
            lemma_translate_monotone(rest, s, k);
        }
    }
}

/// A recorded gap: the keys from `from` up to, but not including, `to`.
#[derive(Debug)]
pub struct Void {
    from: usize,
    to: usize,
}

impl Void {
    #[verifier::type_invariant]
    spec fn well_formed(self) -> bool {
        self.from <= self.to
    }

    /// The gap as a pair: its first key, and the key behind its last.
    pub closed spec fn bounds(&self) -> (usize, usize) {
        (self.from, self.to)
    }

    /// The gap that covers the keys of `range`.
    pub fn from(range: Range<usize>) -> (gap: Void)
        requires
            range.start <= range.end,
        ensures
            gap.bounds() == (range.start, range.end),
    {
        Void { from: range.start, to: range.end }
    }
}

/// The gaps recorded so far, in the order in which they were recorded.
pub struct IndexVoid {
    gaps: Vec<Void>,
}

impl IndexVoid {
    /// The recorded gaps as pairs, oldest first.
    pub closed spec fn gaps(&self) -> Seq<(usize, usize)> {
        Seq::new(self.gaps@.len(), |i: int| self.gaps@[i].bounds())
    }

    /// The gaps are valid and their widths add up to a machine integer.
    pub open spec fn wf(&self) -> bool {
        &&& gaps_valid(self.gaps())
        &&& total_width(self.gaps()) <= usize::MAX
    }

    /// No gaps.
    pub fn new() -> (index: IndexVoid)
        ensures
            index.wf(),
            index.gaps() == Seq::<(usize, usize)>::empty(),
    {
        let index = IndexVoid { gaps: Vec::new() };
        assert(index.gaps() =~= Seq::<(usize, usize)>::empty());
        index
    }

    /// How many keys the recorded gaps cover in all.
    pub fn del_gap(&self) -> (all: usize)
        requires
            self.wf(),
        ensures
            all == total_width(self.gaps()),
    {
        let mut all: usize = 0;
        let mut i: usize = 0;
        assert(self.gaps().take(0) =~= Seq::<(usize, usize)>::empty());
        while i < self.gaps.len()
            invariant
                self.wf(),
                i <= self.gaps@.len(),
                self.gaps().len() == self.gaps@.len(),
                all == total_width(self.gaps().take(i as int)),
            decreases self.gaps@.len() - i,
        {
            let gap = &self.gaps[i];
            proof {
                use_type_invariant(gap);
                assert(self.gaps().take(i + 1).drop_last() =~= self.gaps().take(i as int));
                assert(self.gaps().take(i + 1).last() == gap.bounds());
                lemma_total_width_prefix(self.gaps(), i + 1);
            }
            all = all + (gap.to - gap.from);
            i = i + 1;
        }
        assert(self.gaps().take(i as int) =~= self.gaps());
        all
    }

    /// Forgets every gap.
    pub fn clear(&mut self)
        ensures
            final(self).wf(),
            final(self).gaps() == Seq::<(usize, usize)>::empty(),
    {
        self.gaps.clear();
        assert(self.gaps() =~= Seq::<(usize, usize)>::empty());
    }

    /// The key that the position `im_idx` stands for.
    pub fn real_index(&self, im_idx: usize) -> (cursor: usize)
        requires
            self.wf(),
            translate(self.gaps(), im_idx as int) <= usize::MAX,
        ensures
            cursor == translate(self.gaps(), im_idx as int),
    {
        let mut cursor = im_idx;
        let mut i: usize = 0;
        assert(self.gaps().take(0) =~= Seq::<(usize, usize)>::empty());
        while i < self.gaps.len()
            invariant
                self.wf(),
                i <= self.gaps@.len(),
                self.gaps().len() == self.gaps@.len(),
                cursor == translate(self.gaps().take(i as int), im_idx as int),
                translate(self.gaps(), im_idx as int) <= usize::MAX,
            decreases self.gaps@.len() - i,
        {
            let gap = &self.gaps[i];
            proof {
                use_type_invariant(gap);
                assert(self.gaps().take(i + 1).drop_last() =~= self.gaps().take(i as int));
                assert(self.gaps().take(i + 1).last() == gap.bounds());
                lemma_translate_prefix(self.gaps(), i + 1, im_idx as int);
            }
            if gap.from <= cursor {
                cursor = cursor + (gap.to - gap.from);
            }
            i = i + 1;
        }
        assert(self.gaps().take(i as int) =~= self.gaps());
        cursor
    }

    /// Records one more gap, behind those already recorded.
    pub fn insert(&mut self, gap: Void)
        requires
            old(self).wf(),
            total_width(old(self).gaps()) + gap_width(gap.bounds()) <= usize::MAX,
        ensures
            final(self).wf(),
            final(self).gaps() == old(self).gaps().push(gap.bounds()),
    {
        proof {
            use_type_invariant(&gap);
            lemma_translate_push(self.gaps(), gap.bounds(), 0);
        }
        self.gaps.push(gap);
        assert(self.gaps() =~= old(self).gaps().push(gap.bounds()));
    }
}

/// The first `i` gaps cover no more than all of them.
pub proof fn lemma_total_width_prefix(gaps: Seq<(usize, usize)>, i: int)
    requires
        gaps_valid(gaps),
        0 <= i <= gaps.len(),
    ensures
        0 <= total_width(gaps.take(i)) <= total_width(gaps),
    decreases gaps.len() - i,
{
    if i < gaps.len() {
        lemma_total_width_prefix(gaps, i + 1);
        assert(gaps.take(i + 1).drop_last() =~= gaps.take(i));
        assert(gaps.take(i + 1).last() == gaps[i]);
    } else {
        assert(gaps.take(i) =~= gaps);
        lemma_translate_bounds(gaps, 0);
    }
    assert(gaps_valid(gaps.take(i)));
    lemma_translate_bounds(gaps.take(i), 0);
}

/// The first `i` gaps move a position no further than all of them do.
pub proof fn lemma_translate_prefix(gaps: Seq<(usize, usize)>, i: int, idx: int)
    requires
        gaps_valid(gaps),
        0 <= i <= gaps.len(),
    ensures
        translate(gaps.take(i), idx) <= translate(gaps, idx),
    decreases gaps.len() - i,
{
    if i < gaps.len() {
        lemma_translate_prefix(gaps, i + 1, idx);
        assert(gaps.take(i + 1).drop_last() =~= gaps.take(i));
        assert(gaps.take(i + 1).last() == gaps[i]);
    } else {
        assert(gaps.take(i) =~= gaps);
    }
}

} // verus!
