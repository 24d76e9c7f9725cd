//! What the two searches find, as functions of the sequence alone.
//!
//! Items are compared with `eq_spec`, the relation that `==` computes. The
//! relation need not be reflexive or symmetric, so every definition fixes
//! which side the pattern stands on: in an exact match the pattern item is
//! on the left, at a delimiter the sequence item is on the left.
use vstd::prelude::*;
use vstd::std_specs::cmp::PartialEqSpec;

verus! {

/// A list of inclusive ranges in which every range is well formed and each
/// one ends before the next begins.
pub open spec fn ranges_ascending(ranges: Seq<(usize, usize)>) -> bool {
    &&& forall|i: int| 0 <= i < ranges.len() ==> (#[trigger] ranges[i]).0 <= ranges[i].1
    &&& forall|i: int, j: int|
        0 <= i < j < ranges.len() ==> (#[trigger] ranges[i]).1 < (#[trigger] ranges[j]).0
}

/// Tells whether the ranges are well formed and each one ends before the
/// next begins.
pub fn ranges_in_order(ranges: &[(usize, usize)]) -> (ok: bool)
    ensures
        ok == ranges_ascending(ranges@),
{
    let mut i: usize = 0;
    while i < ranges.len()
        invariant
            i <= ranges@.len(),
            forall|k: int| 0 <= k < i ==> (#[trigger] ranges@[k]).0 <= ranges@[k].1,
            forall|k: int| 0 < k < i ==> (#[trigger] ranges@[k - 1]).1 < ranges@[k].0,
        decreases ranges@.len() - i,
    {
        let range = ranges[i];
        if range.0 > range.1 {
            return false;
        }
        if i > 0 && ranges[i - 1].1 >= range.0 {
            assert(!(ranges@[i - 1].1 < ranges@[i as int].0));
            return false;
        }
        i = i + 1;
    }
    proof {
        lemma_neighbours_in_order(ranges@);
    }
    true
}

/// Ranges that are well formed and of which each ends before its
/// successor begins are in ascending order throughout.
pub proof fn lemma_neighbours_in_order(ranges: Seq<(usize, usize)>)
    requires
        forall|k: int| 0 <= k < ranges.len() ==> (#[trigger] ranges[k]).0 <= ranges[k].1,
        forall|k: int| 0 < k < ranges.len() ==> (#[trigger] ranges[k - 1]).1 < ranges[k].0,
    ensures
        ranges_ascending(ranges),
{
    assert forall|i: int, j: int| 0 <= i < j < ranges.len() implies (#[trigger] ranges[i]).1 < (
    #[trigger] ranges[j]).0 by {
        lemma_in_order_from(ranges, i, j);
    }
}

/// Of two ranges of such a list the earlier ends before the later begins.
proof fn lemma_in_order_from(ranges: Seq<(usize, usize)>, i: int, j: int)
    requires
        forall|k: int| 0 <= k < ranges.len() ==> (#[trigger] ranges[k]).0 <= ranges[k].1,
        forall|k: int| 0 < k < ranges.len() ==> (#[trigger] ranges[k - 1]).1 < ranges[k].0,
        0 <= i < j < ranges.len(),
    ensures
        ranges[i].1 < ranges[j].0,
    decreases j - i,
{
    if i + 1 < j {
        lemma_in_order_from(ranges, i, j - 1);
        assert(ranges[j - 1].0 <= ranges[j - 1].1);
    }
    assert(ranges[j - 1].1 < ranges[j].0);
}

/// Every range of the list lies inside a sequence of `len` items.
pub open spec fn ranges_within(ranges: Seq<(usize, usize)>, len: nat) -> bool {
    forall|i: int| 0 <= i < ranges.len() ==> (#[trigger] ranges[i]).1 < len
}

/// How many leading items of `pattern` agree with `seq` read from position
/// `at`, given that the first `k` are already known to agree.
pub open spec fn agreement<T: PartialEq>(seq: Seq<T>, pattern: Seq<T>, at: int, k: int) -> int
    decreases pattern.len() - k,
{
    if 0 <= k < pattern.len() && 0 <= at + k < seq.len() && pattern[k].eq_spec(&seq[at + k]) {
        agreement(seq, pattern, at, k + 1)
    } else {
        k
    }
}

/// The range `range` of `seq` is an occurrence of `pattern`.
pub open spec fn is_exact_match<T: PartialEq>(
    seq: Seq<T>,
    pattern: Seq<T>,
    range: (usize, usize),
) -> bool {
    &&& range.0 + pattern.len() == range.1 + 1
    &&& range.1 < seq.len()
    &&& forall|j: int|
        0 <= j < pattern.len() ==> (#[trigger] pattern[j]).eq_spec(&seq[range.0 + j])
}

/// The occurrences of `pattern` that a scan of `seq` reports when it is at
/// position `at` with no candidate open.
///
/// The scan compares the pattern with the items from `at` on. Where the
/// whole pattern agrees it reports the range and goes on behind it. Where
/// the first item already disagrees it goes on at the next position. Where
/// a later item disagrees it goes on at that item: the items in between are
/// never tried as a start, so an occurrence that begins inside a failed
/// candidate is not reported.
pub open spec fn exact_matches_from<T: PartialEq>(seq: Seq<T>, pattern: Seq<T>, at: int) -> Seq<
    (usize, usize),
>
    decreases seq.len() - at,
{
    if at < 0 || at >= seq.len() || pattern.len() == 0 {
        Seq::empty()
    } else {
        proof {
            lemma_agreement_bounds(seq, pattern, at, 0);
        }
        let k = agreement(seq, pattern, at, 0);
        if k == pattern.len() {
            seq![(at as usize, (at + k - 1) as usize)] + exact_matches_from(seq, pattern, at + k)
        } else if k == 0 {
            exact_matches_from(seq, pattern, at + 1)
        } else {
            exact_matches_from(seq, pattern, at + k)
        }
    }
}

/// All occurrences that the exact search reports in `seq`.
pub open spec fn exact_matches<T: PartialEq>(seq: Seq<T>, pattern: Seq<T>) -> Seq<(usize, usize)> {
    exact_matches_from(seq, pattern, 0)
}

/// The first position from `at` on whose item equals `close`, or the length
/// of `seq` where there is none.
pub open spec fn next_close<T: PartialEq>(seq: Seq<T>, close: T, at: int) -> int
    decreases seq.len() - at,
{
    if at < 0 || at >= seq.len() {
        seq.len() as int
    } else if seq[at].eq_spec(&close) {
        at
    } else {
        next_close(seq, close, at + 1)
    }
}

/// The range `range` of `seq` begins with an item equal to `open`, ends
/// with the first later item equal to `close`, and is at least two items
/// long.
pub open spec fn is_delimited<T: PartialEq>(seq: Seq<T>, open: T, close: T, range: (usize, usize)) -> bool {
    &&& range.0 < range.1 < seq.len()
    &&& seq[range.0 as int].eq_spec(&open)
    &&& seq[range.1 as int].eq_spec(&close)
    &&& forall|j: int| range.0 < j < range.1 ==> !(#[trigger] seq[j]).eq_spec(&close)
}

/// The delimited ranges that a scan of `seq` reports when it is at position
/// `at` and outside any range.
///
/// An item equal to `open` begins a range; the range ends at the first
/// later item equal to `close`, and the scan goes on behind it. Items equal
/// to `open` inside a range are passed over, so ranges do not nest. An
/// opening item that no closing item follows yields nothing.
pub open spec fn delimited_ranges_from<T: PartialEq>(seq: Seq<T>, open: T, close: T, at: int) -> Seq<
    (usize, usize),
>
    decreases seq.len() - at,
{
    if at < 0 || at >= seq.len() {
        Seq::empty()
    } else if !seq[at].eq_spec(&open) {
        delimited_ranges_from(seq, open, close, at + 1)
    } else {
        proof {
            lemma_next_close_bounds(seq, close, at + 1);
        }
        let end = next_close(seq, close, at + 1);
        if end >= seq.len() {
            Seq::empty()
        } else {
            seq![(at as usize, end as usize)] + delimited_ranges_from(seq, open, close, end + 1)
        }
    }
}

/// All ranges that the delimiter search reports in `seq`.
pub open spec fn delimited_ranges<T: PartialEq>(seq: Seq<T>, open: T, close: T) -> Seq<(usize, usize)> {
    delimited_ranges_from(seq, open, close, 0)
}

/// The agreement count stays within the pattern and within the sequence.
pub proof fn lemma_agreement_bounds<T: PartialEq>(seq: Seq<T>, pattern: Seq<T>, at: int, k: int)
    requires
        0 <= at <= seq.len(),
        0 <= k <= pattern.len(),
        at + k <= seq.len(),
    ensures
        k <= agreement(seq, pattern, at, k) <= pattern.len(),
        at + agreement(seq, pattern, at, k) <= seq.len(),
    decreases pattern.len() - k,
{
    if 0 <= k < pattern.len() && 0 <= at + k < seq.len() && pattern[k].eq_spec(&seq[at + k]) {
        lemma_agreement_bounds(seq, pattern, at, k + 1);
    }
}

/// The agreement count is `n` exactly when the pattern agrees on its first
/// `n` items and then stops: at the pattern's end, at the sequence's end,
/// or at an item that differs.
pub proof fn lemma_agreement_is<T: PartialEq>(seq: Seq<T>, pattern: Seq<T>, at: int, k: int, n: int)
    requires
        0 <= at,
        0 <= k <= n <= pattern.len(),
        at + n <= seq.len(),
        forall|j: int| k <= j < n ==> (#[trigger] pattern[j]).eq_spec(&seq[at + j]),
        n == pattern.len() || at + n == seq.len() || !pattern[n].eq_spec(&seq[at + n]),
    ensures
        agreement(seq, pattern, at, k) == n,
    decreases n - k,
{
    if k < n {
        assert(pattern[k].eq_spec(&seq[at + k]));
        lemma_agreement_is(seq, pattern, at, k + 1, n);
    }
}

/// The items that the agreement count covers do agree.
pub proof fn lemma_agreement_agrees<T: PartialEq>(seq: Seq<T>, pattern: Seq<T>, at: int, k: int)
    requires
        0 <= at,
        0 <= k,
    ensures
        forall|j: int|
            k <= j < agreement(seq, pattern, at, k) ==> (#[trigger] pattern[j]).eq_spec(&seq[at + j]),
    decreases pattern.len() - k,
{
    if 0 <= k < pattern.len() && 0 <= at + k < seq.len() && pattern[k].eq_spec(&seq[at + k]) {
        lemma_agreement_agrees(seq, pattern, at, k + 1);
    }
}

/// Every reported occurrence begins at or behind the scan's position, is an
/// occurrence of the pattern, and ends before the next one begins.
pub proof fn lemma_exact_matches_sound<T: PartialEq>(seq: Seq<T>, pattern: Seq<T>, at: int)
    requires
        0 <= at,
        seq.len() <= usize::MAX,
    ensures
        forall|i: int|
            0 <= i < exact_matches_from(seq, pattern, at).len() ==> {
                &&& at <= (#[trigger] exact_matches_from(seq, pattern, at)[i]).0
                &&& is_exact_match(seq, pattern, exact_matches_from(seq, pattern, at)[i])
            },
        ranges_ascending(exact_matches_from(seq, pattern, at)),
        ranges_within(exact_matches_from(seq, pattern, at), seq.len()),
    decreases seq.len() - at,
{
    if at < seq.len() && pattern.len() > 0 {
        lemma_agreement_bounds(seq, pattern, at, 0);
        lemma_agreement_agrees(seq, pattern, at, 0);
        let k = agreement(seq, pattern, at, 0);
        if k == pattern.len() {
            lemma_exact_matches_sound(seq, pattern, at + k);
            let head = (at as usize, (at + k - 1) as usize);
            let rest = exact_matches_from(seq, pattern, at + k);
            let all = exact_matches_from(seq, pattern, at);
            assert(all == seq![head] + rest);
            assert(is_exact_match(seq, pattern, head));
            assert forall|i: int| 0 <= i < all.len() implies {
                &&& at <= (#[trigger] all[i]).0
                &&& is_exact_match(seq, pattern, all[i])
                &&& all[i].0 <= all[i].1
                &&& all[i].1 < seq.len()
            } by {
                if i > 0 {
                    assert(all[i] == rest[i - 1]);
                }
            }
            assert forall|i: int, j: int| 0 <= i < j < all.len() implies (#[trigger] all[i]).1 < (
            #[trigger] all[j]).0 by {
                assert(all[j] == rest[j - 1]);
                if i > 0 {
                    assert(all[i] == rest[i - 1]);
                }
            }
        } else if k == 0 {
            lemma_exact_matches_sound(seq, pattern, at + 1);
        } else {
            lemma_exact_matches_sound(seq, pattern, at + k);
        }
    }
}

/// Where the next closing item stands: within the sequence or at its end,
/// never before `at`, with no closing item passed over.
pub proof fn lemma_next_close_bounds<T: PartialEq>(seq: Seq<T>, close: T, at: int)
    requires
        0 <= at,
    ensures
        at <= next_close(seq, close, at) || next_close(seq, close, at) == seq.len(),
        next_close(seq, close, at) <= seq.len(),
        next_close(seq, close, at) < seq.len() ==> seq[next_close(seq, close, at)].eq_spec(&close),
        forall|j: int| at <= j < next_close(seq, close, at) ==> !(#[trigger] seq[j]).eq_spec(&close),
    decreases seq.len() - at,
{
    if at < seq.len() && !seq[at].eq_spec(&close) {
        lemma_next_close_bounds(seq, close, at + 1);
    }
}

/// The next closing item is at `end` when no item from `at` up to `end`
/// equals `close` and `end` is either such an item or the sequence's end.
pub proof fn lemma_next_close_is<T: PartialEq>(seq: Seq<T>, close: T, at: int, end: int)
    requires
        0 <= at <= end <= seq.len(),
        forall|j: int| at <= j < end ==> !(#[trigger] seq[j]).eq_spec(&close),
        end == seq.len() || seq[end].eq_spec(&close),
    ensures
        next_close(seq, close, at) == end,
    decreases end - at,
{
    if at < end {
        assert(!seq[at].eq_spec(&close));
        lemma_next_close_is(seq, close, at + 1, end);
    }
}

/// Every reported range begins at or behind the scan's position, is
/// delimited by `open` and `close`, and ends before the next one begins.
pub proof fn lemma_delimited_ranges_sound<T: PartialEq>(seq: Seq<T>, open: T, close: T, at: int)
    requires
        0 <= at,
        seq.len() <= usize::MAX,
    ensures
        forall|i: int|
            0 <= i < delimited_ranges_from(seq, open, close, at).len() ==> {
                &&& at <= (#[trigger] delimited_ranges_from(seq, open, close, at)[i]).0
                &&& is_delimited(seq, open, close, delimited_ranges_from(seq, open, close, at)[i])
            },
        ranges_ascending(delimited_ranges_from(seq, open, close, at)),
        ranges_within(delimited_ranges_from(seq, open, close, at), seq.len()),
    decreases seq.len() - at,
{
    if at < seq.len() {
        if !seq[at].eq_spec(&open) {
            lemma_delimited_ranges_sound(seq, open, close, at + 1);
        } else {
            lemma_next_close_bounds(seq, close, at + 1);
            let end = next_close(seq, close, at + 1);
            if end < seq.len() {
                lemma_delimited_ranges_sound(seq, open, close, end + 1);
                let head = (at as usize, end as usize);
                let rest = delimited_ranges_from(seq, open, close, end + 1);
                let all = delimited_ranges_from(seq, open, close, at);
                assert(all == seq![head] + rest);
                assert(is_delimited(seq, open, close, head));
                assert forall|i: int| 0 <= i < all.len() implies {
                    &&& at <= (#[trigger] all[i]).0
                    &&& is_delimited(seq, open, close, all[i])
                    &&& all[i].0 <= all[i].1
                    &&& all[i].1 < seq.len()
                } by {
                    if i > 0 {
                        assert(all[i] == rest[i - 1]);
                    }
                }
                assert forall|i: int, j: int| 0 <= i < j < all.len() implies (#[trigger] all[i]).1
                    < (#[trigger] all[j]).0 by {
                    assert(all[j] == rest[j - 1]);
                    if i > 0 {
                        assert(all[i] == rest[i - 1]);
                    }
                }
            }
        }
    }
}

} // verus!
