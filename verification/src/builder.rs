//! The token sequence store with its searches and its replacement pass.
use crate::args::TokenArgs;
use crate::pattern::chars_to_tokens;
use crate::pattern::push_chars;
use crate::pattern::Tokens;
use crate::search::delimited_ranges;
use crate::search::delimited_ranges_from;
use crate::search::exact_matches;
use crate::search::exact_matches_from;
use crate::search::is_delimited;
use crate::search::is_exact_match;
use crate::search::lemma_agreement_is;
use crate::search::lemma_delimited_ranges_sound;
use crate::search::lemma_exact_matches_sound;
use crate::search::lemma_next_close_is;
use crate::search::ranges_ascending;
use crate::search::ranges_within;
use crate::splice::covered;
use crate::splice::lemma_resume_point_bounds;
use crate::splice::lemma_rewritten_depends_on_applied;
use crate::splice::lemma_rewritten_prefix_depends_on_applied;
use crate::splice::lemma_rewritten_prefix_len;
use crate::splice::range_applies;
use crate::splice::resume_point;
use crate::splice::rewritten;
use crate::splice::rewritten_prefix;
use crate::splice::shrink;
use crate::splice::shrink_prefix;
use crate::token::Token;
use crate::token::TokenHolder;
use vstd::prelude::*;
use vstd::std_specs::cmp::PartialEqSpec;

verus! {

/// The tokens of the first `i` lines: the characters of each line, then a
/// line break.
pub open spec fn lines_to_tokens<H>(lines: Seq<String>, i: int) -> Seq<Token<H>>
    decreases i,
{
    if i <= 0 {
        Seq::empty()
    } else {
        (lines_to_tokens::<H>(lines, i - 1) + chars_to_tokens::<H>(lines[i - 1]@)).push(
            Token::NewLine,
        )
    }
}

/// `reducer` can be called on every list that holds the tokens `removed`.
pub open spec fn accepts<H, F: Fn(TokenArgs<H>) -> Token<H>>(
    reducer: F,
    removed: Seq<Token<H>>,
) -> bool {
    forall|args: TokenArgs<H>|
        args.tokens@ == removed ==> #[trigger] call_requires(reducer, (args,))
}

/// `token` is something that `reducer` can return for a list that holds the
/// tokens `removed`.
pub open spec fn reduces_to<H, F: Fn(TokenArgs<H>) -> Token<H>>(
    reducer: F,
    removed: Seq<Token<H>>,
    token: Token<H>,
) -> bool {
    exists|args: TokenArgs<H>|
        args.tokens@ == removed && #[trigger] call_ensures(reducer, (args,), token)
}

/// `after` is `before` with every applied range of `slices` replaced by one
/// token, `reps[k]` for the range `slices[k]`, where that token is what
/// `reducer` returned for the tokens of the range.
pub open spec fn is_replacement<H, F: Fn(TokenArgs<H>) -> Token<H>>(
    before: Seq<Token<H>>,
    slices: Seq<(usize, usize)>,
    reducer: F,
    reps: Seq<Token<H>>,
    after: Seq<Token<H>>,
) -> bool {
    &&& reps.len() == slices.len()
    &&& after == rewritten(before, slices, reps)
    &&& forall|k: int|
        0 <= k < slices.len() && range_applies(#[trigger] slices[k], before.len()) ==> reduces_to(
            reducer,
            covered(before, slices[k]),
            reps[k],
        )
}

/// `after` is what one replacement pass with `reducer` over the ranges
/// `slices` can make of `before`.
pub open spec fn is_pass<H, F: Fn(TokenArgs<H>) -> Token<H>>(
    before: Seq<Token<H>>,
    slices: Seq<(usize, usize)>,
    reducer: F,
    after: Seq<Token<H>>,
) -> bool {
    exists|reps: Seq<Token<H>>| is_replacement(before, slices, reducer, reps, after)
}

/// Whatever `reducer` returns for a list is `f` of the tokens in the list.
pub open spec fn computes<H, F: Fn(TokenArgs<H>) -> Token<H>>(
    reducer: F,
    f: spec_fn(Seq<Token<H>>) -> Token<H>,
) -> bool {
    forall|args: TokenArgs<H>, token: Token<H>| #[trigger]
        call_ensures(reducer, (args,), token) ==> token == f(args.tokens@)
}

/// For each range of `slices` the token that `f` makes of the tokens in it.
pub open spec fn reduced<H>(
    before: Seq<Token<H>>,
    slices: Seq<(usize, usize)>,
    f: spec_fn(Seq<Token<H>>) -> Token<H>,
) -> Seq<Token<H>> {
    Seq::new(slices.len(), |k: int| f(covered(before, slices[k])))
}

/// Where the reducer computes the function `f`, a replacement pass turns
/// `before` into the one sequence that has `f` of each applied range in the
/// range's place.
pub proof fn lemma_replacement_of_function<H, F: Fn(TokenArgs<H>) -> Token<H>>(
    before: Seq<Token<H>>,
    slices: Seq<(usize, usize)>,
    reducer: F,
    reps: Seq<Token<H>>,
    after: Seq<Token<H>>,
    f: spec_fn(Seq<Token<H>>) -> Token<H>,
)
    requires
        is_replacement(before, slices, reducer, reps, after),
        computes(reducer, f),
    ensures
        after == rewritten(before, slices, reduced(before, slices, f)),
{
    let wanted = reduced(before, slices, f);
    assert forall|k: int|
        0 <= k < slices.len() && range_applies(#[trigger] slices[k], before.len()) implies reps[k]
        == wanted[k] by {
        assert(reduces_to(reducer, covered(before, slices[k]), reps[k]));
        let args = choose|args: TokenArgs<H>|
            args.tokens@ == covered(before, slices[k]) && #[trigger] call_ensures(
                reducer,
                (args,),
                reps[k],
            );
        assert(reps[k] == f(args.tokens@));
    }
    lemma_rewritten_depends_on_applied(before, slices, reps, wanted);
}

/// Two exact searches for the same pattern in the same sequence report the
/// same occurrences.
pub proof fn lemma_found_is_repeatable<H: TokenHolder, P: Tokens<H>>(
    builder: &TokenBuilder<H>,
    pattern: P,
    again: P,
    first: Vec<(usize, usize)>,
    second: Vec<(usize, usize)>,
)
    requires
        pattern.tokens_spec() == again.tokens_spec(),
        call_ensures(TokenBuilder::<H>::found::<P>, (builder, pattern), first),
        call_ensures(TokenBuilder::<H>::found::<P>, (builder, again), second),
    ensures
        first@ == second@,
{
}

/// An ordered, mutable sequence of tokens; insertion order is document
/// order.
pub struct TokenBuilder<HOLDER> {
    pub tokens: Vec<Token<HOLDER>>,
}

impl<HOLDER: TokenHolder> Default for TokenBuilder<HOLDER> {
    /// An empty sequence.
    fn default() -> (builder: TokenBuilder<HOLDER>)
        ensures
            builder.tokens@ == Seq::<Token<HOLDER>>::empty(),
    {
        TokenBuilder { tokens: Vec::new() }
    }
}

impl<HOLDER: TokenHolder> TokenBuilder<HOLDER> {
    /// An empty sequence.
    pub fn new() -> (builder: TokenBuilder<HOLDER>)
        ensures
            builder.tokens@ == Seq::<Token<HOLDER>>::empty(),
    {
        TokenBuilder { tokens: Vec::new() }
    }

    /// Appends one custom token.
    pub fn push_custom(&mut self, tok: HOLDER)
        ensures
            final(self).tokens@ == old(self).tokens@.push(Token::Custom(tok)),
    {
        self.tokens.push(Token::Custom(tok))
    }

    /// Appends the characters of `str`, then a line break.
    pub fn from_string(&mut self, str: &str)
        ensures
            final(self).tokens@ == (old(self).tokens@ + chars_to_tokens::<HOLDER>(str@)).push(
                Token::NewLine,
            ),
    {
        push_chars(&mut self.tokens, str);
        self.tokens.push(Token::NewLine);
    }

    /// Appends the characters of each line, a line break after each, and
    /// the end-of-input marker after the last.
    pub fn from_lines(&mut self, lines: &Vec<String>)
        ensures
            final(self).tokens@ == (old(self).tokens@ + lines_to_tokens::<HOLDER>(
                lines@,
                lines@.len() as int,
            )).push(Token::EOF),
    {
        let ghost before = self.tokens@;
        let mut i: usize = 0;
        assert(self.tokens@ =~= before + lines_to_tokens::<HOLDER>(lines@, 0));
        while i < lines.len()
            invariant
                i <= lines@.len(),
                self.tokens@ == before + lines_to_tokens::<HOLDER>(lines@, i as int),
            decreases lines@.len() - i,
        {
            push_chars(&mut self.tokens, lines[i].as_str());
            self.tokens.push(Token::NewLine);
            assert(self.tokens@ =~= before + lines_to_tokens::<HOLDER>(lines@, i + 1));
            i = i + 1;
        }
        self.tokens.push(Token::EOF);
    }

    /// Every occurrence of `pattern` that one scan from left to right
    /// reports, in ascending order.
    ///
    /// The scan keeps one candidate at a time. A candidate that fails is
    /// dropped and the item it failed at is tried as a new start; the items
    /// the candidate had already covered are not tried again.
    pub fn found<P: Tokens<HOLDER>>(&self, pattern: P) -> (indexes: Vec<(usize, usize)>)
        requires
            pattern.tokens_spec().len() > 0,
        ensures
            indexes@ == exact_matches(self.tokens@, pattern.tokens_spec()),
            forall|i: int|
                0 <= i < indexes@.len() ==> is_exact_match(
                    self.tokens@,
                    pattern.tokens_spec(),
                    #[trigger] indexes@[i],
                ),
            ranges_ascending(indexes@),
            ranges_within(indexes@, self.tokens@.len()),
    {
        let ghost seq = self.tokens@;
        let ghost pat = pattern.tokens_spec();
        let pattern = pattern.convert_to_tokens();
        let n = self.tokens.len();
        let m = pattern.len();
        let mut indexes: Vec<(usize, usize)> = Vec::new();
        let mut start: Option<usize> = None;
        let mut temp: usize = 0;
        let mut idx: usize = 0;
        while idx < n
            invariant
                seq == self.tokens@,
                pat == pattern@,
                n == seq.len(),
                m == pat.len(),
                m > 0,
                idx <= n,
                start is None ==> temp == 0,
                start matches Some(st) ==> {
                    &&& 1 <= temp < m
                    &&& st + temp == idx
                    &&& forall|j: int| 0 <= j < temp ==> (#[trigger] pat[j]).eq_spec(&seq[st + j])
                },
                indexes@ + exact_matches_from(
                    seq,
                    pat,
                    match start {
                        Some(st) => st as int,
                        None => idx as int,
                    },
                ) == exact_matches(seq, pat),
            decreases n - idx,
        {
            let x = &self.tokens[idx];
            if let Some(st) = start {
                if !(pattern[temp] == *x) {
                    proof {
                        lemma_agreement_is(seq, pat, st as int, 0, temp as int);
                        assert(exact_matches_from(seq, pat, st as int) == exact_matches_from(
                            seq,
                            pat,
                            idx as int,
                        ));
                    }
                    start = None;
                    temp = 0;
                }
            }
            match start {
                None => {
                    if pattern[0] == *x {
                        start = Some(idx);
                        temp = 1;
                    } else {
                        proof {
                            lemma_agreement_is(seq, pat, idx as int, 0, 0);
                            assert(exact_matches_from(seq, pat, idx as int) == exact_matches_from(
                                seq,
                                pat,
                                idx + 1,
                            ));
                        }
                    }
                },
                Some(_) => {
                    temp = temp + 1;
                },
            }
            if let Some(st) = start {
                if temp >= m {
                    proof {
                        lemma_agreement_is(seq, pat, st as int, 0, m as int);
                        let rest = exact_matches_from(seq, pat, idx + 1);
                        assert(exact_matches_from(seq, pat, st as int) == seq![(st, idx)] + rest);
                        assert(indexes@.push((st, idx)) + rest =~= indexes@ + (seq![(st, idx)]
                            + rest));
                    }
                    indexes.push((st, idx));
                    start = None;
                    temp = 0;
                }
            }
            idx = idx + 1;
        }
        proof {
            if let Some(st) = start {
                lemma_agreement_is(seq, pat, st as int, 0, temp as int);
                assert(exact_matches_from(seq, pat, st as int) == exact_matches_from(
                    seq,
                    pat,
                    n as int,
                ));
            }
            assert(exact_matches_from(seq, pat, n as int) == Seq::<(usize, usize)>::empty());
            assert(indexes@ =~= exact_matches(seq, pat));
            lemma_exact_matches_sound(seq, pat, 0);
        }
        indexes
    }

    /// Every range that begins at a token equal to `start` and ends at the
    /// first later token equal to `end`, in ascending order.
    ///
    /// Ranges do not nest: a token equal to `start` inside an open range is
    /// passed over. A `start` that no `end` follows yields no range.
    pub fn found_range(&self, start: Token<HOLDER>, end: Token<HOLDER>) -> (indexes: Vec<
        (usize, usize),
    >)
        ensures
            indexes@ == delimited_ranges(self.tokens@, start, end),
            forall|i: int|
                0 <= i < indexes@.len() ==> is_delimited(
                    self.tokens@,
                    start,
                    end,
                    #[trigger] indexes@[i],
                ),
            ranges_ascending(indexes@),
            ranges_within(indexes@, self.tokens@.len()),
    {
        let ghost seq = self.tokens@;
        let n = self.tokens.len();
        let mut indexes: Vec<(usize, usize)> = Vec::new();
        let mut start_idx: Option<usize> = None;
        let mut cur: usize = 0;
        while cur < n
            invariant
                seq == self.tokens@,
                n == seq.len(),
                cur <= n,
                start_idx matches Some(st) ==> {
                    &&& st < cur
                    &&& seq[st as int].eq_spec(&start)
                    &&& forall|j: int| st < j < cur ==> !(#[trigger] seq[j]).eq_spec(&end)
                },
                indexes@ + delimited_ranges_from(
                    seq,
                    start,
                    end,
                    match start_idx {
                        Some(st) => st as int,
                        None => cur as int,
                    },
                ) == delimited_ranges(seq, start, end),
            decreases n - cur,
        {
            let token = &self.tokens[cur];
            match start_idx {
                None => {
                    if *token == start {
                        start_idx = Some(cur);
                    }
                },
                Some(st) => {
                    if *token == end {
                        proof {
                            lemma_next_close_is(seq, end, st + 1, cur as int);
                            let rest = delimited_ranges_from(seq, start, end, cur + 1);
                            assert(delimited_ranges_from(seq, start, end, st as int) == seq![
                                (st, cur),
                            ] + rest);
                            assert(indexes@.push((st, cur)) + rest =~= indexes@ + (seq![(st, cur)]
                                + rest));
                        }
                        start_idx = None;
                        indexes.push((st, cur));
                    }
                },
            }
            cur = cur + 1;
        }
        proof {
            if let Some(st) = start_idx {
                lemma_next_close_is(seq, end, st + 1, n as int);
            }
            assert(indexes@ =~= delimited_ranges(seq, start, end));
            lemma_delimited_ranges_sound(seq, start, end, 0);
        }
        indexes
    }

    /// Replaces each range of `slices` by the one token that `eq` makes of
    /// the tokens in it, both ends included.
    ///
    /// The ranges speak of positions as they are before the call, in
    /// ascending order and without overlap. They are applied in the order
    /// given; the positions of later ranges are corrected by the number of
    /// tokens that earlier ranges took away. A range whose end lies behind
    /// the last token is skipped. `eq` is called once for each applied
    /// range, in order, on an owned list of exactly its tokens.
    pub fn replace<F: Fn(TokenArgs<HOLDER>) -> Token<HOLDER>>(
        &mut self,
        slices: &[(usize, usize)],
        eq: F,
    )
        requires
            ranges_ascending(slices@),
            forall|k: int|
                0 <= k < slices@.len() && range_applies(
                    #[trigger] slices@[k],
                    old(self).tokens@.len(),
                ) ==> accepts(eq, covered(old(self).tokens@, slices@[k])),
        ensures
            is_pass(old(self).tokens@, slices@, eq, final(self).tokens@),
            forall|f: spec_fn(Seq<Token<HOLDER>>) -> Token<HOLDER>| #[trigger]
                computes(eq, f) ==> final(self).tokens@ == rewritten(
                    old(self).tokens@,
                    slices@,
                    reduced(old(self).tokens@, slices@, f),
                ),
            final(self).tokens@.len() == old(self).tokens@.len() - shrink(
                old(self).tokens@.len(),
                slices@,
            ),
    {
        let ghost before = self.tokens@;
        let ghost ranges = slices@;
        let ghost mut reps: Seq<Token<HOLDER>> = Seq::empty();
        let mut negative_offset: usize = 0;
        let mut i: usize = 0;
        while i < slices.len()
            invariant
                ranges == slices@,
                ranges_ascending(ranges),
                forall|k: int|
                    0 <= k < ranges.len() && range_applies(#[trigger] ranges[k], before.len())
                        ==> accepts(eq, covered(before, ranges[k])),
                i <= ranges.len(),
                reps.len() == i,
                forall|k: int|
                    0 <= k < i && range_applies(#[trigger] ranges[k], before.len()) ==> reduces_to(
                        eq,
                        covered(before, ranges[k]),
                        reps[k],
                    ),
                negative_offset == shrink_prefix(before.len(), ranges, i as int),
                self.tokens@ == rewritten_prefix(before, ranges, reps, i as int) + before.subrange(
                    resume_point(before.len(), ranges, i as int),
                    before.len() as int,
                ),
            decreases ranges.len() - i,
        {
            let x = slices[i];
            let ghost cursor = resume_point(before.len(), ranges, i as int);
            let ghost built = rewritten_prefix(before, ranges, reps, i as int);
            proof {
                lemma_resume_point_bounds(before.len(), ranges, i as int);
                lemma_rewritten_prefix_len(before, ranges, reps, i as int);
                assert(x == ranges[i as int]);
                assert(cursor <= x.0 <= x.1);
            }
            if x.1 - negative_offset >= self.tokens.len() {
                proof {
                    let ghost earlier = reps;
                    reps = reps.push(Token::Empty);
                    lemma_rewritten_prefix_depends_on_applied(
                        before,
                        ranges,
                        earlier,
                        reps,
                        i as int,
                    );
                    assert(!range_applies(ranges[i as int], before.len()));
                    assert(rewritten_prefix(before, ranges, reps, i + 1) == built);
                    assert(resume_point(before.len(), ranges, i + 1) == cursor);
                }
            } else {
                let mut right = self.tokens.split_off(x.1 - negative_offset + 1);
                let slice = self.tokens.split_off(x.0 - negative_offset);
                assert(right@ =~= before.subrange(x.1 + 1, before.len() as int));
                assert(slice@ =~= covered(before, x));
                assert(self.tokens@ =~= built + before.subrange(cursor, x.0 as int));
                negative_offset = negative_offset + (slice.len() - 1);
                let args = TokenArgs::from_list(slice);
                let token = eq(args);
                proof {
                    assert(reduces_to(eq, covered(before, x), token));
                    let ghost earlier = reps;
                    reps = reps.push(token);
                    lemma_rewritten_prefix_depends_on_applied(
                        before,
                        ranges,
                        earlier,
                        reps,
                        i as int,
                    );
                }
                self.tokens.push(token);
                self.tokens.append(&mut right);
                proof {
                    assert(range_applies(ranges[i as int], before.len()));
                    assert(rewritten_prefix(before, ranges, reps, i + 1) == built
                        + before.subrange(cursor, x.0 as int) + seq![token]);
                    assert(resume_point(before.len(), ranges, i + 1) == x.1 + 1);
                    assert(self.tokens@ =~= rewritten_prefix(before, ranges, reps, i + 1)
                        + before.subrange(x.1 + 1, before.len() as int));
                }
            }
            i = i + 1;
        }
        proof {
            lemma_rewritten_prefix_len(before, ranges, reps, ranges.len() as int);
            lemma_resume_point_bounds(before.len(), ranges, ranges.len() as int);
            assert(is_replacement(before, ranges, eq, reps, self.tokens@));
            assert forall|f: spec_fn(Seq<Token<HOLDER>>) -> Token<HOLDER>| #[trigger]
                computes(eq, f) implies self.tokens@ == rewritten(
                before,
                ranges,
                reduced(before, ranges, f),
            ) by {
                lemma_replacement_of_function(before, ranges, eq, reps, self.tokens@, f);
            }
        }
    }
}

} // verus!
