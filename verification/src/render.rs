//! The text of a token sequence, and what a replacement pass does to it.
use crate::pattern::char_token;
use crate::pattern::chars_to_tokens;
use crate::search::ranges_ascending;
use crate::splice::covered;
use crate::splice::lemma_resume_point_bounds;
use crate::splice::range_applies;
use crate::splice::resume_point;
use crate::splice::rewritten;
use crate::splice::rewritten_prefix;
use crate::token::Token;
use crate::token::TokenHolder;
use vstd::prelude::*;

verus! {

/// The texts of the tokens, one after the other.
pub open spec fn texts<T: TokenHolder>(tokens: Seq<Token<T>>) -> Seq<char>
    decreases tokens.len(),
{
    if tokens.len() == 0 {
        Seq::empty()
    } else {
        texts(tokens.drop_last()) + tokens.last().text_spec()
    }
}

/// The text of two sequences put together is the two texts put together.
pub proof fn lemma_texts_concat<T: TokenHolder>(a: Seq<Token<T>>, b: Seq<Token<T>>)
    ensures
        texts(a + b) == texts(a) + texts(b),
    decreases b.len(),
{
    if b.len() == 0 {
        assert(a + b =~= a);
        assert(texts(a) + texts(b) =~= texts(a));
    } else {
        lemma_texts_concat(a, b.drop_last());
        assert((a + b).drop_last() =~= a + b.drop_last());
        assert((a + b).last() == b.last());
        assert(texts(a + b) =~= texts(a) + texts(b));
    }
}

/// A sequence of one token renders as that token.
pub proof fn lemma_texts_single<T: TokenHolder>(token: Token<T>)
    ensures
        texts(seq![token]) == token.text_spec(),
{
    assert(seq![token].drop_last() =~= Seq::<Token<T>>::empty());
    assert(texts(seq![token].drop_last()) == Seq::<char>::empty());
    assert(texts(seq![token]) =~= token.text_spec());
}

/// The text of a sequence is the text of any leading part of it, followed
/// by the text of the rest.
pub proof fn lemma_texts_split<T: TokenHolder>(tokens: Seq<Token<T>>, at: int)
    requires
        0 <= at <= tokens.len(),
    ensures
        texts(tokens) == texts(tokens.subrange(0, at)) + texts(
            tokens.subrange(at, tokens.len() as int),
        ),
{
    assert(tokens =~= tokens.subrange(0, at) + tokens.subrange(at, tokens.len() as int));
    lemma_texts_concat(tokens.subrange(0, at), tokens.subrange(at, tokens.len() as int));
}

/// The text of a sequence of two or more tokens is at least as long as the
/// texts of its first and its last token together.
pub proof fn lemma_texts_len_ends<T: TokenHolder>(tokens: Seq<Token<T>>)
    requires
        tokens.len() >= 2,
    ensures
        texts(tokens).len() >= tokens[0].text_spec().len() + tokens.last().text_spec().len(),
{
    let inner = tokens.drop_last();
    lemma_texts_split(inner, 1);
    assert(inner.subrange(0, 1) =~= seq![tokens[0]]);
    lemma_texts_single(tokens[0]);
}

/// Turning a text into character tokens and rendering them gives the text
/// back.
pub proof fn lemma_texts_of_chars<T: TokenHolder>(text: Seq<char>)
    ensures
        texts(chars_to_tokens::<T>(text)) == text,
    decreases text.len(),
{
    let tokens = chars_to_tokens::<T>(text);
    if text.len() > 0 {
        lemma_texts_of_chars::<T>(text.drop_last());
        assert(tokens.drop_last() =~= chars_to_tokens::<T>(text.drop_last()));
        assert(tokens.last() == char_token::<T>(text.last()));
        assert(texts(tokens) =~= text);
    }
}

/// A string literal that holds the text of some tokens renders as that
/// text, and so do the character tokens that the literal's text expands
/// to.
pub proof fn lemma_text_round_trip<T: TokenHolder>(removed: Seq<Token<T>>, literal: Token<T>)
    requires
        literal matches Token::StrLit(content) && content@ == texts(removed),
    ensures
        literal.text_spec() == texts(removed),
        texts(chars_to_tokens::<T>(literal.text_spec())) == texts(removed),
{
    lemma_texts_of_chars::<T>(literal.text_spec());
}

/// What the first `i` ranges of a pass put out renders as the stretch of
/// the sequence that they have consumed, provided that each replacement
/// token renders as the tokens it stands for.
pub proof fn lemma_rewritten_prefix_keeps_text<T: TokenHolder>(
    seq: Seq<Token<T>>,
    ranges: Seq<(usize, usize)>,
    reps: Seq<Token<T>>,
    i: int,
)
    requires
        ranges_ascending(ranges),
        reps.len() == ranges.len(),
        0 <= i <= ranges.len(),
        forall|k: int|
            0 <= k < ranges.len() && range_applies(#[trigger] ranges[k], seq.len())
                ==> reps[k].text_spec() == texts(covered(seq, ranges[k])),
    ensures
        texts(rewritten_prefix(seq, ranges, reps, i)) == texts(
            seq.subrange(0, resume_point(seq.len(), ranges, i)),
        ),
    decreases i,
{
    if i <= 0 {
        assert(seq.subrange(0, 0) =~= Seq::<Token<T>>::empty());
    } else {
        lemma_rewritten_prefix_keeps_text(seq, ranges, reps, i - 1);
        lemma_resume_point_bounds(seq.len(), ranges, i - 1);
        let range = ranges[i - 1];
        if range_applies(range, seq.len()) {
            let before = rewritten_prefix(seq, ranges, reps, i - 1);
            let cursor = resume_point(seq.len(), ranges, i - 1);
            let between = seq.subrange(cursor, range.0 as int);
            assert(range.0 <= range.1);
            lemma_texts_concat(before, between);
            lemma_texts_concat(before + between, seq![reps[i - 1]]);
            lemma_texts_single(reps[i - 1]);
            let done = seq.subrange(0, range.1 + 1);
            assert(done =~= seq.subrange(0, cursor) + between + covered(seq, range));
            lemma_texts_concat(seq.subrange(0, cursor), between);
            lemma_texts_concat(seq.subrange(0, cursor) + between, covered(seq, range));
        }
    }
}

/// A pass in which each replacement token renders as the tokens it stands
/// for leaves the text of the whole sequence as it was.
pub proof fn lemma_rewritten_keeps_text<T: TokenHolder>(
    seq: Seq<Token<T>>,
    ranges: Seq<(usize, usize)>,
    reps: Seq<Token<T>>,
)
    requires
        ranges_ascending(ranges),
        reps.len() == ranges.len(),
        forall|k: int|
            0 <= k < ranges.len() && range_applies(#[trigger] ranges[k], seq.len())
                ==> reps[k].text_spec() == texts(covered(seq, ranges[k])),
    ensures
        texts(rewritten(seq, ranges, reps)) == texts(seq),
{
    let n = ranges.len() as int;
    lemma_rewritten_prefix_keeps_text(seq, ranges, reps, n);
    lemma_resume_point_bounds(seq.len(), ranges, n);
    let cursor = resume_point(seq.len(), ranges, n);
    lemma_texts_concat(rewritten_prefix(seq, ranges, reps, n), seq.subrange(cursor, seq.len() as int));
    lemma_texts_split(seq, cursor);
}

} // verus!
