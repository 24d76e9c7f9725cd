//! Patterns: what a caller may hand to the exact search.
use crate::token::Token;
use crate::token::TokenHolder;
use vstd::prelude::*;

verus! {

/// The token that stands for one character of text.
pub open spec fn char_token<H>(c: char) -> Token<H> {
    Token::Char(c)
}

/// One character token for each character of `text`, in order.
pub open spec fn chars_to_tokens<H>(text: Seq<char>) -> Seq<Token<H>> {
    Seq::new(text.len(), |i: int| char_token::<H>(text[i]))
}

/// Appends one character token for each character of `text`.
pub fn push_chars<H>(tokens: &mut Vec<Token<H>>, text: &str)
    ensures
        final(tokens)@ == old(tokens)@ + chars_to_tokens::<H>(text@),
{
    let ghost before = tokens@;
    assert(tokens@ =~= before + chars_to_tokens::<H>(text@.take(0)));
    for c in it: text.chars()
        invariant
            it.seq() == text@,
            tokens@ == before + chars_to_tokens::<H>(text@.take(it.index() as int)),
    {
        let ghost k = it.index() as int;
        let ghost prev = tokens@;
        tokens.push(Token::Char(c));
        assert(tokens@ =~= before + chars_to_tokens::<H>(text@.take(k + 1))) by {
            let done = chars_to_tokens::<H>(text@.take(k));
            let next = chars_to_tokens::<H>(text@.take(k + 1));
            assert(prev == before + done);
            assert(tokens@ == prev.push(char_token::<H>(text@[k])));
            assert forall|j: int| 0 <= j < k + 1 implies next[j] == if j < k {
                done[j]
            } else {
                char_token::<H>(text@[k])
            } by {
                assert(text@.take(k + 1)[j] == text@[j]);
                if j < k {
                    assert(text@.take(k)[j] == text@[j]);
                }
            }
        }
    }
    assert(text@.take(text@.len() as int) =~= text@);
}

/// `Vec::from` on an array: the vector holds the array's items in order.
#[verifier::external_body]
fn array_into_vec<T, const N: usize>(items: [T; N]) -> (list: Vec<T>)
    ensures
        list@ == items@,
{
    Vec::from(items)
}

/// A value that can serve as a search pattern.
pub trait Tokens<HOLDER: TokenHolder>: Sized {
    /// The tokens that the pattern stands for.
    spec fn tokens_spec(&self) -> Seq<Token<HOLDER>>;

    /// Turns the pattern into its tokens.
    fn convert_to_tokens(self) -> (tokens: Vec<Token<HOLDER>>)
        ensures
            tokens@ == self.tokens_spec(),
    ;
}

/// An explicit list of tokens stands for itself.
impl<HOLDER: TokenHolder, const T: usize> Tokens<HOLDER> for [Token<HOLDER>; T] {
    open spec fn tokens_spec(&self) -> Seq<Token<HOLDER>> {
        self@
    }

    fn convert_to_tokens(self) -> (tokens: Vec<Token<HOLDER>>) {
        array_into_vec(self)
    }
}

/// A text stands for its characters.
impl<HOLDER: TokenHolder> Tokens<HOLDER> for &str {
    open spec fn tokens_spec(&self) -> Seq<Token<HOLDER>> {
        chars_to_tokens(self@)
    }

    fn convert_to_tokens(self) -> (tokens: Vec<Token<HOLDER>>) {
        let mut tokens: Vec<Token<HOLDER>> = Vec::new();
        push_chars(&mut tokens, self);
        assert(tokens@ =~= chars_to_tokens::<HOLDER>(self@));
        tokens
    }
}

/// A text stands for its characters.
impl<HOLDER: TokenHolder> Tokens<HOLDER> for String {
    open spec fn tokens_spec(&self) -> Seq<Token<HOLDER>> {
        chars_to_tokens(self@)
    }

    fn convert_to_tokens(self) -> (tokens: Vec<Token<HOLDER>>) {
        let mut tokens: Vec<Token<HOLDER>> = Vec::new();
        push_chars(&mut tokens, self.as_str());
        assert(tokens@ =~= chars_to_tokens::<HOLDER>(self@));
        tokens
    }
}

} // verus!
