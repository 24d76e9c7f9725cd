//! The tokens of one replaced span, as handed to a reducer.
use crate::render::texts;
use crate::text::push_text;
use crate::token::Token;
use crate::token::TokenHolder;
use std::ops::Index;
use vstd::prelude::*;
use vstd::std_specs::cmp::PartialEqSpec;
use vstd::std_specs::cmp::PartialEqSpecImpl;
use vstd::string::StrSliceExecFns;
use vstd::string::StringExecFns;

verus! {

/// An owned, ordered list of tokens.
#[derive(Debug, Clone)]
pub struct TokenArgs<HOLDER> {
    pub tokens: Vec<Token<HOLDER>>,
}

impl<HOLDER: TokenHolder> PartialEqSpecImpl for TokenArgs<HOLDER> {
    open spec fn obeys_eq_spec() -> bool {
        true
    }

    /// Two lists are equal when they are of the same length and their
    /// tokens are equal one by one.
    open spec fn eq_spec(&self, other: &Self) -> bool {
        PartialEqSpec::eq_spec(&self.tokens, &other.tokens)
    }
}

impl<HOLDER: TokenHolder> PartialEq for TokenArgs<HOLDER> {
    fn eq(&self, other: &Self) -> (r: bool) {
        self.tokens == other.tokens
    }
}

impl<HOLDER: TokenHolder> TokenArgs<HOLDER> {
    /// An empty list.
    pub fn new() -> (args: Self)
        ensures
            args.tokens@ == Seq::<Token<HOLDER>>::empty(),
    {
        Self { tokens: Vec::new() }
    }

    /// The list that holds the tokens of `list`, in the same order.
    pub fn from_list(list: Vec<Token<HOLDER>>) -> (args: Self)
        ensures
            args.tokens@ == list@,
    {
        Self { tokens: list }
    }

    /// Drops the first and the last token.
    pub fn remove_backs(&mut self)
        requires
            old(self).tokens@.len() >= 2,
        ensures
            final(self).tokens@ == old(self).tokens@.subrange(1, old(self).tokens@.len() - 1),
    {
        self.tokens.pop();
        self.tokens.remove(0);
        assert(self.tokens@ =~= old(self).tokens@.subrange(1, old(self).tokens@.len() - 1));
    }

    /// The texts of the tokens, one after the other.
    pub fn concat_text(&self) -> (text: String)
        ensures
            text@ == texts(self.tokens@),
    {
        let mut text = String::new();
        let mut i: usize = 0;
        while i < self.tokens.len()
            invariant
                i <= self.tokens@.len(),
                text@ == texts(self.tokens@.take(i as int)),
            decreases self.tokens@.len() - i,
        {
            let part = self.tokens[i].to_text();
            push_text(&mut text, part.as_str());
            proof {
                assert(self.tokens@.take(i + 1).drop_last() =~= self.tokens@.take(i as int));
            }
            i = i + 1;
        }
        assert(self.tokens@.take(i as int) =~= self.tokens@);
        text
    }

    /// The text of the tokens without its first and its last character.
    pub fn scan_string(&self) -> (text: String)
        requires
            texts(self.tokens@).len() >= 2,
        ensures
            text@ == texts(self.tokens@).subrange(1, texts(self.tokens@).len() - 1),
    {
        let a = self.concat_text();
        let len = a.as_str().unicode_len();
        String::from_str(a.as_str().substring_char(1, len - 1))
    }
}

impl<HOLDER: TokenHolder> Index<usize> for TokenArgs<HOLDER> {
    type Output = Token<HOLDER>;

    fn index(&self, index: usize) -> (output: &Token<HOLDER>)
        ensures
            *output == self.tokens@[index as int],
    {
        &self.tokens[index]
    }
}

impl<HOLDER: TokenHolder> vstd::std_specs::core::IndexSpecImpl<usize> for TokenArgs<HOLDER> {
    /// The index lies inside the list.
    open spec fn index_req(&self, index: &usize) -> bool {
        *index < self.tokens@.len()
    }
}

} // verus!
