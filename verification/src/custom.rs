//! A payload set for a small dependency grammar.
use crate::args::TokenArgs;
use crate::text::debug_char;
use crate::text::debug_char_text;
use crate::text::debug_quote;
use crate::text::debug_quoted;
use crate::text::decimal_text;
use crate::text::int_to_text;
use crate::text::push_text;
use crate::token::Token;
use crate::token::TokenHolder;
use std::fmt::Debug;
use vstd::prelude::*;
use vstd::std_specs::cmp::PartialEqSpecImpl;

verus! {

/// Payloads that recognise `compileOnly("group:artifact:version")`.
#[derive(Debug)]
pub enum TestCustomTokens {
    /// An opening bracket.
    StartParen,
    /// A closing bracket.
    EndParen,
    /// The keyword `compileOnly`.
    CompileOnly,
    /// A finished dependency record: group, artifact, version.
    CompileOnlyCompound(String, String, String),
    /// A dependency that could not be put together.
    FailedCompound,
    /// The tokens between two matching delimiters.
    Group(TokenArgs<TestCustomTokens>),
}

impl PartialEqSpecImpl for TestCustomTokens {
    open spec fn obeys_eq_spec() -> bool {
        true
    }

    /// The markers equal themselves. Any two groups are equal, whatever
    /// they hold, so that a group can be searched for by its shape. A
    /// finished record equals nothing, itself included.
    open spec fn eq_spec(&self, other: &Self) -> bool {
        match (*self, *other) {
            (TestCustomTokens::StartParen, TestCustomTokens::StartParen) => true,
            (TestCustomTokens::EndParen, TestCustomTokens::EndParen) => true,
            (TestCustomTokens::CompileOnly, TestCustomTokens::CompileOnly) => true,
            (TestCustomTokens::FailedCompound, TestCustomTokens::FailedCompound) => true,
            (TestCustomTokens::Group(_), TestCustomTokens::Group(_)) => true,
            _ => false,
        }
    }
}

impl PartialEq for TestCustomTokens {
    fn eq(&self, other: &Self) -> (r: bool) {
        match self {
            TestCustomTokens::StartParen => {
                if let TestCustomTokens::StartParen = other {
                    true
                } else {
                    false
                }
            },
            TestCustomTokens::EndParen => {
                if let TestCustomTokens::EndParen = other {
                    true
                } else {
                    false
                }
            },
            TestCustomTokens::CompileOnly => {
                if let TestCustomTokens::CompileOnly = other {
                    true
                } else {
                    false
                }
            },
            TestCustomTokens::FailedCompound => {
                if let TestCustomTokens::FailedCompound = other {
                    true
                } else {
                    false
                }
            },
            TestCustomTokens::CompileOnlyCompound(_, _, _) => false,
            TestCustomTokens::Group(_) => {
                if let TestCustomTokens::Group(_) = other {
                    true
                } else {
                    false
                }
            },
        }
    }
}

/// The payload written the way its declaration reads: the variant's name
/// and, in round brackets, its fields.
pub open spec fn payload_text(payload: TestCustomTokens) -> Seq<char>
    decreases payload, 0nat,
{
    match payload {
        TestCustomTokens::StartParen => "StartParen"@,
        TestCustomTokens::EndParen => "EndParen"@,
        TestCustomTokens::CompileOnly => "CompileOnly"@,
        TestCustomTokens::CompileOnlyCompound(group, artifact, version) => "CompileOnlyCompound("@
            + debug_quoted(group@) + ", "@ + debug_quoted(artifact@) + ", "@ + debug_quoted(
            version@,
        ) + ")"@,
        TestCustomTokens::FailedCompound => "FailedCompound"@,
        TestCustomTokens::Group(inner) => "Group(TokenArgs { tokens: ["@ + listed_text(
            inner.tokens@,
            inner.tokens@.len(),
        ) + "] })"@,
    }
}

/// A token written the way its declaration reads.
pub open spec fn token_text(token: Token<TestCustomTokens>) -> Seq<char>
    decreases token, 0nat,
{
    match token {
        Token::Empty => "Empty"@,
        Token::Char(c) => "Char("@ + debug_char_text(c) + ")"@,
        Token::StrLit(content) => "StrLit("@ + debug_quoted(content@) + ")"@,
        Token::String(content) => "String("@ + debug_quoted(content@) + ")"@,
        Token::IntLit(value) => "IntLit("@ + decimal_text(value as int) + ")"@,
        Token::EOF => "EOF"@,
        Token::NewLine => "NewLine"@,
        Token::Custom(payload) => "Custom("@ + payload_text(payload) + ")"@,
    }
}

/// The first `n` tokens of the list written one after the other, with a
/// comma and a blank between each two.
pub open spec fn listed_text(tokens: Seq<Token<TestCustomTokens>>, n: nat) -> Seq<char>
    decreases tokens, n,
{
    if n == 0 || n > tokens.len() {
        Seq::empty()
    } else if n == 1 {
        token_text(tokens[0])
    } else {
        listed_text(tokens, (n - 1) as nat) + ", "@ + token_text(tokens[n - 1])
    }
}

/// Writes the payload at the end of `out`.
fn push_payload(out: &mut String, payload: &TestCustomTokens)
    ensures
        final(out)@ == old(out)@ + payload_text(*payload),
    decreases payload, 0nat,
{
    match payload {
        TestCustomTokens::StartParen => push_text(out, "StartParen"),
        TestCustomTokens::EndParen => push_text(out, "EndParen"),
        TestCustomTokens::CompileOnly => push_text(out, "CompileOnly"),
        TestCustomTokens::CompileOnlyCompound(group, artifact, version) => {
            push_text(out, "CompileOnlyCompound(");
            push_text(out, debug_quote(group.as_str()).as_str());
            push_text(out, ", ");
            push_text(out, debug_quote(artifact.as_str()).as_str());
            push_text(out, ", ");
            push_text(out, debug_quote(version.as_str()).as_str());
            push_text(out, ")");
            assert(out@ =~= old(out)@ + payload_text(*payload));
        },
        TestCustomTokens::FailedCompound => push_text(out, "FailedCompound"),
        TestCustomTokens::Group(inner) => {
            push_text(out, "Group(TokenArgs { tokens: [");
            push_listed(out, &inner.tokens, inner.tokens.len());
            push_text(out, "] })");
            assert(out@ =~= old(out)@ + payload_text(*payload));
        },
    }
}

/// Writes the token at the end of `out`.
fn push_token(out: &mut String, token: &Token<TestCustomTokens>)
    ensures
        final(out)@ == old(out)@ + token_text(*token),
    decreases token, 0nat,
{
    match token {
        Token::Empty => push_text(out, "Empty"),
        Token::Char(c) => {
            push_text(out, "Char(");
            push_text(out, debug_char(*c).as_str());
            push_text(out, ")");
        },
        Token::StrLit(content) => {
            push_text(out, "StrLit(");
            push_text(out, debug_quote(content.as_str()).as_str());
            push_text(out, ")");
        },
        Token::String(content) => {
            push_text(out, "String(");
            push_text(out, debug_quote(content.as_str()).as_str());
            push_text(out, ")");
        },
        Token::IntLit(value) => {
            push_text(out, "IntLit(");
            push_text(out, int_to_text(*value).as_str());
            push_text(out, ")");
        },
        Token::EOF => push_text(out, "EOF"),
        Token::NewLine => push_text(out, "NewLine"),
        Token::Custom(payload) => {
            push_text(out, "Custom(");
            push_payload(out, payload);
            push_text(out, ")");
        },
    }
    assert(out@ =~= old(out)@ + token_text(*token));
}

/// Writes the first `n` tokens at the end of `out`, with commas in
/// between.
fn push_listed(out: &mut String, tokens: &Vec<Token<TestCustomTokens>>, n: usize)
    requires
        n <= tokens@.len(),
    ensures
        final(out)@ == old(out)@ + listed_text(tokens@, n as nat),
    decreases tokens, n,
{
    if n == 0 {
        assert(out@ =~= old(out)@ + listed_text(tokens@, 0));
    } else {
        if n > 1 {
            push_listed(out, tokens, n - 1);
            push_text(out, ", ");
        }
        push_token(out, &tokens[n - 1]);
        assert(out@ =~= old(out)@ + listed_text(tokens@, n as nat));
    }
}

/// The two payloads are of the same variant.
pub open spec fn same_variant(left: TestCustomTokens, right: TestCustomTokens) -> bool {
    match (left, right) {
        (TestCustomTokens::StartParen, TestCustomTokens::StartParen) => true,
        (TestCustomTokens::EndParen, TestCustomTokens::EndParen) => true,
        (TestCustomTokens::CompileOnly, TestCustomTokens::CompileOnly) => true,
        (
            TestCustomTokens::CompileOnlyCompound(_, _, _),
            TestCustomTokens::CompileOnlyCompound(_, _, _),
        ) => true,
        (TestCustomTokens::FailedCompound, TestCustomTokens::FailedCompound) => true,
        (TestCustomTokens::Group(_), TestCustomTokens::Group(_)) => true,
        _ => false,
    }
}

/// Two lists whose tokens read alike, one by one, read alike as lists.
pub proof fn lemma_listed_text_alike(
    left: Seq<Token<TestCustomTokens>>,
    right: Seq<Token<TestCustomTokens>>,
    n: nat,
)
    requires
        left.len() == right.len(),
        n <= left.len(),
        forall|i: int| 0 <= i < n ==> token_text(#[trigger] left[i]) == token_text(right[i]),
    ensures
        listed_text(left, n) == listed_text(right, n),
    decreases n,
{
    if n > 1 {
        lemma_listed_text_alike(left, right, (n - 1) as nat);
    }
}

/// Copies a payload with all that it holds.
fn copy_payload(payload: &TestCustomTokens) -> (copy: TestCustomTokens)
    ensures
        same_variant(*payload, copy),
        payload_text(copy) == payload_text(*payload),
    decreases payload, 0nat,
{
    match payload {
        TestCustomTokens::StartParen => TestCustomTokens::StartParen,
        TestCustomTokens::EndParen => TestCustomTokens::EndParen,
        TestCustomTokens::CompileOnly => TestCustomTokens::CompileOnly,
        TestCustomTokens::CompileOnlyCompound(group, artifact, version) => {
            TestCustomTokens::CompileOnlyCompound(group.clone(), artifact.clone(), version.clone())
        },
        TestCustomTokens::FailedCompound => TestCustomTokens::FailedCompound,
        TestCustomTokens::Group(inner) => {
            let tokens = copy_listed(&inner.tokens, inner.tokens.len());
            proof {
                lemma_listed_text_alike(tokens@, inner.tokens@, tokens@.len());
            }
            TestCustomTokens::Group(TokenArgs { tokens })
        },
    }
}

/// Copies a token with all that it holds.
fn copy_token(token: &Token<TestCustomTokens>) -> (copy: Token<TestCustomTokens>)
    ensures
        token_text(copy) == token_text(*token),
    decreases token, 0nat,
{
    match token {
        Token::Empty => Token::Empty,
        Token::Char(c) => Token::Char(*c),
        Token::StrLit(content) => Token::StrLit(content.clone()),
        Token::String(content) => Token::String(content.clone()),
        Token::IntLit(value) => Token::IntLit(*value),
        Token::EOF => Token::EOF,
        Token::NewLine => Token::NewLine,
        Token::Custom(payload) => Token::Custom(copy_payload(payload)),
    }
}

/// Copies the first `n` tokens of the list.
fn copy_listed(tokens: &Vec<Token<TestCustomTokens>>, n: usize) -> (copy: Vec<
    Token<TestCustomTokens>,
>)
    requires
        n <= tokens@.len(),
    ensures
        copy@.len() == n,
        forall|i: int| 0 <= i < n ==> token_text(#[trigger] copy@[i]) == token_text(tokens@[i]),
    decreases tokens, n,
{
    if n == 0 {
        Vec::new()
    } else {
        let mut copy = copy_listed(tokens, n - 1);
        copy.push(copy_token(&tokens[n - 1]));
        copy
    }
}

impl Clone for TestCustomTokens {
    /// A copy of the same variant that reads like the payload it was made
    /// of.
    fn clone(&self) -> (copy: Self)
        ensures
            same_variant(*self, copy),
            payload_text(copy) == payload_text(*self),
    {
        copy_payload(self)
    }
}

impl TokenHolder for TestCustomTokens {
    open spec fn text_spec(&self) -> Seq<char> {
        payload_text(*self)
    }

    fn to_text(&self) -> (text: String) {
        let mut text = String::new();
        push_payload(&mut text, self);
        assert(text@ =~= payload_text(*self));
        text
    }

    proof fn eq_is_specified() {
    }
}

} // verus!
