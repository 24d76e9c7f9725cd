//! The passes that recognise `compileOnly("group:artifact:version")` in a
//! sequence of character tokens, and the reducers they use.
use crate::args::TokenArgs;
use crate::builder::is_pass;
use crate::builder::TokenBuilder;
use crate::custom::TestCustomTokens;
use crate::pattern::chars_to_tokens;
use crate::render::lemma_texts_len_ends;
use crate::render::texts;
use crate::search::delimited_ranges;
use crate::search::exact_matches;
use crate::search::is_delimited;
use crate::splice::covered;
use crate::splice::range_applies;
use crate::text::split_on;
use crate::text::split_text;
use crate::text::views;
use crate::token::Token;
use vstd::prelude::*;

verus! {

/// Makes a string literal of a quoted span: the literal holds the span's
/// text without its first and its last character.
pub fn string_literal(list: TokenArgs<TestCustomTokens>) -> (token: Token<TestCustomTokens>)
    requires
        texts(list.tokens@).len() >= 2,
    ensures
        token matches Token::StrLit(content) && content@ == texts(list.tokens@).subrange(
            1,
            texts(list.tokens@).len() - 1,
        ),
{
    Token::StrLit(list.scan_string())
}

/// Makes the keyword marker of whatever span it is given.
pub fn keyword(list: TokenArgs<TestCustomTokens>) -> (token: Token<TestCustomTokens>)
    ensures
        token == Token::<TestCustomTokens>::Custom(TestCustomTokens::CompileOnly),
{
    Token::Custom(TestCustomTokens::CompileOnly)
}

/// Makes a group of a delimited span: the group holds the span's tokens
/// without the two delimiters.
pub fn group(list: TokenArgs<TestCustomTokens>) -> (token: Token<TestCustomTokens>)
    requires
        list.tokens@.len() >= 2,
    ensures
        token matches Token::Custom(TestCustomTokens::Group(inner)) && inner.tokens@
            == list.tokens@.subrange(1, list.tokens@.len() - 1),
{
    let mut list = list;
    list.remove_backs();
    Token::Custom(TestCustomTokens::Group(list))
}

/// The three parts of the dependency that a span names, where it names
/// one: its second token is a group, the group is not empty, and the text
/// of the group's first token falls into exactly three parts at its
/// colons.
pub open spec fn dependency_parts(list: Seq<Token<TestCustomTokens>>) -> Option<Seq<Seq<char>>> {
    if list.len() < 2 {
        None
    } else {
        match list[1] {
            Token::Custom(TestCustomTokens::Group(inner)) => {
                if inner.tokens@.len() >= 1 && split_on(inner.tokens@[0].text_spec(), ':').len()
                    == 3 {
                    Some(split_on(inner.tokens@[0].text_spec(), ':'))
                } else {
                    None
                }
            },
            _ => None,
        }
    }
}

/// Makes a dependency record of a keyword followed by a group, or the
/// failure marker where the span does not name a dependency.
pub fn compound(list: TokenArgs<TestCustomTokens>) -> (token: Token<TestCustomTokens>)
    ensures
        match dependency_parts(list.tokens@) {
            Some(parts) => token matches Token::Custom(
                TestCustomTokens::CompileOnlyCompound(group, artifact, version),
            ) && group@ == parts[0] && artifact@ == parts[1] && version@ == parts[2],
            None => token == Token::<TestCustomTokens>::Custom(TestCustomTokens::FailedCompound),
        },
{
    if list.tokens.len() < 2 {
        return Token::Custom(TestCustomTokens::FailedCompound);
    }
    match &list.tokens[1] {
        Token::Custom(TestCustomTokens::Group(inner)) => {
            if inner.tokens.len() == 0 {
                return Token::Custom(TestCustomTokens::FailedCompound);
            }
            let text = inner.tokens[0].to_text();
            let mut parts = split_text(text.as_str(), ':');
            if parts.len() == 3 {
                let ghost all = parts@;
                let version = parts.pop().unwrap();
                let artifact = parts.pop().unwrap();
                let group = parts.pop().unwrap();
                proof {
                    assert(views(all)[0] == group@);
                    assert(views(all)[1] == artifact@);
                    assert(views(all)[2] == version@);
                }
                Token::Custom(TestCustomTokens::CompileOnlyCompound(group, artifact, version))
            } else {
                assert(views(parts@).len() == parts@.len());
                Token::Custom(TestCustomTokens::FailedCompound)
            }
        },
        _ => Token::Custom(TestCustomTokens::FailedCompound),
    }
}

/// `after` comes from `before` by four passes: quoted spans become string
/// literals, the word `compileOnly` becomes the keyword marker, spans in
/// round brackets become groups, and each keyword with the next group
/// becomes a dependency record or the failure marker.
pub open spec fn collapses_to(
    before: Seq<Token<TestCustomTokens>>,
    quoted: Seq<Token<TestCustomTokens>>,
    named: Seq<Token<TestCustomTokens>>,
    grouped: Seq<Token<TestCustomTokens>>,
    marker: Token<TestCustomTokens>,
    after: Seq<Token<TestCustomTokens>>,
) -> bool {
    &&& is_pass(
        before,
        delimited_ranges(before, Token::Char('"'), Token::Char('"')),
        string_literal,
        quoted,
    )
    &&& is_pass(
        quoted,
        exact_matches(quoted, chars_to_tokens::<TestCustomTokens>("compileOnly"@)),
        keyword,
        named,
    )
    &&& is_pass(named, delimited_ranges(named, Token::Char('('), Token::Char(')')), group, grouped)
    &&& marker matches Token::Custom(TestCustomTokens::Group(_))
    &&& is_pass(
        grouped,
        delimited_ranges(grouped, Token::Custom(TestCustomTokens::CompileOnly), marker),
        compound,
        after,
    )
}

/// Recognises the dependencies in a sequence of character tokens.
pub fn collapse_dependencies(builder: &mut TokenBuilder<TestCustomTokens>)
    ensures
        exists|
            quoted: Seq<Token<TestCustomTokens>>,
            named: Seq<Token<TestCustomTokens>>,
            grouped: Seq<Token<TestCustomTokens>>,
            marker: Token<TestCustomTokens>,
        |
            collapses_to(
                old(builder).tokens@,
                quoted,
                named,
                grouped,
                marker,
                final(builder).tokens@,
            ),
{
    let ghost before = builder.tokens@;
    let range = builder.found_range(Token::Char('"'), Token::Char('"'));
    proof {
        assert forall|k: int|
            0 <= k < range@.len() && range_applies(
                #[trigger] range@[k],
                before.len(),
            ) implies texts(covered(before, range@[k])).len() >= 2 by {
            assert(is_delimited(before, Token::Char('"'), Token::Char('"'), range@[k]));
            lemma_texts_len_ends(covered(before, range@[k]));
        }
    }
    builder.replace(range.as_slice(), string_literal);
    let ghost quoted = builder.tokens@;

    proof {
        reveal_strlit("compileOnly");
    }
    let founded = builder.found("compileOnly");
    builder.replace(founded.as_slice(), keyword);
    let ghost named = builder.tokens@;

    let range = builder.found_range(Token::Char('('), Token::Char(')'));
    proof {
        assert forall|k: int|
            0 <= k < range@.len() && range_applies(
                #[trigger] range@[k],
                named.len(),
            ) implies covered(named, range@[k]).len() >= 2 by {
            assert(is_delimited(named, Token::Char('('), Token::Char(')'), range@[k]));
        }
    }
    builder.replace(range.as_slice(), group);
    let ghost grouped = builder.tokens@;

    let marker = Token::Custom(TestCustomTokens::Group(TokenArgs::new()));
    let ghost shape = marker;
    let range = builder.found_range(Token::Custom(TestCustomTokens::CompileOnly), marker);
    builder.replace(range.as_slice(), compound);
    proof {
        assert(collapses_to(before, quoted, named, grouped, shape, builder.tokens@));
    }
}

} // verus!
