//! The token model: a closed set of primitive kinds and one open kind whose
//! payload the caller defines.
use crate::text::debug_quote;
use crate::text::debug_quoted;
use crate::text::decimal_text;
use crate::text::int_to_text;
use crate::text::push_char;
use std::fmt::Debug;
use vstd::prelude::*;
use vstd::std_specs::cmp::PartialEqSpec;
use vstd::std_specs::cmp::PartialEqSpecImpl;
use vstd::string::StringExecFns;

verus! {

/// A caller-defined payload for [`Token::Custom`].
///
/// The payload brings its own `==`, which the searches use as it is: the
/// relation may ignore fields, and it need not be reflexive. It also says
/// how it is shown as text.
pub trait TokenHolder: Clone + Debug + PartialEq {
    /// The text that stands for this payload.
    spec fn text_spec(&self) -> Seq<char>;

    /// Renders the payload as text.
    fn to_text(&self) -> (text: String)
        ensures
            text@ == self.text_spec(),
    ;

    /// `==` on the payload computes `eq_spec`.
    proof fn eq_is_specified()
        ensures
            Self::obeys_eq_spec(),
    ;
}

/// One item of a token sequence.
#[derive(Debug, Clone)]
pub enum Token<T> {
    /// The empty marker.
    Empty,
    /// A single character.
    Char(char),
    /// A string literal, by its content.
    StrLit(String),
    /// A string whose content plays no part in comparisons.
    String(String),
    /// An integer literal.
    IntLit(i32),
    /// The end of the input.
    EOF,
    /// A line break.
    NewLine,
    /// A caller-defined payload.
    Custom(T),
}

/// What `==` means on tokens. It stands in front of `eq`, which is proved
/// against it.
impl<T: TokenHolder> PartialEqSpecImpl for Token<T> {
    open spec fn obeys_eq_spec() -> bool {
        true
    }

    /// Primitive kinds compare by value, except that any two `String`
    /// tokens are equal; custom payloads compare by their own relation;
    /// tokens of different kinds are never equal.
    open spec fn eq_spec(&self, other: &Self) -> bool {
        match (*self, *other) {
            (Token::Empty, Token::Empty) => true,
            (Token::Char(a), Token::Char(b)) => a == b,
            (Token::StrLit(a), Token::StrLit(b)) => a@ == b@,
            (Token::IntLit(a), Token::IntLit(b)) => a == b,
            (Token::EOF, Token::EOF) => true,
            (Token::NewLine, Token::NewLine) => true,
            (Token::Custom(a), Token::Custom(b)) => a.eq_spec(&b),
            (Token::String(_), Token::String(_)) => true,
            _ => false,
        }
    }
}

impl<T: TokenHolder> PartialEq for Token<T> {
    fn eq(&self, other: &Self) -> (r: bool) {
        proof {
            T::eq_is_specified();
        }
        match (self, other) {
            (Token::Empty, Token::Empty) => true,
            (Token::Char(a), Token::Char(b)) => *a == *b,
            (Token::StrLit(a), Token::StrLit(b)) => *a == *b,
            (Token::IntLit(a), Token::IntLit(b)) => *a == *b,
            (Token::EOF, Token::EOF) => true,
            (Token::NewLine, Token::NewLine) => true,
            (Token::Custom(a), Token::Custom(b)) => *a == *b,
            (Token::String(_), Token::String(_)) => true,
            _ => false,
        }
    }
}

impl<T: TokenHolder> Token<T> {
    /// The text that stands for the token.
    pub open spec fn text_spec(&self) -> Seq<char> {
        match *self {
            Token::Empty => Seq::empty(),
            Token::Char(c) => seq![c],
            Token::StrLit(a) => a@,
            Token::IntLit(i) => decimal_text(i as int),
            Token::EOF => seq!['<', 'e', 'o', 'f', '>'],
            Token::NewLine => seq!['\n'],
            Token::Custom(o) => o.text_spec(),
            Token::String(a) => debug_quoted(a@),
        }
    }

    /// Renders the token as text: a character as itself, a literal by its
    /// content, an integer in decimal, a custom payload as the payload
    /// says, a `String` token between double quotes.
    pub fn to_text(&self) -> (text: String)
        ensures
            text@ == self.text_spec(),
    {
        match self {
            Token::Empty => String::new(),
            Token::Char(c) => {
                let mut text = String::new();
                push_char(&mut text, *c);
                assert(text@ =~= seq![*c]);
                text
            },
            Token::StrLit(a) => a.clone(),
            Token::IntLit(i) => int_to_text(*i),
            Token::EOF => {
                proof {
                    reveal_strlit("<eof>");
                }
                let text = String::from_str("<eof>");
                assert(text@ =~= seq!['<', 'e', 'o', 'f', '>']);
                text
            },
            Token::NewLine => {
                proof {
                    reveal_strlit("\n");
                }
                let text = String::from_str("\n");
                assert(text@ =~= seq!['\n']);
                text
            },
            Token::Custom(o) => o.to_text(),
            Token::String(a) => debug_quote(a.as_str()),
        }
    }
}

} // verus!
