use stacktoken::args::TokenArgs;
use stacktoken::builder::TokenBuilder;
use stacktoken::custom::TestCustomTokens;
use stacktoken::pattern::push_chars;
use stacktoken::token::Token;

type Tok = Token<TestCustomTokens>;

fn builder_of(text: &str) -> TokenBuilder<TestCustomTokens> {
    let mut tkb: TokenBuilder<TestCustomTokens> = TokenBuilder::new();
    push_chars(&mut tkb.tokens, text);
    tkb
}

fn text_of(tkb: &TokenBuilder<TestCustomTokens>) -> String {
    tkb.tokens.iter().map(|token| token.to_text()).collect()
}

fn literal(list: TokenArgs<TestCustomTokens>) -> Tok {
    Token::StrLit(list.concat_text())
}

fn bracketed(list: TokenArgs<TestCustomTokens>) -> Tok {
    let mut text = String::from("[");
    text.push_str(&list.concat_text());
    text.push(']');
    Token::StrLit(text)
}

fn counted(list: TokenArgs<TestCustomTokens>) -> Tok {
    Token::IntLit(list.tokens.len() as i32)
}

#[test]
fn replace_puts_one_token_in_place_of_a_range() {
    let mut tkb = builder_of("abcdefg");
    tkb.replace(&[(2, 4)], bracketed);
    assert_eq!(tkb.tokens.len(), 5);
    assert!(tkb.tokens[0] == Tok::Char('a'));
    assert!(tkb.tokens[1] == Tok::Char('b'));
    assert!(tkb.tokens[2] == Tok::StrLit("[cde]".to_string()));
    assert!(tkb.tokens[3] == Tok::Char('f'));
    assert!(tkb.tokens[4] == Tok::Char('g'));
}

#[test]
fn replace_corrects_later_ranges_for_earlier_ones() {
    let mut tkb = builder_of("abcdefgh");
    tkb.replace(&[(1, 2), (4, 6)], bracketed);
    assert_eq!(text_of(&tkb), "a[bc]d[efg]h");
    assert_eq!(tkb.tokens.len(), 5);
}

#[test]
fn replace_hands_the_reducer_exactly_the_tokens_of_the_range() {
    let mut tkb = builder_of("0123456789");
    tkb.replace(&[(0, 0), (3, 5), (7, 8)], counted);
    assert_eq!(tkb.tokens.len(), 7);
    assert!(tkb.tokens[0] == Tok::IntLit(1));
    assert!(tkb.tokens[1] == Tok::Char('1'));
    assert!(tkb.tokens[2] == Tok::Char('2'));
    assert!(tkb.tokens[3] == Tok::IntLit(3));
    assert!(tkb.tokens[4] == Tok::Char('6'));
    assert!(tkb.tokens[5] == Tok::IntLit(2));
    assert!(tkb.tokens[6] == Tok::Char('9'));
}

#[test]
fn replace_of_a_single_token_keeps_the_length() {
    let mut tkb = builder_of("abc");
    tkb.replace(&[(1, 1)], bracketed);
    assert_eq!(tkb.tokens.len(), 3);
    assert_eq!(text_of(&tkb), "a[b]c");
}

#[test]
fn replace_without_ranges_changes_nothing() {
    let mut tkb = builder_of("abc");
    tkb.replace(&[], bracketed);
    assert_eq!(text_of(&tkb), "abc");
    assert_eq!(tkb.tokens.len(), 3);
}

#[test]
fn replace_skips_a_range_that_ends_behind_the_sequence() {
    let mut tkb = builder_of("abcde");
    tkb.replace(&[(3, 5)], bracketed);
    assert_eq!(text_of(&tkb), "abcde");
    tkb.replace(&[(0, 1), (3, 9)], bracketed);
    assert_eq!(text_of(&tkb), "[ab]cde");
    tkb.replace(&[(7, 8)], bracketed);
    assert_eq!(text_of(&tkb), "[ab]cde");
}

#[test]
fn replace_applies_a_range_that_ends_at_the_last_token() {
    let mut tkb = builder_of("abcde");
    tkb.replace(&[(3, 4)], bracketed);
    assert_eq!(text_of(&tkb), "abc[de]");
    assert_eq!(tkb.tokens.len(), 4);
    let mut whole = builder_of("abc");
    whole.replace(&[(0, 2)], bracketed);
    assert_eq!(whole.tokens.len(), 1);
    assert!(whole.tokens[0] == Tok::StrLit("[abc]".to_string()));
}

#[test]
fn replace_on_an_empty_sequence_skips_every_range() {
    let mut tkb = builder_of("");
    tkb.replace(&[(0, 0), (2, 3)], bracketed);
    assert_eq!(tkb.tokens.len(), 0);
}

#[test]
fn replace_shrinks_by_the_width_of_each_applied_range() {
    let mut tkb = builder_of("0123456789abcdef");
    let before = tkb.tokens.len();
    let ranges = [(1, 1), (3, 6), (8, 9), (12, 15), (20, 30)];
    tkb.replace(&ranges, counted);
    let removed: usize = ranges
        .iter()
        .filter(|range| range.1 < before)
        .map(|range| range.1 - range.0)
        .sum();
    assert_eq!(removed, 0 + 3 + 1 + 3);
    assert_eq!(tkb.tokens.len(), before - removed);
    assert_eq!(tkb.tokens.len(), 9);
}

#[test]
fn replace_with_the_joined_text_keeps_the_rendered_text() {
    let mut tkb = builder_of("say \"hello\" to \"them\" now");
    let before = text_of(&tkb);
    let ranges = tkb.found_range(Token::Char('"'), Token::Char('"'));
    assert_eq!(ranges, vec![(4, 10), (15, 20)]);
    tkb.replace(ranges.as_slice(), literal);
    assert_eq!(tkb.tokens.len(), 25 - 6 - 5);
    assert!(tkb.tokens[4] == Tok::StrLit("\"hello\"".to_string()));
    assert_eq!(text_of(&tkb), before);
}

#[test]
fn a_joined_literal_expands_to_the_tokens_it_stands_for() {
    let mut tkb = builder_of("ab(cd)e");
    let ranges = tkb.found_range(Token::Char('('), Token::Char(')'));
    tkb.replace(ranges.as_slice(), literal);
    assert_eq!(tkb.tokens.len(), 4);
    let text = tkb.tokens[2].to_text();
    assert_eq!(text, "(cd)");
    let expanded = builder_of(&text);
    assert_eq!(text_of(&expanded), "(cd)");
    assert_eq!(expanded.tokens.len(), 4);
    let original = builder_of("ab(cd)e");
    for (offset, token) in expanded.tokens.iter().enumerate() {
        assert!(*token == original.tokens[2 + offset]);
    }
}

#[test]
fn replace_takes_the_ranges_that_a_search_found() {
    let mut tkb = builder_of("let x = let y");
    let founded = tkb.found("let");
    tkb.replace(founded.as_slice(), |_| Token::Custom(TestCustomTokens::CompileOnly));
    assert_eq!(tkb.tokens.len(), 13 - 4);
    assert!(tkb.tokens[0] == Tok::Custom(TestCustomTokens::CompileOnly));
    assert!(tkb.tokens[1] == Tok::Char(' '));
    assert!(tkb.tokens[6] == Tok::Custom(TestCustomTokens::CompileOnly));
}

#[test]
fn replace_calls_the_reducer_once_for_each_applied_range_in_order() {
    let calls = std::cell::RefCell::new(Vec::new());
    let mut tkb = builder_of("abcdef");
    tkb.replace(&[(0, 1), (3, 4), (9, 9)], |list| {
        calls.borrow_mut().push(list.concat_text());
        Token::Empty
    });
    assert_eq!(*calls.borrow(), vec!["ab".to_string(), "de".to_string()]);
    assert_eq!(tkb.tokens.len(), 4);
}
