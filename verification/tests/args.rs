use stacktoken::args::TokenArgs;
use stacktoken::custom::TestCustomTokens;
use stacktoken::token::Token;

type Tok = Token<TestCustomTokens>;

fn chars(text: &str) -> Vec<Tok> {
    text.chars().map(Token::Char).collect()
}

#[test]
fn new_args_are_empty() {
    let args: TokenArgs<TestCustomTokens> = TokenArgs::new();
    assert_eq!(args.tokens.len(), 0);
}

#[test]
fn from_list_keeps_the_order() {
    let args = TokenArgs::from_list(chars("abc"));
    assert_eq!(args.tokens.len(), 3);
    assert!(args.tokens[0] == Tok::Char('a'));
    assert!(args.tokens[1] == Tok::Char('b'));
    assert!(args.tokens[2] == Tok::Char('c'));
}

#[test]
fn index_reads_a_token() {
    let args = TokenArgs::from_list(vec![Tok::Char('a'), Tok::IntLit(4), Tok::EOF]);
    assert!(args[0] == Tok::Char('a'));
    assert!(args[1] == Tok::IntLit(4));
    assert!(args[2] == Tok::EOF);
}

#[test]
fn remove_backs_drops_both_ends() {
    let mut args = TokenArgs::from_list(chars("(ab)"));
    args.remove_backs();
    assert_eq!(args.tokens.len(), 2);
    assert!(args.tokens[0] == Tok::Char('a'));
    assert!(args.tokens[1] == Tok::Char('b'));
}

#[test]
fn remove_backs_of_two_tokens_leaves_nothing() {
    let mut args = TokenArgs::from_list(chars("()"));
    args.remove_backs();
    assert_eq!(args.tokens.len(), 0);
}

#[test]
fn concat_text_joins_the_texts() {
    let args = TokenArgs::from_list(vec![
        Tok::Char('a'),
        Tok::StrLit("bc".to_string()),
        Tok::IntLit(-1),
        Tok::Empty,
        Tok::NewLine,
        Tok::EOF,
    ]);
    assert_eq!(args.concat_text(), "abc-1\n<eof>");
    let none: TokenArgs<TestCustomTokens> = TokenArgs::new();
    assert_eq!(none.concat_text(), "");
}

#[test]
fn scan_string_strips_the_quotes() {
    let args = TokenArgs::from_list(chars("\"g:a:1.0\""));
    assert_eq!(args.scan_string(), "g:a:1.0");
}

#[test]
fn scan_string_of_two_characters_is_empty() {
    let args = TokenArgs::from_list(chars("\"\""));
    assert_eq!(args.scan_string(), "");
}

#[test]
fn scan_string_strips_one_character_at_each_end() {
    let args = TokenArgs::from_list(vec![
        Tok::StrLit("ab".to_string()),
        Tok::Char('c'),
        Tok::StrLit("de".to_string()),
    ]);
    assert_eq!(args.scan_string(), "bcd");
    let wide = TokenArgs::from_list(chars("éxé"));
    assert_eq!(wide.scan_string(), "x");
}

#[test]
fn lists_compare_token_by_token() {
    let left = TokenArgs::from_list(chars("ab"));
    let right = TokenArgs::from_list(chars("ab"));
    let other = TokenArgs::from_list(chars("ac"));
    let longer = TokenArgs::from_list(chars("abc"));
    assert!(left == right);
    assert!(left != other);
    assert!(left != longer);
    let strings = TokenArgs::from_list(vec![Tok::String("x".to_string())]);
    let others = TokenArgs::from_list(vec![Tok::String("y".to_string())]);
    assert!(strings == others);
    let copy = left.clone();
    assert!(copy == left);
}
