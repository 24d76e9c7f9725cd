use stacktoken::args::TokenArgs;
use stacktoken::builder::TokenBuilder;
use stacktoken::custom::TestCustomTokens;
use stacktoken::pattern::push_chars;
use stacktoken::pattern::Tokens;
use stacktoken::search::ranges_in_order;
use stacktoken::token::Token;

type Tok = Token<TestCustomTokens>;

fn builder_of(text: &str) -> TokenBuilder<TestCustomTokens> {
    let mut tkb: TokenBuilder<TestCustomTokens> = TokenBuilder::new();
    push_chars(&mut tkb.tokens, text);
    tkb
}

#[test]
fn new_builder_is_empty() {
    let tkb: TokenBuilder<TestCustomTokens> = TokenBuilder::new();
    assert_eq!(tkb.tokens.len(), 0);
    let other: TokenBuilder<TestCustomTokens> = TokenBuilder::default();
    assert_eq!(other.tokens.len(), 0);
}

#[test]
fn push_custom_appends_a_custom_token() {
    let mut tkb = builder_of("a");
    tkb.push_custom(TestCustomTokens::StartParen);
    assert_eq!(tkb.tokens.len(), 2);
    assert!(tkb.tokens[1] == Tok::Custom(TestCustomTokens::StartParen));
}

#[test]
fn from_string_appends_characters_and_a_line_break() {
    let mut tkb: TokenBuilder<TestCustomTokens> = TokenBuilder::new();
    tkb.from_string("ab");
    assert_eq!(tkb.tokens.len(), 3);
    assert!(tkb.tokens[0] == Tok::Char('a'));
    assert!(tkb.tokens[1] == Tok::Char('b'));
    assert!(tkb.tokens[2] == Tok::NewLine);
    tkb.from_string("");
    assert_eq!(tkb.tokens.len(), 4);
    assert!(tkb.tokens[3] == Tok::NewLine);
}

#[test]
fn from_lines_ends_each_line_and_the_input() {
    let mut tkb: TokenBuilder<TestCustomTokens> = TokenBuilder::new();
    tkb.from_lines(&vec!["ab".to_string(), String::new(), "c".to_string()]);
    let expected = vec![
        Tok::Char('a'),
        Tok::Char('b'),
        Tok::NewLine,
        Tok::NewLine,
        Tok::Char('c'),
        Tok::NewLine,
        Tok::EOF,
    ];
    assert_eq!(tkb.tokens.len(), expected.len());
    for (have, want) in tkb.tokens.iter().zip(expected.iter()) {
        assert!(have == want);
    }
}

#[test]
fn from_lines_without_lines_gives_the_end_marker() {
    let mut tkb: TokenBuilder<TestCustomTokens> = TokenBuilder::new();
    tkb.from_lines(&Vec::new());
    assert_eq!(tkb.tokens.len(), 1);
    assert!(tkb.tokens[0] == Tok::EOF);
}

#[test]
fn patterns_convert_to_tokens() {
    let from_str: Vec<Tok> = "ab".convert_to_tokens();
    assert_eq!(from_str.len(), 2);
    assert!(from_str[0] == Tok::Char('a'));
    assert!(from_str[1] == Tok::Char('b'));
    let from_string: Vec<Tok> = "é".to_string().convert_to_tokens();
    assert_eq!(from_string.len(), 1);
    assert!(from_string[0] == Tok::Char('é'));
    let from_array: Vec<Tok> = [Tok::IntLit(1), Tok::EOF, Tok::Char('x')].convert_to_tokens();
    assert_eq!(from_array.len(), 3);
    assert!(from_array[0] == Tok::IntLit(1));
    assert!(from_array[1] == Tok::EOF);
    assert!(from_array[2] == Tok::Char('x'));
}

#[test]
fn found_reports_each_occurrence() {
    let tkb = builder_of("abcab");
    assert_eq!(tkb.found("ab"), vec![(0, 1), (3, 4)]);
    assert_eq!(tkb.found("abcab"), vec![(0, 4)]);
    assert_eq!(tkb.found("c"), vec![(2, 2)]);
    assert_eq!(tkb.found("b".to_string()), vec![(1, 1), (4, 4)]);
}

#[test]
fn found_reports_nothing_where_nothing_matches() {
    let tkb = builder_of("abc");
    assert_eq!(tkb.found("x"), vec![]);
    assert_eq!(tkb.found("abcd"), vec![]);
    assert_eq!(tkb.found("bd"), vec![]);
    let empty = builder_of("");
    assert_eq!(empty.found("a"), vec![]);
}

#[test]
fn found_does_not_report_overlapping_occurrences() {
    let tkb = builder_of("aaaa");
    assert_eq!(tkb.found("aa"), vec![(0, 1), (2, 3)]);
    let odd = builder_of("aaaaa");
    assert_eq!(odd.found("aa"), vec![(0, 1), (2, 3)]);
    assert_eq!(odd.found("a"), vec![(0, 0), (1, 1), (2, 2), (3, 3), (4, 4)]);
}

#[test]
fn found_tries_the_failing_token_as_a_new_start() {
    let tkb = builder_of("aab");
    assert_eq!(tkb.found("ab"), vec![(1, 2)]);
    let longer = builder_of("xabab");
    assert_eq!(longer.found("abc"), vec![]);
    let restart = builder_of("ababc");
    assert_eq!(restart.found("abc"), vec![(2, 4)]);
}

#[test]
fn found_does_not_go_back_into_a_failed_candidate() {
    let tkb = builder_of("aaab");
    assert_eq!(tkb.found("aab"), vec![]);
    let other = builder_of("aabaab");
    assert_eq!(other.found("aab"), vec![(0, 2), (3, 5)]);
}

#[test]
fn found_matches_at_the_end_of_the_sequence() {
    let tkb = builder_of("xxab");
    assert_eq!(tkb.found("ab"), vec![(2, 3)]);
    let cut = builder_of("xxa");
    assert_eq!(cut.found("ab"), vec![]);
}

#[test]
fn found_takes_an_explicit_token_list() {
    let mut tkb: TokenBuilder<TestCustomTokens> = TokenBuilder::new();
    tkb.from_string("ab");
    tkb.from_string("ab");
    assert_eq!(tkb.found([Tok::Char('b'), Tok::NewLine]), vec![(1, 2), (4, 5)]);
    assert_eq!(tkb.found([Tok::NewLine]), vec![(2, 2), (5, 5)]);
}

#[test]
fn found_matches_custom_tokens_by_their_relation() {
    let mut tkb: TokenBuilder<TestCustomTokens> = TokenBuilder::new();
    tkb.push_custom(TestCustomTokens::CompileOnly);
    tkb.push_custom(TestCustomTokens::Group(TokenArgs::from_list(vec![Tok::Char('x')])));
    tkb.push_custom(TestCustomTokens::CompileOnlyCompound(
        "g".to_string(),
        "a".to_string(),
        "1".to_string(),
    ));
    let shape = Tok::Custom(TestCustomTokens::Group(TokenArgs::new()));
    assert_eq!(
        tkb.found([Tok::Custom(TestCustomTokens::CompileOnly), shape]),
        vec![(0, 1)]
    );
    let record = Tok::Custom(TestCustomTokens::CompileOnlyCompound(
        "g".to_string(),
        "a".to_string(),
        "1".to_string(),
    ));
    assert_eq!(tkb.found([record]), vec![]);
}

#[test]
fn found_ranges_cover_the_pattern_and_do_not_overlap() {
    let text = "abababxabab ab";
    let pattern = "abab";
    let tkb = builder_of(text);
    let ranges = tkb.found(pattern);
    assert_eq!(ranges, vec![(0, 3), (7, 10)]);
    let wanted: Vec<Tok> = pattern.convert_to_tokens();
    let mut last_end: Option<usize> = None;
    for (start, end) in ranges {
        assert_eq!(end + 1 - start, wanted.len());
        for (offset, token) in wanted.iter().enumerate() {
            assert!(*token == tkb.tokens[start + offset]);
        }
        if let Some(before) = last_end {
            assert!(before < start);
        }
        last_end = Some(end);
    }
}

#[test]
fn found_twice_gives_the_same_ranges() {
    let tkb = builder_of("compileOnly compileOnly compile");
    let first = tkb.found("compileOnly");
    let second = tkb.found("compileOnly");
    assert_eq!(first, vec![(0, 10), (12, 22)]);
    assert_eq!(first, second);
}

#[test]
fn found_range_pairs_quotes() {
    let tkb = builder_of("a\"bc\"d\"e\"");
    assert_eq!(
        tkb.found_range(Token::Char('"'), Token::Char('"')),
        vec![(1, 4), (6, 8)]
    );
}

#[test]
fn found_range_pairs_brackets() {
    let tkb = builder_of("f(x) g() (y");
    assert_eq!(
        tkb.found_range(Token::Char('('), Token::Char(')')),
        vec![(1, 3), (6, 7)]
    );
}

#[test]
fn found_range_leaves_an_unclosed_start_out() {
    let tkb = builder_of("a(b");
    assert_eq!(tkb.found_range(Token::Char('('), Token::Char(')')), vec![]);
    let odd = builder_of("\"a\"\"");
    assert_eq!(
        odd.found_range(Token::Char('"'), Token::Char('"')),
        vec![(0, 2)]
    );
    let empty = builder_of("");
    assert_eq!(empty.found_range(Token::Char('('), Token::Char(')')), vec![]);
}

#[test]
fn found_range_does_not_nest() {
    let tkb = builder_of("((a)b)");
    assert_eq!(
        tkb.found_range(Token::Char('('), Token::Char(')')),
        vec![(0, 3)]
    );
    let again = builder_of("(a(b)c)(d)");
    assert_eq!(
        again.found_range(Token::Char('('), Token::Char(')')),
        vec![(0, 4), (7, 9)]
    );
}

#[test]
fn found_range_ignores_a_closing_token_outside_a_range() {
    let tkb = builder_of(")a(b)");
    assert_eq!(
        tkb.found_range(Token::Char('('), Token::Char(')')),
        vec![(2, 4)]
    );
}

#[test]
fn found_range_ends_are_the_delimiters_and_ranges_are_ascending() {
    let tkb = builder_of("x[a]y[[b]]z[c");
    let open = Tok::Char('[');
    let close = Tok::Char(']');
    let ranges = tkb.found_range(Tok::Char('['), Tok::Char(']'));
    assert_eq!(ranges, vec![(1, 3), (5, 8)]);
    let mut last_end: Option<usize> = None;
    for (start, end) in ranges {
        assert!(tkb.tokens[start] == open);
        assert!(tkb.tokens[end] == close);
        assert!(start < end);
        if let Some(before) = last_end {
            assert!(before < start);
        }
        last_end = Some(end);
    }
}

#[test]
fn found_range_matches_a_group_by_shape() {
    let mut tkb: TokenBuilder<TestCustomTokens> = TokenBuilder::new();
    tkb.push_custom(TestCustomTokens::CompileOnly);
    tkb.tokens.push(Tok::Char(' '));
    tkb.push_custom(TestCustomTokens::Group(TokenArgs::from_list(vec![Tok::IntLit(1)])));
    tkb.push_custom(TestCustomTokens::CompileOnly);
    let ranges = tkb.found_range(
        Tok::Custom(TestCustomTokens::CompileOnly),
        Tok::Custom(TestCustomTokens::Group(TokenArgs::new())),
    );
    assert_eq!(ranges, vec![(0, 2)]);
}

#[test]
fn ranges_in_order_accepts_ascending_ranges_only() {
    assert!(ranges_in_order(&[]));
    assert!(ranges_in_order(&[(3, 3)]));
    assert!(ranges_in_order(&[(0, 1), (2, 2), (5, 9)]));
    assert!(!ranges_in_order(&[(2, 1)]));
    assert!(!ranges_in_order(&[(0, 2), (2, 3)]));
    assert!(!ranges_in_order(&[(4, 5), (0, 1)]));
    assert!(!ranges_in_order(&[(0, 1), (3, 4), (4, 6)]));
    let tkb = builder_of("a(b)(c)");
    assert!(ranges_in_order(&tkb.found_range(Token::Char('('), Token::Char(')'))));
    assert!(ranges_in_order(&tkb.found("(")));
}
