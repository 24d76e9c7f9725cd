use stacktoken::args::TokenArgs;
use stacktoken::custom::TestCustomTokens;
use stacktoken::token::Token;
use stacktoken::token::TokenHolder;

type Tok = Token<TestCustomTokens>;

fn compound(group: &str, artifact: &str, version: &str) -> TestCustomTokens {
    TestCustomTokens::CompileOnlyCompound(
        group.to_string(),
        artifact.to_string(),
        version.to_string(),
    )
}

fn group_of(tokens: Vec<Tok>) -> TestCustomTokens {
    TestCustomTokens::Group(TokenArgs::from_list(tokens))
}

#[test]
fn primitive_tokens_compare_by_value() {
    assert!(Tok::Empty == Tok::Empty);
    assert!(Tok::EOF == Tok::EOF);
    assert!(Tok::NewLine == Tok::NewLine);
    assert!(Tok::Char('a') == Tok::Char('a'));
    assert!(Tok::Char('a') != Tok::Char('b'));
    assert!(Tok::IntLit(7) == Tok::IntLit(7));
    assert!(Tok::IntLit(7) != Tok::IntLit(-7));
    assert!(Tok::StrLit("x".to_string()) == Tok::StrLit("x".to_string()));
    assert!(Tok::StrLit("x".to_string()) != Tok::StrLit("y".to_string()));
}

#[test]
fn tokens_of_different_kinds_are_unequal() {
    assert!(Tok::Empty != Tok::EOF);
    assert!(Tok::Char('1') != Tok::IntLit(1));
    assert!(Tok::StrLit("a".to_string()) != Tok::String("a".to_string()));
    assert!(Tok::StrLit("a".to_string()) != Tok::Char('a'));
    assert!(Tok::NewLine != Tok::Char('\n'));
    assert!(Tok::Custom(TestCustomTokens::StartParen) != Tok::Char('('));
}

#[test]
fn string_tokens_are_equal_whatever_they_hold() {
    assert!(Tok::String("a".to_string()) == Tok::String("b".to_string()));
    assert!(Tok::String(String::new()) == Tok::String("anything".to_string()));
}

#[test]
fn markers_equal_themselves_only() {
    assert!(TestCustomTokens::StartParen == TestCustomTokens::StartParen);
    assert!(TestCustomTokens::EndParen == TestCustomTokens::EndParen);
    assert!(TestCustomTokens::CompileOnly == TestCustomTokens::CompileOnly);
    assert!(TestCustomTokens::FailedCompound == TestCustomTokens::FailedCompound);
    assert!(TestCustomTokens::StartParen != TestCustomTokens::EndParen);
    assert!(TestCustomTokens::CompileOnly != TestCustomTokens::FailedCompound);
    assert!(TestCustomTokens::FailedCompound != compound("g", "a", "1"));
}

#[test]
fn groups_are_equal_by_shape() {
    let empty = group_of(Vec::new());
    let full = group_of(vec![Tok::Char('x'), Tok::IntLit(3)]);
    assert!(empty == full);
    assert!(full == empty);
    assert!(empty != TestCustomTokens::StartParen);
    assert!(TestCustomTokens::StartParen != full);
    assert!(Tok::Custom(group_of(vec![Tok::EOF])) == Tok::Custom(group_of(Vec::new())));
}

#[test]
fn a_finished_record_equals_nothing_not_even_itself() {
    let record = compound("g", "a", "1.0");
    let same = compound("g", "a", "1.0");
    assert!(!(record == same));
    assert!(record != same);
    assert!(!(TestCustomTokens::CompileOnly == compound("g", "a", "1.0")));
    assert!(!(Tok::Custom(compound("g", "a", "1.0")) == Tok::Custom(compound("g", "a", "1.0"))));
}

#[test]
fn custom_tokens_compare_by_their_payload() {
    assert!(
        Tok::Custom(TestCustomTokens::CompileOnly) == Tok::Custom(TestCustomTokens::CompileOnly)
    );
    assert!(
        Tok::Custom(TestCustomTokens::CompileOnly) != Tok::Custom(TestCustomTokens::StartParen)
    );
}

#[test]
fn text_of_primitive_tokens() {
    assert_eq!(Tok::Empty.to_text(), "");
    assert_eq!(Tok::Char('q').to_text(), "q");
    assert_eq!(Tok::Char('é').to_text(), "é");
    assert_eq!(Tok::StrLit("g:a:1.0".to_string()).to_text(), "g:a:1.0");
    assert_eq!(Tok::EOF.to_text(), "<eof>");
    assert_eq!(Tok::NewLine.to_text(), "\n");
}

#[test]
fn text_of_integer_literals() {
    assert_eq!(Tok::IntLit(0).to_text(), "0");
    assert_eq!(Tok::IntLit(7).to_text(), "7");
    assert_eq!(Tok::IntLit(10).to_text(), "10");
    assert_eq!(Tok::IntLit(1005).to_text(), "1005");
    assert_eq!(Tok::IntLit(-42).to_text(), "-42");
    assert_eq!(Tok::IntLit(i32::MAX).to_text(), "2147483647");
    assert_eq!(Tok::IntLit(i32::MIN).to_text(), "-2147483648");
}

#[test]
fn text_of_a_string_token_is_quoted() {
    assert_eq!(Tok::String("abc".to_string()).to_text(), "\"abc\"");
    assert_eq!(Tok::String("a\"b\n".to_string()).to_text(), "\"a\\\"b\\n\"");
    assert_eq!(Tok::String(String::new()).to_text(), "\"\"");
}

#[test]
fn text_of_markers_is_their_name() {
    assert_eq!(TestCustomTokens::StartParen.to_text(), "StartParen");
    assert_eq!(TestCustomTokens::EndParen.to_text(), "EndParen");
    assert_eq!(TestCustomTokens::CompileOnly.to_text(), "CompileOnly");
    assert_eq!(TestCustomTokens::FailedCompound.to_text(), "FailedCompound");
    assert_eq!(
        Tok::Custom(TestCustomTokens::CompileOnly).to_text(),
        "CompileOnly"
    );
}

#[test]
fn text_of_a_record_lists_its_fields() {
    assert_eq!(
        compound("g", "a", "1.0").to_text(),
        "CompileOnlyCompound(\"g\", \"a\", \"1.0\")"
    );
    assert_eq!(
        compound("q\"x", "", "\t").to_text(),
        "CompileOnlyCompound(\"q\\\"x\", \"\", \"\\t\")"
    );
}

#[test]
fn text_of_a_group_lists_its_tokens() {
    assert_eq!(
        group_of(Vec::new()).to_text(),
        "Group(TokenArgs { tokens: [] })"
    );
    assert_eq!(
        group_of(vec![Tok::Char('a')]).to_text(),
        "Group(TokenArgs { tokens: [Char('a')] })"
    );
    let nested = group_of(vec![
        Tok::Empty,
        Tok::Char('\n'),
        Tok::Char('\''),
        Tok::StrLit("g:a".to_string()),
        Tok::String("s".to_string()),
        Tok::IntLit(-3),
        Tok::EOF,
        Tok::NewLine,
        Tok::Custom(group_of(vec![Tok::Custom(TestCustomTokens::StartParen)])),
        Tok::Custom(compound("g", "a", "1")),
    ]);
    assert_eq!(
        nested.to_text(),
        "Group(TokenArgs { tokens: [Empty, Char('\\n'), Char('\\''), StrLit(\"g:a\"), \
         String(\"s\"), IntLit(-3), EOF, NewLine, \
         Custom(Group(TokenArgs { tokens: [Custom(StartParen)] })), \
         Custom(CompileOnlyCompound(\"g\", \"a\", \"1\"))] })"
    );
}

#[test]
fn text_of_a_payload_reads_like_its_debug_form() {
    let payloads = vec![
        TestCustomTokens::StartParen,
        TestCustomTokens::EndParen,
        TestCustomTokens::CompileOnly,
        TestCustomTokens::FailedCompound,
        compound("group", "artifact", "1.2.3"),
        group_of(vec![
            Tok::Char('x'),
            Tok::Char('"'),
            Tok::IntLit(12),
            Tok::Custom(group_of(vec![Tok::NewLine, Tok::EOF])),
        ]),
    ];
    for payload in payloads {
        assert_eq!(payload.to_text(), format!("{:?}", payload));
    }
}

#[test]
fn a_cloned_payload_reads_like_the_payload() {
    let payloads = vec![
        TestCustomTokens::StartParen,
        TestCustomTokens::CompileOnly,
        compound("g", "a", "1.0"),
        group_of(vec![
            Tok::Char('x'),
            Tok::StrLit("s".to_string()),
            Tok::Custom(group_of(vec![Tok::IntLit(5), Tok::Custom(compound("a", "b", "c"))])),
        ]),
    ];
    for payload in payloads {
        let copy = payload.clone();
        assert_eq!(copy.to_text(), payload.to_text());
        assert_eq!(format!("{:?}", copy), format!("{:?}", payload));
    }
    let token = Tok::Custom(group_of(vec![Tok::Char('y')]));
    let copy = token.clone();
    assert_eq!(copy.to_text(), token.to_text());
}
