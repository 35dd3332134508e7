use graphql_minify::lexer::next_token;
use graphql_minify::minify;
use graphql_minify::LexingError;
use graphql_minify::Scan;
use graphql_minify::TokenKind;

fn mm(s: &str) -> String {
    minify(s).unwrap()
}

fn tokens_of(s: &str) -> Vec<(TokenKind, String)> {
    let chars: Vec<char> = s.chars().collect();
    let mut pos: usize = 0;
    let mut out: Vec<(TokenKind, String)> = Vec::new();
    loop {
        match next_token(s, pos) {
            Scan::End => break,
            Scan::Fail(e) => panic!("unexpected lexing error: {:?}", e),
            Scan::Tok(t) => {
                let lit: String = chars[t.start..t.end].iter().collect();
                out.push((t.kind, lit));
                pos = t.end;
            }
        }
    }
    out
}

#[test]
fn minify_is_idempotent_on_sample_documents() {
    let docs = [
        "query SomeQuery($foo: String!, $bar: String) {\n  someField(foo: $foo, bar: $bar)\n}",
        "\"\"\"\n  block\n    string\n\"\"\" type T { f: Int }",
        "a ... b ,, 1.5e-3 # comment\n [ ] $v @d \"str\" true",
        "{ nested { x y z } }",
        "\"\"\"triple quotation \"\"\"",
        "",
    ];
    for d in docs {
        let once = mm(d);
        let twice = mm(&once);
        assert_eq!(twice, once);
    }
}

#[test]
fn minify_preserves_token_kinds_and_literals() {
    let docs = [
        "query SomeQuery($foo: String!, $bar: String) {\n  someField(foo: $foo, bar: $bar)\n}",
        "a ... b ,, 1.5e-3 # comment\n [ ] $v @d \"str\" true x",
        "schema { query: Q } enum E { A B }",
    ];
    for d in docs {
        assert_eq!(tokens_of(&mm(d)), tokens_of(d));
    }
}

#[test]
fn adjacent_non_punctuators_keep_exactly_one_space() {
    assert_eq!(mm("a   b"), "a b");
    assert_eq!(mm("1 \t 2"), "1 2");
    assert_eq!(mm("true,false"), "true false");
    assert_eq!(mm("\"x\"  \"y\""), "\"x\" \"y\"");
}

#[test]
fn adjacent_punctuators_are_never_separated() {
    assert_eq!(mm("[ ]"), "[]");
    assert_eq!(mm("{ ( : = ! ? & | ) }"), "{(:=!?&|)}");
    assert_eq!(mm("} {"), "}{");
}

#[test]
fn variable_before_spread_keeps_a_space() {
    assert_eq!(mm("$a ..."), "$a ...");
    assert_eq!(mm("@d ..."), "@d ...");
}

#[test]
fn blank_line_padding_around_block_content_is_invariant() {
    assert_eq!(mm("\"\"\"\na\n\"\"\""), mm("\"\"\"\n\n\na\n\n\n\"\"\""));
    assert_eq!(
        mm("\"\"\"\n  a\n  b\n\"\"\""),
        mm("\"\"\"\n   \n  a\n  b\n \n\"\"\"")
    );
}

#[test]
fn shared_indentation_of_non_first_lines_is_invariant() {
    assert_eq!(mm("\"\"\"\nx\n y\"\"\""), mm("\"\"\"\n  x\n   y\"\"\""));
    assert_eq!(
        mm("\"\"\"first\nx\n y\"\"\""),
        mm("\"\"\"first\n\tx\n\t y\"\"\"")
    );
}

#[test]
fn scenario_literals_from_the_spacing_rules() {
    assert_eq!(mm("\n1"), "1");
    assert_eq!(mm("[,)"), "[)");
    assert_eq!(mm("a ..."), "a ...");
    assert_eq!(mm("1 ... ..."), "1 ......");
    assert_eq!(mm("\"\"\"\n a\n b\"\"\""), "\"\"\"a\nb\"\"\"");
    assert_eq!(mm("{ foo(arg: \"str\""), "{foo(arg:\"str\"");
}

#[test]
fn unterminated_string_reports_byte_offset_of_opening_quote() {
    assert_eq!(
        minify("{ foo(arg: \"\n\""),
        Err(LexingError::UnterminatedString(11))
    );
    // The character before the bad literal takes two bytes, so the byte
    // offset is one more than the character index of the quote.
    assert_eq!(
        minify("\"\u{00e9}\" \"\n\""),
        Err(LexingError::UnterminatedString(5))
    );
}

#[test]
fn unknown_token_on_unmatched_input() {
    assert_eq!(minify("^"), Err(LexingError::UnknownToken));
    assert_eq!(minify(".."), Err(LexingError::UnknownToken));
    assert_eq!(minify("-x"), Err(LexingError::UnknownToken));
    assert_eq!(minify("@1"), Err(LexingError::UnknownToken));
    assert_eq!(minify("\"abc"), Err(LexingError::UnknownToken));
    assert_eq!(minify("\"a\\\nb\""), Err(LexingError::UnknownToken));
}

#[test]
fn number_tokens_follow_longest_match() {
    assert_eq!(tokens_of("1.5"), vec![(TokenKind::FloatLit, "1.5".into())]);
    assert_eq!(
        tokens_of("-1.5e-3"),
        vec![(TokenKind::FloatLit, "-1.5e-3".into())]
    );
    assert_eq!(
        tokens_of("1e5"),
        vec![
            (TokenKind::IntLit, "1".into()),
            (TokenKind::Identifier, "e5".into())
        ]
    );
    assert_eq!(
        tokens_of("1.5e"),
        vec![
            (TokenKind::FloatLit, "1.5".into()),
            (TokenKind::Identifier, "e".into())
        ]
    );
}

#[test]
fn keywords_true_false_scan_as_booleans() {
    assert_eq!(tokens_of("true"), vec![(TokenKind::BoolLit, "true".into())]);
    assert_eq!(
        tokens_of("false"),
        vec![(TokenKind::BoolLit, "false".into())]
    );
    assert_eq!(
        tokens_of("truex"),
        vec![(TokenKind::Identifier, "truex".into())]
    );
    assert_eq!(
        tokens_of("True"),
        vec![(TokenKind::Identifier, "True".into())]
    );
}

#[test]
fn helpers_count_indentation_units() {
    assert!(graphql_minify::block_string::is_gql_whitespace(' '));
    assert!(graphql_minify::block_string::is_gql_whitespace('\t'));
    assert!(!graphql_minify::block_string::is_gql_whitespace('\n'));
    assert_eq!(graphql_minify::block_string::leading_whitespace(" \t x"), 3);
    assert_eq!(graphql_minify::block_string::leading_whitespace("x"), 0);
    assert_eq!(graphql_minify::block_string::leading_whitespace("  "), 2);
}

#[test]
fn after_variable_only_identifier_delimiter_or_spread_gets_a_space() {
    // The lookback table owes a space after a variable or directive only
    // before an identifier, a block-string delimiter or an ellipsis.
    assert_eq!(mm("$a b"), "$a b");
    assert_eq!(mm("@d b"), "@d b");
    assert_eq!(mm("$a \"\"\"x\"\"\""), "$a \"\"\"x\"\"\"");
    assert_eq!(mm("$a 1"), "$a1");
    assert_eq!(mm("$a true"), "$atrue");
    assert_eq!(mm("$a $b"), "$a$b");
    assert_eq!(mm("@d @e"), "@d@e");
}

#[test]
fn comments_run_to_the_end_of_the_line() {
    assert_eq!(mm("a # b c {\nd"), "a d");
    assert_eq!(mm("a #only a comment"), "a");
    assert_eq!(mm("#x\r#y\rz"), "z");
}

#[test]
fn carriage_returns_count_as_ignored_characters() {
    assert_eq!(mm("a\rb"), "a b");
    assert_eq!(mm("a\r\nb"), "a b");
    assert_eq!(mm("\u{000B}\u{000C}a"), "a");
}

#[test]
fn block_string_without_closing_delimiter_consumes_the_rest() {
    assert_eq!(mm("\"\"\"\n  tail"), "\"\"\"tail\"\"\"");
    assert_eq!(mm("\"\"\""), "\"\"\"\"\"\"");
}
