use graphql_minify::block_string::dedent_block_lines_mut;
use graphql_minify::block_string::print_block_string;

fn get_dedented_vec(lines: &[&str]) -> Vec<String> {
    let mut lines = lines.iter().map(|s| s.to_string()).collect::<Vec<_>>();
    dedent_block_lines_mut(&mut lines);
    lines.iter().map(|s| s.to_string()).collect()
}

#[test]
fn does_not_dedent_first_line() {
    assert_eq!(get_dedented_vec(&["  a"]), &["  a"]);
    assert_eq!(get_dedented_vec(&[" a", "  b"]), &[" a", "b"]);
}

#[test]
fn removes_minimal_indentation_length() {
    assert_eq!(get_dedented_vec(&["", " a", "  b"]), &["a", " b"]);
    assert_eq!(get_dedented_vec(&["", "  a", " b"]), &[" a", "b"]);
    assert_eq!(
        get_dedented_vec(&["", "  a", " b", "c"]),
        &["  a", " b", "c"]
    );
}

#[test]
fn dedent_both_tab_and_space_as_single_character() {
    assert_eq!(
        get_dedented_vec(&["", "\ta", "          b"]),
        &["a", "         b"]
    );
    assert_eq!(
        get_dedented_vec(&["", "\t a", "          b"]),
        &["a", "        b"]
    );
    assert_eq!(
        get_dedented_vec(&["", " \t a", "          b"]),
        &["a", "       b"]
    );
}

#[test]
fn dedent_do_not_take_empty_lines_into_account() {
    assert_eq!(get_dedented_vec(&["a", "", " b"]), &["a", "", "b"]);
    assert_eq!(get_dedented_vec(&["a", " ", "  b"]), &["a", "", "b"]);
}

#[test]
fn removes_uniform_indentation_from_a_string() {
    let lines = vec![
        "",
        "    Hello,",
        "      World!",
        "",
        "    Yours,",
        "      GraphQL.",
    ];
    assert_eq!(
        get_dedented_vec(&lines),
        &["Hello,", "  World!", "", "Yours,", "  GraphQL.",]
    );
}

#[test]
fn removes_empty_leading_and_trailing_lines() {
    let lines = vec![
        "",
        "",
        "    Hello,",
        "      World!",
        "",
        "    Yours,",
        "      GraphQL.",
        "",
        "",
    ];
    assert_eq!(
        get_dedented_vec(&lines),
        &["Hello,", "  World!", "", "Yours,", "  GraphQL.",]
    );
}

#[test]
fn removes_blank_leading_and_trailing_lines() {
    let lines = vec![
        "  ",
        "        ",
        "    Hello,",
        "      World!",
        "",
        "    Yours,",
        "      GraphQL.",
        "        ",
        "  ",
    ];
    assert_eq!(
        get_dedented_vec(&lines),
        &["Hello,", "  World!", "", "Yours,", "  GraphQL.",]
    );
}

#[test]
fn retains_indentation_from_first_line() {
    let lines = vec![
        "    Hello,",
        "      World!",
        "",
        "    Yours,",
        "      GraphQL.",
    ];
    assert_eq!(
        get_dedented_vec(&lines),
        &["    Hello,", "  World!", "", "Yours,", "  GraphQL.",]
    );
}

#[test]
fn does_not_alter_trailing_spaces() {
    let lines = vec![
        "               ",
        "    Hello,     ",
        "      World!   ",
        "               ",
        "    Yours,     ",
        "      GraphQL. ",
        "               ",
    ];
    assert_eq!(
        get_dedented_vec(&lines),
        &[
            "Hello,     ",
            "  World!   ",
            "           ",
            "Yours,     ",
            "  GraphQL. ",
        ]
    );
}

#[test]
fn does_not_escape_characters() {
    let str = r#" \ / \b \f \n \r \t"#;
    assert_eq!(print_block_string(str), r#"""" \ / \b \f \n \r \t""""#);
}

#[test]
fn by_default_print_block_strings_as_single_line() {
    let str = r#"one liner"#;
    assert_eq!(print_block_string(str), r#""""one liner""""#);
}

#[test]
fn by_default_print_block_strings_ending_with_triple_quotation_as_multi_line() {
    let str = r#"triple quotation """"#;
    assert_eq!(print_block_string(str), r#""""triple quotation \"""""""#);
}

#[test]
fn correctly_prints_single_line_with_leading_space() {
    let str = "    space-led string";
    assert_eq!(print_block_string(str), r#""""    space-led string""""#);
}

#[test]
fn correctly_prints_single_line_with_leading_space_and_trailing_quotation() {
    let str = "    space-led value \"quoted string\"";
    assert_eq!(
        print_block_string(str),
        r#""""    space-led value "quoted string"
""""#
    );
}

#[test]
fn correctly_prints_single_line_with_trailing_backslash() {
    let str = "backslash \\";
    assert_eq!(
        print_block_string(str),
        r#""""backslash \
""""#
    );
}

#[test]
fn correctly_prints_multi_line_with_internal_indent() {
    let str = "no indent\n with indent";
    assert_eq!(
        print_block_string(str),
        r#""""
no indent
 with indent""""#
    );
}

#[test]
fn correctly_prints_string_with_a_first_line_indentation() {
    let str = ["    first  ", "  line     ", "indentation", "     string"].join("\n");

    assert_eq!(
        print_block_string(&str),
        [
            r#""""    first  "#,
            "  line     ",
            "indentation",
            r#"     string""""#
        ]
        .join("\n")
    );
}
