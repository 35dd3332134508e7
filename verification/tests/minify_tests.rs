use graphql_minify::minify;
use graphql_minify::LexingError;

#[test]
fn strips_ignored_characters_from_graphql_query_document() {
    let query = "query SomeQuery($foo: String!, $bar: String) {\n  someField(foo: $foo, bar: $bar) {\n    a\n    b {\n      c\n      d\n    }\n  }\n}\n";

    let expected =
        "query SomeQuery($foo:String!$bar:String){someField(foo:$foo bar:$bar){a b{c d}}}";

    assert_eq!(minify(query).unwrap(), expected);
}

#[test]
fn strips_ignored_characters_from_graphql_sdl_document() {
    let sdl = "\"\"\"\nType description\n\"\"\"\ntype Foo {\n  \"\"\"\n  Field description\n  \"\"\"\n  bar: String\n}\n";

    let expected = r#""""Type description""" type Foo{"""Field description""" bar:String}"#;

    assert_eq!(minify(sdl).unwrap(), expected);
}

#[test]
fn errs_on_invalid_token() {
    let query = "{ foo(arg: \"\n\"";

    assert!(matches!(
        minify(query),
        Err(LexingError::UnterminatedString(_))
    ));
}

#[test]
fn strips_non_parsable_document() {
    let query = r#"{ foo(arg: "str""#;
    let expected = r#"{foo(arg:"str""#;

    assert_eq!(minify(query).unwrap(), expected);
}

#[test]
fn strips_documents_with_only_ignored_characters() {
    assert_eq!(minify("\n").unwrap(), "");
    assert_eq!(minify(",").unwrap(), "");
    assert_eq!(minify(",,").unwrap(), "");
    assert_eq!(minify("#comment\n, \n").unwrap(), "");
}

#[test]
fn strips_leading_and_trailing_ignored_tokens() {
    assert_eq!(minify("\n1").unwrap(), "1");
    assert_eq!(minify(",1").unwrap(), "1");
    assert_eq!(minify(",,1").unwrap(), "1");
    assert_eq!(minify("#comment\n, \n1").unwrap(), "1");

    assert_eq!(minify("1\n").unwrap(), "1");
    assert_eq!(minify("1,").unwrap(), "1");
    assert_eq!(minify("1,,").unwrap(), "1");
    assert_eq!(minify("1#comment\n, \n").unwrap(), "1");
}

#[test]
fn strips_ignored_tokens_between_punctuator_tokens() {
    assert_eq!(minify("[,)").unwrap(), "[)");
    assert_eq!(minify("[\r)").unwrap(), "[)");
    assert_eq!(minify("[\r\r)").unwrap(), "[)");
    assert_eq!(minify("[\r,)").unwrap(), "[)");
    assert_eq!(minify("[,\n)").unwrap(), "[)");
}

#[test]
fn strips_ignored_tokens_between_punctuator_and_non_punctuator_tokens() {
    assert_eq!(minify("[,1").unwrap(), "[1");
    assert_eq!(minify("[\r1").unwrap(), "[1");
    assert_eq!(minify("[\r\r1").unwrap(), "[1");
    assert_eq!(minify("[\r,1").unwrap(), "[1");
    assert_eq!(minify("[,\n1").unwrap(), "[1");
}

#[test]
fn replace_ignored_tokens_between_non_punctuator_tokens_and_spread_with_space() {
    assert_eq!(minify("a ...").unwrap(), "a ...");
    assert_eq!(minify("1 ...").unwrap(), "1 ...");
    assert_eq!(minify("1 ... ...").unwrap(), "1 ......");
}

#[test]
fn replace_ignored_tokens_between_non_punctuator_tokens_with_space() {
    assert_eq!(minify("1 2").unwrap(), "1 2");
    assert_eq!(minify("\"\" \"\"").unwrap(), "\"\" \"\"");
    assert_eq!(minify("a b").unwrap(), "a b");

    assert_eq!(minify("a,1").unwrap(), "a 1");
    assert_eq!(minify("a,,1").unwrap(), "a 1");
    assert_eq!(minify("a  1").unwrap(), "a 1");
    assert_eq!(minify("a \t 1").unwrap(), "a 1");
}

#[test]
fn does_not_strip_ignored_tokens_embedded_in_the_string() {
    assert_eq!(minify("\" \"").unwrap(), "\" \"");
    assert_eq!(minify("\",\"").unwrap(), "\",\"");
    assert_eq!(minify("\",,\"").unwrap(), "\",,\"");
    assert_eq!(minify("\",|\"").unwrap(), "\",|\"");
}

#[test]
fn does_not_strip_ignored_tokens_embedded_in_the_block_string() {
    assert_eq!(minify("\"\"\",\"\"\"").unwrap(), "\"\"\",\"\"\"");
    assert_eq!(minify("\"\"\",,\"\"\"").unwrap(), "\"\"\",,\"\"\"");
    assert_eq!(minify("\"\"\",|\"\"\"").unwrap(), "\"\"\",|\"\"\"");
}

#[test]
fn strips_ignored_characters_inside_block_strings() {
    assert_eq!(minify(r#""""""""#).unwrap(), r#""""""""#);
    assert_eq!(minify(r#"""" """"#).unwrap(), r#""""""""#);

    assert_eq!(minify(r#""""a""""#).unwrap(), r#""""a""""#);
    assert_eq!(minify(r#"""" a""""#).unwrap(), r#"""" a""""#);
    assert_eq!(minify(r#"""" a """"#).unwrap(), r#"""" a """"#);

    assert_eq!(minify("\"\"\"\n\"\"\"").unwrap(), r#""""""""#);
    assert_eq!(minify("\"\"\"a\nb\"\"\"").unwrap(), "\"\"\"a\nb\"\"\"");
    assert_eq!(minify("\"\"\"a\rb\"\"\"").unwrap(), "\"\"\"a\nb\"\"\"");
    assert_eq!(minify("\"\"\"a\r\nb\"\"\"").unwrap(), "\"\"\"a\nb\"\"\"");
    assert_eq!(
        minify("\"\"\"a\r\n\nb\"\"\"").unwrap(),
        "\"\"\"a\n\nb\"\"\""
    );

    assert_eq!(minify("\"\"\"\\\n\"\"\"").unwrap(), "\"\"\"\\\n\"\"\"");
    assert_eq!(minify("\"\"\"\"\n\"\"\"").unwrap(), "\"\"\"\"\n\"\"\"");
    assert_eq!(
        minify("\"\"\"\\\"\"\"\n\"\"\"").unwrap(),
        "\"\"\"\\\"\"\"\"\"\""
    );

    assert_eq!(
        minify("\"\"\"\na\n b\"\"\"").unwrap(),
        "\"\"\"\na\n b\"\"\""
    );
    assert_eq!(minify("\"\"\"\n a\n b\"\"\"").unwrap(), "\"\"\"a\nb\"\"\"");
    assert_eq!(
        minify("\"\"\"\na\n b\nc\"\"\"").unwrap(),
        "\"\"\"a\n b\nc\"\"\""
    );
}

#[test]
fn test_kitchen_sink_query() {
    let query = "# A query exercising most token kinds\nquery Sink($id: Int = 10, $enabled: Boolean!) @onQuery {\n  node(id: $id) {\n    ... on User @defer {\n      name\n      pic(size: 1.5, rate: 1.5e-3)\n      alias: field(first: -3, ok: true, note: \"a, b \\\"quoted\\\"\")\n      ...frag\n    }\n  }\n}\n\nfragment frag on User {\n  friends {\n    count\n  }\n}\n";

    let expected = "query Sink($id:Int=10$enabled:Boolean!)@onQuery{node(id:$id){...on User@defer{name pic(size:1.5 rate:1.5e-3)alias:field(first:-3 ok:true note:\"a, b \\\"quoted\\\"\")...frag}}}fragment frag on User{friends{count}}";

    assert_eq!(minify(query).unwrap(), expected);
}

#[test]
fn test_kitchen_sink_schema() {
    let schema = "\"\"\"\nTop level schema description.\n  Indented line.\n\"\"\"\nschema {\n  query: QueryType\n}\n\n\"\"\"\nA type\nwith \"quotes\" inside.\n\"\"\"\ntype Foo implements Bar & Baz {\n  one: Type\n  two(argument: InputType!): Type\n}\n\nenum Site {\n  DESKTOP\n  MOBILE\n}\n";

    let expected = "\"\"\"\nTop level schema description.\n  Indented line.\"\"\" schema{query:QueryType}\"\"\"A type\nwith \"quotes\" inside.\"\"\" type Foo implements Bar&Baz{one:Type two(argument:InputType!):Type}enum Site{DESKTOP MOBILE}";

    assert_eq!(minify(schema).unwrap(), expected);
}
