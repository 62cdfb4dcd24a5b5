use json_stream::buffer::{CharBuffer, TokenBuffer};
use json_stream::lex::{JsonSyntax, JsonToken, TokenStream, Tokenizable};
use json_stream::parse::{JsonDeser, JsonStream};
use json_stream::{Json, Member};

fn parser(text: &str) -> JsonStream<TokenStream<CharBuffer>> {
    CharBuffer::new(text.chars().collect()).tokenize().jsonify()
}

fn parse(text: &str) -> Result<Json, ()> {
    parser(text).parse()
}

fn values(text: &str) -> Vec<Json> {
    let mut stream = parser(text);
    let mut all = Vec::new();
    while let Some(value) = stream.next() {
        all.push(value);
    }
    all
}

fn num(text: &str) -> Json {
    Json::Number(text.to_string())
}

fn text(s: &str) -> Json {
    Json::String(s.to_string())
}

fn member(name: &str, value: Json) -> Member {
    Member { name: name.to_string(), value }
}

fn float(value: &Json) -> f64 {
    match value {
        Json::Number(text) => text.parse::<f64>().unwrap(),
        other => panic!("{:?}", other),
    }
}

#[test]
fn scalars_parse_to_themselves() {
    assert_eq!(parse("null"), Ok(Json::Null));
    assert_eq!(parse("true"), Ok(Json::Bool(true)));
    assert_eq!(parse("false"), Ok(Json::Bool(false)));
    assert_eq!(parse("\"a b\""), Ok(text("a b")));
    assert_eq!(parse("-1.5e2"), Ok(num("-1.5e2")));
    assert_eq!(float(&parse("-1.5e2").unwrap()), -150.0);
}

#[test]
fn object_keeps_the_order_of_its_members() {
    let value = parse("{\"a\":1,\"b\":2}").unwrap();
    assert_eq!(value, Json::Object(vec![member("a", num("1")), member("b", num("2"))]));
    match value {
        Json::Object(members) => {
            let pairs: Vec<(&str, f64)> =
                members.iter().map(|m| (m.name.as_str(), float(&m.value))).collect();
            assert_eq!(pairs, vec![("a", 1.0), ("b", 2.0)]);
        }
        other => panic!("{:?}", other),
    }
}

#[test]
fn object_keeps_members_of_the_same_name() {
    let value = parse("{\"a\":1,\"a\":2}").unwrap();
    match value {
        Json::Object(members) => {
            let pairs: Vec<(&str, f64)> =
                members.iter().map(|m| (m.name.as_str(), float(&m.value))).collect();
            assert_eq!(pairs, vec![("a", 1.0), ("a", 2.0)]);
        }
        other => panic!("{:?}", other),
    }
}

#[test]
fn nested_values_nest() {
    let value = parse("[1,[2,3],{\"x\":4}]").unwrap();
    assert_eq!(
        value,
        Json::Array(vec![
            num("1"),
            Json::Array(vec![num("2"), num("3")]),
            Json::Object(vec![member("x", num("4"))]),
        ])
    );
    match &value {
        Json::Array(items) => {
            assert_eq!(float(&items[0]), 1.0);
            match &items[1] {
                Json::Array(inner) => {
                    assert_eq!(inner.iter().map(float).collect::<Vec<f64>>(), vec![2.0, 3.0]);
                }
                other => panic!("{:?}", other),
            }
            match &items[2] {
                Json::Object(members) => {
                    assert_eq!(members.len(), 1);
                    assert_eq!(members[0].name, "x");
                    assert_eq!(float(&members[0].value), 4.0);
                }
                other => panic!("{:?}", other),
            }
        }
        other => panic!("{:?}", other),
    }
}

#[test]
fn whitespace_between_tokens_changes_nothing() {
    assert_eq!(
        parse(" { \"a\" : [ 1 , null ] ,\n\t\"b\" : { } }\r\n"),
        Ok(Json::Object(vec![
            member("a", Json::Array(vec![num("1"), Json::Null])),
            member("b", Json::Object(vec![])),
        ]))
    );
}

#[test]
fn missing_value_fails() {
    assert_eq!(parse("{\"a\":}"), Err(()));
}

#[test]
fn unterminated_array_fails() {
    assert_eq!(parse("[1,2"), Err(()));
}

#[test]
fn name_that_is_no_string_fails() {
    assert_eq!(parse("{1:2}"), Err(()));
    assert_eq!(parse("{null:2}"), Err(()));
    assert_eq!(parse("{,}"), Err(()));
    assert_eq!(parse("{[1]:2}"), Err(()));
}

#[test]
fn unterminated_object_fails() {
    assert_eq!(parse("{"), Err(()));
    assert_eq!(parse("{\"a\""), Err(()));
    assert_eq!(parse("{\"a\":"), Err(()));
    assert_eq!(parse("{\"a\":1"), Err(()));
    assert_eq!(parse("{\"a\":1,"), Err(()));
}

#[test]
fn missing_colon_fails() {
    assert_eq!(parse("{\"a\" 1}"), Err(()));
    assert_eq!(parse("{\"a\",1}"), Err(()));
}

#[test]
fn missing_comma_fails() {
    assert_eq!(parse("{\"a\":1 \"b\":2}"), Err(()));
    assert_eq!(parse("[1 2]"), Err(()));
    assert_eq!(parse("[1:2]"), Err(()));
}

#[test]
fn empty_object_parses() {
    assert_eq!(parse("{}"), Ok(Json::Object(vec![])));
}

#[test]
fn comma_before_the_closing_brace_is_taken() {
    assert_eq!(parse("{\"a\":1,}"), Ok(Json::Object(vec![member("a", num("1"))])));
}

#[test]
fn array_without_items_fails() {
    assert_eq!(parse("[]"), Err(()));
    assert_eq!(parse("[1,]"), Err(()));
    assert_eq!(parse("[[]]"), Err(()));
}

#[test]
fn closing_token_or_separator_is_no_value() {
    assert_eq!(parse("}"), Err(()));
    assert_eq!(parse("]"), Err(()));
    assert_eq!(parse(":"), Err(()));
    assert_eq!(parse(","), Err(()));
}

#[test]
fn nothing_to_parse_fails() {
    assert_eq!(parse(""), Err(()));
    assert_eq!(parse("  \n"), Err(()));
}

#[test]
fn lex_error_fails_the_parse() {
    assert_eq!(parse("truth"), Err(()));
    assert_eq!(parse("[1,nul]"), Err(()));
    assert_eq!(parse("{\"a\":1-2}"), Err(()));
    assert_eq!(parse("@"), Err(()));
}

#[test]
fn closing_token_is_consumed_with_its_value() {
    assert_eq!(
        values("[1,2] {\"a\":null} 3"),
        vec![
            Json::Array(vec![num("1"), num("2")]),
            Json::Object(vec![member("a", Json::Null)]),
            num("3"),
        ]
    );
    let mut stream = parser("[[1],[2]]true");
    assert_eq!(
        stream.parse(),
        Ok(Json::Array(vec![Json::Array(vec![num("1")]), Json::Array(vec![num("2")])]))
    );
    assert_eq!(stream.parse(), Ok(Json::Bool(true)));
    assert_eq!(stream.parse(), Err(()));
}

#[test]
fn values_come_one_after_the_other() {
    assert_eq!(values("1 \"two\" null"), vec![num("1"), text("two"), Json::Null]);
    assert_eq!(values(""), vec![]);
}

#[test]
fn failure_ends_the_sequence_of_values() {
    let mut stream = parser("1 ] 2");
    assert_eq!(stream.next(), Some(num("1")));
    assert_eq!(stream.next(), None);
    assert_eq!(stream.next(), Some(num("2")));
    assert_eq!(stream.next(), None);
}

#[test]
fn failed_parse_consumes_up_to_the_refused_token() {
    let mut stream = parser("[1 2] 7");
    assert_eq!(stream.parse(), Err(()));
    assert_eq!(stream.parse(), Err(()));
    assert_eq!(stream.parse(), Ok(num("7")));
    let mut stream = parser("{\"a\" 1} 7");
    assert_eq!(stream.parse(), Err(()));
    assert_eq!(stream.parse(), Err(()));
    assert_eq!(stream.parse(), Ok(num("7")));
}

#[test]
fn same_text_parses_to_the_same_value_twice() {
    let source = "{\"k\":[1,{\"n\":null},\"s\"],\"k\":false}";
    let one = parse(source);
    let other = parse(source);
    assert!(one.is_ok());
    assert_eq!(one, other);
    assert_eq!(parse("[1,"), parse("[1,"));
}

#[test]
fn tokens_in_a_buffer_parse_as_the_lexed_text_does() {
    let tokens = vec![
        JsonToken::Char(JsonSyntax::LeftBrace),
        JsonToken::String("a".to_string()),
        JsonToken::Char(JsonSyntax::Colon),
        JsonToken::Char(JsonSyntax::LeftBracket),
        JsonToken::Number("1".to_string()),
        JsonToken::Char(JsonSyntax::Comma),
        JsonToken::Bool(true),
        JsonToken::Char(JsonSyntax::RightBracket),
        JsonToken::Char(JsonSyntax::RightBrace),
        JsonToken::Null,
    ];
    let mut stream = TokenBuffer::new(tokens).jsonify();
    let first = stream.parse();
    assert_eq!(first, parse("{\"a\":[1,true]}"));
    assert_eq!(
        first,
        Ok(Json::Object(vec![member("a", Json::Array(vec![num("1"), Json::Bool(true)]))]))
    );
    assert_eq!(stream.parse(), Ok(Json::Null));
    assert_eq!(stream.parse(), Err(()));
}

#[test]
fn error_token_in_a_buffer_fails_the_parse() {
    let tokens = vec![JsonToken::LexError { reason: "Expected null value".to_string() }];
    assert_eq!(TokenBuffer::new(tokens).jsonify().parse(), Err(()));
}

#[test]
fn rest_of_an_object_parses_behind_its_brace() {
    let mut stream = parser("\"a\":1,\"b\":[2]} 5");
    assert_eq!(
        stream.parse_object(),
        Ok(Json::Object(vec![member("a", num("1")), member("b", Json::Array(vec![num("2")]))]))
    );
    assert_eq!(stream.parse(), Ok(num("5")));
    assert_eq!(parser("}").parse_object(), Ok(Json::Object(vec![])));
    assert_eq!(parser("").parse_object(), Err(()));
}

#[test]
fn rest_of_an_array_parses_behind_its_bracket() {
    let mut stream = parser("1,{\"a\":2}] 5");
    assert_eq!(
        stream.parse_array(),
        Ok(Json::Array(vec![num("1"), Json::Object(vec![member("a", num("2"))])]))
    );
    assert_eq!(stream.parse(), Ok(num("5")));
    assert_eq!(parser("]").parse_array(), Err(()));
    assert_eq!(parser("").parse_array(), Err(()));
}

#[test]
fn deep_nesting_parses() {
    let depth = 200;
    let mut source = String::new();
    for _ in 0..depth {
        source.push('[');
    }
    source.push('0');
    for _ in 0..depth {
        source.push(']');
    }
    let mut value = parse(&source).unwrap();
    for _ in 0..depth {
        value = match value {
            Json::Array(mut items) => {
                assert_eq!(items.len(), 1);
                items.pop().unwrap()
            }
            other => panic!("{:?}", other),
        };
    }
    assert_eq!(value, num("0"));
}

#[test]
fn value_is_the_same_whatever_follows_it() {
    let alone = parse("{\"a\":[1,2]}");
    assert!(alone.is_ok());
    assert_eq!(parse("{\"a\":[1,2]} ]"), alone);
    assert_eq!(parse("{\"a\":[1,2]}{\"b\":3}"), alone);
    assert_eq!(parse("{\"a\":[1,2]}@"), alone);
    assert_eq!(parse("7,"), parse("7"));
}

fn numbers_decode(value: &Json) -> bool {
    match value {
        Json::Number(text) => text.parse::<f64>().is_ok(),
        Json::Array(items) => items.iter().all(numbers_decode),
        Json::Object(members) => members.iter().all(|m| numbers_decode(&m.value)),
        _ => true,
    }
}

#[test]
fn parsed_numbers_decode() {
    let value = parse("{\"a\":[1,-2.5,3e4,{\"b\":0.0625,\"c\":[7.,-0]}],\"d\":1E-3}").unwrap();
    assert!(numbers_decode(&value));
    match parse("[0.5,1e2]").unwrap() {
        Json::Array(items) => {
            assert_eq!(items.iter().map(float).collect::<Vec<f64>>(), vec![0.5, 100.0]);
        }
        other => panic!("{:?}", other),
    }
}
