use json_stream::buffer::CharBuffer;
use json_stream::lex::{JsonSyntax, JsonToken, TokenStream, Tokenizable};
use json_stream::number::check_number_text;

fn lexer(text: &str) -> TokenStream<CharBuffer> {
    CharBuffer::new(text.chars().collect()).tokenize()
}

fn tokens(text: &str) -> Vec<JsonToken> {
    let mut stream = lexer(text);
    let mut all = Vec::new();
    while let Some(token) = stream.next() {
        all.push(token);
    }
    all
}

fn number(text: &str) -> JsonToken {
    JsonToken::Number(text.to_string())
}

fn string(text: &str) -> JsonToken {
    JsonToken::String(text.to_string())
}

fn error(reason: &str) -> JsonToken {
    JsonToken::LexError { reason: reason.to_string() }
}

#[test]
fn empty_text_has_no_token() {
    assert_eq!(tokens(""), vec![]);
    let mut stream = lexer("");
    assert_eq!(stream.next(), None);
    assert_eq!(stream.next(), None);
}

#[test]
fn whitespace_alone_has_no_token() {
    assert_eq!(tokens(" \t\r\n  "), vec![]);
}

#[test]
fn whitespace_is_skipped_before_a_token() {
    assert_eq!(tokens(" \n\t\r null \n"), vec![JsonToken::Null]);
}

#[test]
fn structural_characters_are_one_token_each() {
    assert_eq!(
        tokens("{}[]:,"),
        vec![
            JsonToken::Char(JsonSyntax::LeftBrace),
            JsonToken::Char(JsonSyntax::RightBrace),
            JsonToken::Char(JsonSyntax::LeftBracket),
            JsonToken::Char(JsonSyntax::RightBracket),
            JsonToken::Char(JsonSyntax::Colon),
            JsonToken::Char(JsonSyntax::Comma),
        ]
    );
}

#[test]
fn scalar_literals_lex_to_their_tokens() {
    assert_eq!(tokens("null"), vec![JsonToken::Null]);
    assert_eq!(tokens("true"), vec![JsonToken::Bool(true)]);
    assert_eq!(tokens("false"), vec![JsonToken::Bool(false)]);
    assert_eq!(tokens("-12.5e3"), vec![number("-12.5e3")]);
    assert_eq!(tokens("0"), vec![number("0")]);
}

#[test]
fn number_text_decodes_to_the_written_value() {
    for (text, value) in [("1", 1.0), ("-12.5e3", -12500.0), ("2E-2", 0.02), ("7.", 7.0)] {
        match tokens(text).as_slice() {
            [JsonToken::Number(kept)] => {
                assert_eq!(kept, text);
                assert_eq!(kept.parse::<f64>(), Ok(value));
            }
            other => panic!("{:?}", other),
        }
    }
}

#[test]
fn string_is_the_raw_text_between_the_quotes() {
    assert_eq!(tokens("\"hello world\""), vec![string("hello world")]);
    assert_eq!(tokens("\"\""), vec![string("")]);
    assert_eq!(tokens("\"{[1,true]}\""), vec![string("{[1,true]}")]);
}

#[test]
fn string_keeps_a_backslash_and_ends_at_the_next_quote() {
    assert_eq!(tokens("\"a\\n\""), vec![string("a\\n")]);
    assert_eq!(
        tokens("\"a\\\"b\""),
        vec![
            string("a\\"),
            error("Found invalid character during lexing: b"),
            string(""),
        ]
    );
}

#[test]
fn unterminated_string_runs_to_the_end() {
    assert_eq!(tokens("\"abc"), vec![string("abc")]);
    assert_eq!(tokens("\""), vec![string("")]);
}

#[test]
fn number_leaves_the_character_behind_it() {
    assert_eq!(
        tokens("[1,22]"),
        vec![
            JsonToken::Char(JsonSyntax::LeftBracket),
            number("1"),
            JsonToken::Char(JsonSyntax::Comma),
            number("22"),
            JsonToken::Char(JsonSyntax::RightBracket),
        ]
    );
    assert_eq!(tokens("3 4"), vec![number("3"), number("4")]);
    assert_eq!(tokens("5\"x\""), vec![number("5"), string("x")]);
}

#[test]
fn number_run_is_greedy_and_then_checked() {
    assert_eq!(tokens("1-2"), vec![error("Unable to lex 1-2 as a number")]);
    assert_eq!(tokens("-"), vec![error("Unable to lex - as a number")]);
    assert_eq!(tokens("1e"), vec![error("Unable to lex 1e as a number")]);
    assert_eq!(tokens("1.2.3,"), vec![
        error("Unable to lex 1.2.3 as a number"),
        JsonToken::Char(JsonSyntax::Comma),
    ]);
    assert_eq!(tokens("--1"), vec![error("Unable to lex --1 as a number")]);
}

#[test]
fn truth_is_not_true() {
    let all = tokens("truth");
    assert_eq!(all[0], error("Expected boolean true value"));
    match &all[0] {
        JsonToken::LexError { reason } => assert!(reason.contains("true")),
        other => panic!("{:?}", other),
    }
}

#[test]
fn word_takes_its_length_and_no_more() {
    assert_eq!(tokens("truth"), vec![
        error("Expected boolean true value"),
        error("Found invalid character during lexing: h"),
    ]);
    assert_eq!(tokens("nulltrue"), vec![JsonToken::Null, JsonToken::Bool(true)]);
    assert_eq!(tokens("falsefalse"), vec![JsonToken::Bool(false), JsonToken::Bool(false)]);
    assert_eq!(tokens("nil,1"), vec![error("Expected null value"), number("1")]);
}

#[test]
fn short_word_is_an_error() {
    assert_eq!(tokens("nul"), vec![error("Expected null value")]);
    assert_eq!(tokens("t"), vec![error("Expected boolean true value")]);
    assert_eq!(tokens("fals"), vec![error("Expected boolean false value")]);
    assert_eq!(tokens("f"), vec![error("Expected boolean false value")]);
}

#[test]
fn other_character_is_an_error_that_names_it() {
    assert_eq!(tokens("@"), vec![error("Found invalid character during lexing: @")]);
    assert_eq!(tokens(".5"), vec![
        error("Found invalid character during lexing: ."),
        number("5"),
    ]);
    assert_eq!(tokens("+"), vec![error("Found invalid character during lexing: +")]);
}

#[test]
fn lexing_goes_on_behind_an_error() {
    assert_eq!(tokens("# 1"), vec![
        error("Found invalid character during lexing: #"),
        number("1"),
    ]);
}

#[test]
fn number_text_examples() {
    for text in ["0", "-0", "12", "1.5", "1.", "-.5", "1e5", "1E5", "1e-5", "1.e5", "007", "-1.25E-3"] {
        let chars: Vec<char> = text.chars().collect();
        assert!(check_number_text(&chars), "{}", text);
    }
    for text in ["", "-", ".", "-.", "e5", "1e", "1e-", "1-", "--1", "1.2.3", "1e5e5", "1e5.", "1e.5", "-e1", "1e--5", "1x", "inf", "nan", "+1"] {
        let chars: Vec<char> = text.chars().collect();
        assert!(!check_number_text(&chars), "{}", text);
    }
}

#[test]
fn number_text_is_what_the_float_parser_accepts() {
    let alphabet = ['0', '7', '.', 'e', 'E', '-'];
    let mut texts: Vec<String> = vec!["-".to_string(), "0".to_string(), "7".to_string()];
    let mut from = 0;
    for _ in 0..5 {
        let upto = texts.len();
        for i in from..upto {
            for c in alphabet {
                let mut longer = texts[i].clone();
                longer.push(c);
                texts.push(longer);
            }
        }
        from = upto;
    }
    assert_eq!(texts.len(), 3 * (1 + 6 + 36 + 216 + 1296 + 7776));
    for text in texts {
        let chars: Vec<char> = text.chars().collect();
        assert_eq!(check_number_text(&chars), text.parse::<f64>().is_ok(), "{}", text);
    }
}
