//! What holds of the lexer and the parser together.

use vstd::prelude::*;
use crate::json::{JsonValue, MemberValue};
use crate::lex::{lemma_lex_next_used, lex_all, lex_next, run_len, CharClass};
use crate::lex::{JsonSyntax, Token, TokenSource};
use crate::number::{digits_from, is_digit, is_number_char, is_number_text, lemma_digits_from};
use crate::parse::{lemma_parse_value_used, parse_elements, parse_members, parse_value};
use crate::parse::JsonStream;

verus! {

/// The text that a scalar value is written with. A string has none here: it
/// is written between quotes.
pub open spec fn scalar_text(value: JsonValue) -> Seq<char> {
    match value {
        JsonValue::Null => "null"@,
        JsonValue::Bool(true) => "true"@,
        JsonValue::Bool(false) => "false"@,
        JsonValue::Number(text) => text,
        _ => Seq::empty(),
    }
}

/// Whether `s` is one of the words `null`, `true` and `false`, or the text of
/// a number that begins with a digit or a minus sign.
pub open spec fn is_scalar_literal(s: Seq<char>) -> bool {
    s == "null"@ || s == "true"@ || s == "false"@ || (is_number_text(s) && s[0] != '.')
}

/// A run of `class` that fills `s` is as long as `s`.
pub proof fn lemma_run_fills(s: Seq<char>, class: CharClass)
    requires
        forall|i: int| 0 <= i < s.len() ==> class.holds(#[trigger] s[i]),
    ensures
        run_len(s, class) == s.len(),
    decreases s.len(),
{
    if s.len() > 0 {
        let t = s.skip(1);
        assert forall|i: int| 0 <= i < t.len() implies class.holds(#[trigger] t[i]) by {
            assert(t[i] == s[i + 1]);
        }
        lemma_run_fills(t, class);
    }
}

/// The text of a number is not empty and holds only characters that the
/// lexer collects into a number.
pub proof fn lemma_number_text_chars(s: Seq<char>)
    requires
        is_number_text(s),
    ensures
        s.len() > 0,
        forall|i: int| 0 <= i < s.len() ==> is_number_char(#[trigger] s[i]),
        s[0] == '-' || s[0] == '.' || is_digit(s[0]),
{
    let whole: int = if s.len() > 0 && s[0] == '-' {
        1
    } else {
        0
    };
    lemma_digits_from(s, whole);
    let point = whole + digits_from(s, whole);
    let fraction = if point < s.len() && s[point] == '.' {
        point + 1
    } else {
        point
    };
    lemma_digits_from(s, fraction);
    let tail = fraction + digits_from(s, fraction);
    if tail < s.len() {
        let digits = if tail + 1 < s.len() && s[tail + 1] == '-' {
            tail + 2
        } else {
            tail + 1
        };
        lemma_digits_from(s, digits);
    }
}

/// Lexing and parsing the text of a scalar gives one token and the scalar
/// that is written with that very text: nothing of the text is lost or
/// changed on the way.
pub proof fn lemma_scalar_round_trip(s: Seq<char>)
    requires
        is_scalar_literal(s),
    ensures
        lex_all(s).len() == 1,
        parse_value(lex_all(s)).value is Some,
        parse_value(lex_all(s)).used == 1,
        scalar_text(parse_value(lex_all(s)).value->Some_0) == s,
{
    reveal_strlit("null");
    reveal_strlit("true");
    reveal_strlit("false");
    let rest = s.skip(1);
    if is_number_text(s) {
        lemma_number_text_chars(s);
        assert forall|i: int| 0 <= i < rest.len() implies CharClass::Number.holds(
            #[trigger] rest[i],
        ) by {
            assert(rest[i] == s[i + 1]);
        }
        lemma_run_fills(rest, CharClass::Number);
    }
    assert(s.len() > 0);
    assert(run_len(s, CharClass::Space) == 0);
    assert(s.skip(0) == s);
    assert(s.take(s.len() as int) == s);
    let found = lex_next(s)->Some_0;
    assert(found.used == s.len());
    let end = s.skip(s.len() as int);
    assert(end.len() == 0);
    assert(lex_next(end) is None);
    assert(lex_all(end) == Seq::<Token>::empty());
    assert(lex_all(s) == seq![found.token]);
}

/// An object that was parsed ended with `}`: the last token that the parse
/// consumed is the closing brace, and the value is an object.
pub proof fn lemma_members_end_closed(ts: Seq<Token>, members: Seq<MemberValue>)
    requires
        parse_members(ts, members).value is Some,
    ensures
        ({
            let parsed = parse_members(ts, members);
            &&& 0 < parsed.used <= ts.len()
            &&& parsed.value->Some_0 is Object
            &&& ts[parsed.used - 1] == Token::Char(JsonSyntax::RightBrace)
        }),
    decreases ts.len(),
{
    if ts[0] is String {
        let name = ts[0]->String_0;
        let member = parse_value(ts.skip(2));
        lemma_parse_value_used(ts.skip(2));
        let next = 2 + member.used;
        if ts[next as int] == Token::Char(JsonSyntax::Comma) {
            let rest = ts.skip(next + 1 as int);
            let grown = members.push(MemberValue { name, value: member.value->Some_0 });
            lemma_members_end_closed(rest, grown);
            let used = parse_members(rest, grown).used;
            assert(rest[used - 1] == ts[next + used as int]);
        }
    }
}

/// An array that was parsed ended with `]`: the last token that the parse
/// consumed is the closing bracket, and the value is an array.
pub proof fn lemma_elements_end_closed(ts: Seq<Token>, items: Seq<JsonValue>)
    requires
        parse_elements(ts, items).value is Some,
    ensures
        ({
            let parsed = parse_elements(ts, items);
            &&& 0 < parsed.used <= ts.len()
            &&& parsed.value->Some_0 is Array
            &&& ts[parsed.used - 1] == Token::Char(JsonSyntax::RightBracket)
        }),
    decreases ts.len(),
{
    let item = parse_value(ts);
    lemma_parse_value_used(ts);
    if ts[item.used as int] == Token::Char(JsonSyntax::Comma) {
        let rest = ts.skip(item.used + 1 as int);
        let grown = items.push(item.value->Some_0);
        lemma_elements_end_closed(rest, grown);
        let used = parse_elements(rest, grown).used;
        assert(rest[used - 1] == ts[item.used + used as int]);
    }
}

/// A parse that gives a value consumes that value's tokens to the last: an
/// object is consumed from its `{` to its `}`, an array from its `[` to its
/// `]`, and a scalar is the one token. What the parser leaves begins behind
/// the closing token.
pub proof fn lemma_value_consumed_whole(ts: Seq<Token>)
    requires
        parse_value(ts).value is Some,
    ensures
        ({
            let parsed = parse_value(ts);
            let value = parsed.value->Some_0;
            let last = ts[parsed.used - 1];
            &&& 0 < parsed.used <= ts.len()
            &&& value is Object ==> ts[0] == Token::Char(JsonSyntax::LeftBrace) && last
                == Token::Char(JsonSyntax::RightBrace)
            &&& value is Array ==> ts[0] == Token::Char(JsonSyntax::LeftBracket) && last
                == Token::Char(JsonSyntax::RightBracket)
            &&& !(value is Object) && !(value is Array) ==> parsed.used == 1
        }),
{
    let rest = ts.skip(1);
    match ts[0] {
        Token::Char(JsonSyntax::LeftBrace) => {
            lemma_members_end_closed(rest, Seq::empty());
            let used = parse_members(rest, Seq::empty()).used;
            assert(rest[used - 1] == ts[used as int]);
        },
        Token::Char(JsonSyntax::LeftBracket) => {
            lemma_elements_end_closed(rest, Seq::empty());
            let used = parse_elements(rest, Seq::empty()).used;
            assert(rest[used - 1] == ts[used as int]);
        },
        _ => {},
    }
}

/// Whether `a` and `b` hold the same tokens in their first `n` places.
pub open spec fn agree_upto(a: Seq<Token>, b: Seq<Token>, n: nat) -> bool {
    &&& n <= a.len()
    &&& n <= b.len()
    &&& forall|i: int| 0 <= i < n ==> a[i] == b[i]
}

/// What agrees in its first places agrees behind `k` in as many fewer.
proof fn lemma_agree_behind(a: Seq<Token>, b: Seq<Token>, n: nat, k: nat, m: nat)
    requires
        agree_upto(a, b, n),
        k + m <= n,
    ensures
        agree_upto(a.skip(k as int), b.skip(k as int), m),
{
    assert forall|i: int| 0 <= i < m implies a.skip(k as int)[i] == b.skip(k as int)[i] by {
        assert(a[k + i] == b[k + i]);
    }
}

/// A value is parsed from its own tokens alone: tokens that agree with `a`
/// as far as the parse of `a` went parse to the same value, after as many
/// tokens, whatever follows them.
pub proof fn lemma_value_ignores_what_follows(a: Seq<Token>, b: Seq<Token>)
    requires
        parse_value(a).value is Some,
        agree_upto(a, b, parse_value(a).used),
    ensures
        parse_value(b) == parse_value(a),
    decreases a.len(), 0nat,
{
    let n = parse_value(a).used;
    assert(a[0] == b[0]);
    match a[0] {
        Token::Char(JsonSyntax::LeftBrace) => {
            lemma_agree_behind(a, b, n, 1, (n - 1) as nat);
            lemma_members_ignore_what_follows(a.skip(1), b.skip(1), Seq::empty());
        },
        Token::Char(JsonSyntax::LeftBracket) => {
            lemma_agree_behind(a, b, n, 1, (n - 1) as nat);
            lemma_elements_ignore_what_follows(a.skip(1), b.skip(1), Seq::empty());
        },
        _ => {},
    }
}

/// The same of the rest of an object.
pub proof fn lemma_members_ignore_what_follows(
    a: Seq<Token>,
    b: Seq<Token>,
    members: Seq<MemberValue>,
)
    requires
        parse_members(a, members).value is Some,
        agree_upto(a, b, parse_members(a, members).used),
    ensures
        parse_members(b, members) == parse_members(a, members),
    decreases a.len(), 1nat,
{
    let n = parse_members(a, members).used;
    assert(a[0] == b[0]);
    if a[0] is String {
        let name = a[0]->String_0;
        let member = parse_value(a.skip(2));
        let next = 2 + member.used;
        lemma_parse_value_used(a.skip(2));
        assert(a[1] == b[1]);
        lemma_agree_behind(a, b, n, 2, member.used);
        lemma_value_ignores_what_follows(a.skip(2), b.skip(2));
        assert(a[next as int] == b[next as int]);
        if a[next as int] == Token::Char(JsonSyntax::Comma) {
            let grown = members.push(MemberValue { name, value: member.value->Some_0 });
            lemma_agree_behind(a, b, n, next + 1, (n - next - 1) as nat);
            lemma_members_ignore_what_follows(
                a.skip(next + 1 as int),
                b.skip(next + 1 as int),
                grown,
            );
        }
    }
}

/// The same of the rest of an array.
pub proof fn lemma_elements_ignore_what_follows(
    a: Seq<Token>,
    b: Seq<Token>,
    items: Seq<JsonValue>,
)
    requires
        parse_elements(a, items).value is Some,
        agree_upto(a, b, parse_elements(a, items).used),
    ensures
        parse_elements(b, items) == parse_elements(a, items),
    decreases a.len(), 1nat,
{
    let n = parse_elements(a, items).used;
    let item = parse_value(a);
    lemma_parse_value_used(a);
    lemma_agree_behind(a, b, n, 0, item.used);
    assert(a.skip(0) == a);
    assert(b.skip(0) == b);
    lemma_value_ignores_what_follows(a, b);
    assert(a[item.used as int] == b[item.used as int]);
    if a[item.used as int] == Token::Char(JsonSyntax::Comma) {
        let grown = items.push(item.value->Some_0);
        lemma_agree_behind(a, b, n, item.used + 1, (n - item.used - 1) as nat);
        lemma_elements_ignore_what_follows(
            a.skip(item.used + 1 as int),
            b.skip(item.used + 1 as int),
            grown,
        );
    }
}

/// Two parsers that have the same tokens before them come to the same: the
/// same value or the same failure, after the same number of tokens. Two
/// lexers that have the same characters before them have the same tokens.
pub proof fn lemma_same_input_same_value<I: TokenSource, J: TokenSource>(
    one: JsonStream<I>,
    other: JsonStream<J>,
)
    requires
        one.tokens() == other.tokens(),
    ensures
        parse_value(one.tokens()) == parse_value(other.tokens()),
{
}

/// Two texts that are the same have the same tokens, and these parse to the
/// same.
pub proof fn lemma_same_text_same_value(one: Seq<char>, other: Seq<char>)
    requires
        one == other,
    ensures
        lex_all(one) == lex_all(other),
        parse_value(lex_all(one)) == parse_value(lex_all(other)),
{
}

/// Whether every number in `value` is written as a number.
pub open spec fn numbers_hold(value: JsonValue) -> bool
    decreases value,
{
    match value {
        JsonValue::Number(text) => is_number_text(text),
        JsonValue::Array(items) => forall|i: int|
            0 <= i < items.len() ==> numbers_hold(#[trigger] items[i]),
        JsonValue::Object(members) => forall|i: int|
            0 <= i < members.len() ==> numbers_hold((#[trigger] members[i]).value),
        _ => true,
    }
}

/// Whether every number token of `ts` holds the text of a number.
pub open spec fn number_tokens_hold(ts: Seq<Token>) -> bool {
    forall|i: int| 0 <= i < ts.len() && (#[trigger] ts[i]) is Number ==> is_number_text(
        ts[i]->Number_0,
    )
}

/// The lexer hands out a number token only for the text of a number.
pub proof fn lemma_lexed_numbers_hold(s: Seq<char>)
    ensures
        number_tokens_hold(lex_all(s)),
    decreases s.len(),
{
    if let Some(found) = lex_next(s) {
        lemma_lex_next_used(s);
        let rest = lex_all(s.skip(found.used as int));
        lemma_lexed_numbers_hold(s.skip(found.used as int));
        let all = lex_all(s);
        assert forall|i: int| 0 <= i < all.len() && (#[trigger] all[i]) is Number implies is_number_text(
            all[i]->Number_0,
        ) by {
            if i > 0 {
                assert(all[i] == rest[i - 1]);
            }
        }
    }
}

/// A value parsed from tokens whose numbers hold has numbers that hold.
pub proof fn lemma_value_numbers_hold(ts: Seq<Token>)
    requires
        number_tokens_hold(ts),
        parse_value(ts).value is Some,
    ensures
        numbers_hold(parse_value(ts).value->Some_0),
    decreases ts.len(), 0nat,
{
    let rest = ts.skip(1);
    assert forall|i: int| 0 <= i < rest.len() && (#[trigger] rest[i]) is Number implies is_number_text(
        rest[i]->Number_0,
    ) by {
        assert(rest[i] == ts[i + 1]);
    }
    match ts[0] {
        Token::Char(JsonSyntax::LeftBrace) => {
            lemma_members_numbers_hold(rest, Seq::empty());
        },
        Token::Char(JsonSyntax::LeftBracket) => {
            lemma_elements_numbers_hold(rest, Seq::empty());
        },
        _ => {},
    }
}

/// The same of the rest of an object, whose members so far hold.
pub proof fn lemma_members_numbers_hold(ts: Seq<Token>, members: Seq<MemberValue>)
    requires
        number_tokens_hold(ts),
        numbers_hold(JsonValue::Object(members)),
        parse_members(ts, members).value is Some,
    ensures
        numbers_hold(parse_members(ts, members).value->Some_0),
    decreases ts.len(), 1nat,
{
    if ts[0] is String {
        let name = ts[0]->String_0;
        let inner = ts.skip(2);
        assert forall|i: int| 0 <= i < inner.len() && (#[trigger] inner[i]) is Number implies is_number_text(
            inner[i]->Number_0,
        ) by {
            assert(inner[i] == ts[i + 2]);
        }
        let member = parse_value(inner);
        lemma_parse_value_used(inner);
        lemma_value_numbers_hold(inner);
        let next = 2 + member.used;
        let grown = members.push(MemberValue { name, value: member.value->Some_0 });
        assert forall|i: int| 0 <= i < grown.len() implies numbers_hold(
            (#[trigger] grown[i]).value,
        ) by {
            if i < members.len() {
                assert(grown[i] == members[i]);
            }
        }
        if ts[next as int] == Token::Char(JsonSyntax::Comma) {
            let rest = ts.skip(next + 1 as int);
            assert forall|i: int| 0 <= i < rest.len() && (#[trigger] rest[i]) is Number implies is_number_text(
                rest[i]->Number_0,
            ) by {
                assert(rest[i] == ts[i + next + 1]);
            }
            lemma_members_numbers_hold(rest, grown);
        }
    }
}

/// The numbers of an array hold in each of its items.
proof fn lemma_item_numbers_hold(items: Seq<JsonValue>, k: int)
    requires
        numbers_hold(JsonValue::Array(items)),
        0 <= k < items.len(),
    ensures
        numbers_hold(items[k]),
{
    assert(JsonValue::Array(items)->Array_0 == items);
}

/// The same of the rest of an array, whose items so far hold.
pub proof fn lemma_elements_numbers_hold(ts: Seq<Token>, items: Seq<JsonValue>)
    requires
        number_tokens_hold(ts),
        numbers_hold(JsonValue::Array(items)),
        parse_elements(ts, items).value is Some,
    ensures
        numbers_hold(parse_elements(ts, items).value->Some_0),
    decreases ts.len(), 1nat,
{
    let item = parse_value(ts);
    lemma_parse_value_used(ts);
    lemma_value_numbers_hold(ts);
    let grown = items.push(item.value->Some_0);
    assert forall|i: int| 0 <= i < grown.len() implies numbers_hold(#[trigger] grown[i]) by {
        if i < items.len() {
            assert(grown[i] == items[i]);
            lemma_item_numbers_hold(items, i);
        }
    }
    if ts[item.used as int] == Token::Char(JsonSyntax::Comma) {
        let rest = ts.skip(item.used + 1 as int);
        assert forall|i: int| 0 <= i < rest.len() && (#[trigger] rest[i]) is Number implies is_number_text(
            rest[i]->Number_0,
        ) by {
            assert(rest[i] == ts[i + item.used + 1]);
        }
        lemma_elements_numbers_hold(rest, grown);
    }
}

/// Every number in a value that was parsed from a text is written as a
/// number: its text can be decoded without a failure.
pub proof fn lemma_parsed_numbers_hold(s: Seq<char>)
    requires
        parse_value(lex_all(s)).value is Some,
    ensures
        numbers_hold(parse_value(lex_all(s)).value->Some_0),
{
    lemma_lexed_numbers_hold(s);
    lemma_value_numbers_hold(lex_all(s));
}

} // verus!
