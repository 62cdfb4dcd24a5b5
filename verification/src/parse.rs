//! The parser: from tokens to a value tree, by recursive descent.

use vstd::prelude::*;
use crate::json::{items_view, lemma_array_view, lemma_object_view, members_view};
use crate::json::{Json, JsonValue, Member, MemberValue};
use crate::lex::{JsonSyntax, JsonToken, Token, TokenSource};

verus! {

/// What a parse comes to: the value, or `None` where it failed, and the
/// number of tokens that it consumed either way.
pub ghost struct Parsed {
    pub value: Option<JsonValue>,
    pub used: nat,
}

/// A parse that ended with `value` after `used` tokens.
pub open spec fn done(value: JsonValue, used: nat) -> Parsed {
    Parsed { value: Some(value), used }
}

/// A parse that failed after `used` tokens.
pub open spec fn failed(used: nat) -> Parsed {
    Parsed { value: None, used }
}

/// The parse `rest`, with the `head` tokens that were consumed before it.
pub open spec fn after(head: nat, rest: Parsed) -> Parsed {
    Parsed { value: rest.value, used: head + rest.used }
}

/// The value at the front of `ts`. A scalar is one token. `{` opens an
/// object and `[` an array; every other token, and the end of `ts`, fails.
pub open spec fn parse_value(ts: Seq<Token>) -> Parsed
    decreases ts.len(), 0nat,
{
    if ts.len() == 0 {
        failed(0)
    } else {
        match ts[0] {
            Token::Char(JsonSyntax::LeftBrace) => after(1, parse_members(ts.skip(1), Seq::empty())),
            Token::Char(JsonSyntax::LeftBracket) => after(
                1,
                parse_elements(ts.skip(1), Seq::empty()),
            ),
            Token::Number(text) => done(JsonValue::Number(text), 1),
            Token::String(text) => done(JsonValue::String(text), 1),
            Token::Bool(b) => done(JsonValue::Bool(b), 1),
            Token::Null => done(JsonValue::Null, 1),
            _ => failed(1),
        }
    }
}

/// The rest of an object whose members so far are `members`, with `ts` at
/// the place of a name. A string there begins a member: a colon and a value
/// must follow, and then a comma, after which the place of a name is reached
/// again, or `}`, which ends the object. `}` at the place of a name ends the
/// object too. Everything else fails, the end of `ts` included.
pub open spec fn parse_members(ts: Seq<Token>, members: Seq<MemberValue>) -> Parsed
    decreases ts.len(), 1nat,
{
    if ts.len() == 0 {
        failed(0)
    } else {
        match ts[0] {
            Token::String(name) => {
                if ts.len() < 2 {
                    failed(1)
                } else if ts[1] != Token::Char(JsonSyntax::Colon) {
                    failed(2)
                } else {
                    let member = parse_value(ts.skip(2));
                    let next = 2 + member.used;
                    match member.value {
                        None => failed(next),
                        Some(value) => {
                            if next >= ts.len() {
                                failed(next)
                            } else {
                                match ts[next as int] {
                                    Token::Char(JsonSyntax::RightBrace) => done(
                                        JsonValue::Object(members.push(MemberValue { name, value })),
                                        next + 1,
                                    ),
                                    Token::Char(JsonSyntax::Comma) => after(
                                        next + 1,
                                        parse_members(
                                            ts.skip(next + 1 as int),
                                            members.push(MemberValue { name, value }),
                                        ),
                                    ),
                                    _ => failed(next + 1),
                                }
                            }
                        },
                    }
                }
            },
            Token::Char(JsonSyntax::RightBrace) => done(JsonValue::Object(members), 1),
            _ => failed(1),
        }
    }
}

/// The rest of an array whose items so far are `items`, with `ts` at the
/// place of an item. A value must stand there, and then a comma, after which
/// the place of an item is reached again, or `]`, which ends the array.
/// Everything else fails, the end of `ts` included; so does `]` at the place
/// of an item, and with it the array without items.
pub open spec fn parse_elements(ts: Seq<Token>, items: Seq<JsonValue>) -> Parsed
    decreases ts.len(), 1nat,
{
    let item = parse_value(ts);
    match item.value {
        None => failed(item.used),
        Some(value) => {
            if item.used >= ts.len() {
                failed(item.used)
            } else {
                match ts[item.used as int] {
                    Token::Char(JsonSyntax::RightBracket) => done(
                        JsonValue::Array(items.push(value)),
                        item.used + 1,
                    ),
                    Token::Char(JsonSyntax::Comma) => after(
                        item.used + 1,
                        parse_elements(ts.skip(item.used + 1 as int), items.push(value)),
                    ),
                    _ => failed(item.used + 1),
                }
            }
        },
    }
}

/// Whether `result` is what `parsed` says: the value, seen through its view,
/// or the failure.
pub open spec fn agrees(result: Result<Json, ()>, parsed: Parsed) -> bool {
    match parsed.value {
        Some(value) => result is Ok && result->Ok_0@ == value,
        None => result is Err,
    }
}

/// What every source of tokens can do: become a parser.
pub trait JsonDeser: TokenSource {
    /// Puts a parser on top of this source.
    fn jsonify(self) -> (stream: JsonStream<Self>)
        ensures
            stream.tokens() == self.tokens(),
    {
        JsonStream { stream_in: self }
    }
}

impl<T: TokenSource> JsonDeser for T {

}

/// The parser over a source of tokens. It holds no token back: what it has
/// pulled from the source it has used.
pub struct JsonStream<I> {
    stream_in: I,
}

impl<I: TokenSource> JsonStream<I> {
    /// The tokens that the parser has yet to read, in order.
    pub closed spec fn tokens(&self) -> Seq<Token> {
        self.stream_in.tokens()
    }

    /// Parses the rest of an object whose `{` has been consumed, and consumes
    /// its tokens up to the closing `}`. On failure, the tokens up to the one
    /// that was refused are consumed.
    pub fn parse_object(&mut self) -> (result: Result<Json, ()>)
        ensures
            agrees(result, parse_members(old(self).tokens(), Seq::empty())),
            final(self).tokens() == old(self).tokens().skip(
                parse_members(old(self).tokens(), Seq::empty()).used as int,
            ),
        decreases old(self).tokens().len(), 1nat,
    {
        let ghost ts = self.tokens();
        let ghost mut at: int = 0;
        let mut members: Vec<Member> = Vec::new();
        assert(ts.skip(0) == ts);
        assert(members_view(members@) == Seq::<MemberValue>::empty());
        loop
            invariant
                ts == old(self).tokens(),
                0 <= at <= ts.len(),
                self.tokens() == ts.skip(at),
                parse_members(ts, Seq::empty()) == after(
                    at as nat,
                    parse_members(self.tokens(), members_view(members@)),
                ),
            decreases ts.len() - at,
        {
            let ghost now = self.tokens();
            let ghost so_far = members_view(members@);
            let name = match self.stream_in.next_token() {
                Some(JsonToken::String(name)) => name,
                Some(JsonToken::Char(JsonSyntax::RightBrace)) => {
                    proof {
                        lemma_object_view(members);
                        assert(now.skip(1) == ts.skip(at + 1));
                    }
                    return Ok(Json::Object(members));
                },
                Some(_) => {
                    assert(now.skip(1) == ts.skip(at + 1));
                    return Err(());
                },
                None => {
                    return Err(());
                },
            };
            assert(now.skip(1) == ts.skip(at + 1));
            match self.stream_in.next_token() {
                Some(JsonToken::Char(JsonSyntax::Colon)) => {},
                Some(_) => {
                    assert(now.skip(1).skip(1) == ts.skip(at + 2));
                    return Err(());
                },
                None => {
                    return Err(());
                },
            }
            assert(now.skip(1).skip(1) == now.skip(2));
            assert(now.skip(2) == ts.skip(at + 2));
            let ghost member = parse_value(now.skip(2));
            let ghost next = 2 + member.used;
            proof {
                lemma_parse_value_used(now.skip(2));
                assert(now.skip(2).skip(member.used as int) == now.skip(next as int));
                assert(now.skip(next as int) == ts.skip(at + next));
            }
            let value = match self.parse() {
                Ok(value) => value,
                Err(e) => {
                    return Err(e);
                },
            };
            let ghost grown = so_far.push(MemberValue { name: name@, value: value@ });
            members.push(Member { name, value });
            assert(members_view(members@) == grown);
            match self.stream_in.next_token() {
                Some(JsonToken::Char(JsonSyntax::RightBrace)) => {
                    proof {
                        lemma_object_view(members);
                        assert(now.skip(next as int).skip(1) == ts.skip(at + next + 1));
                    }
                    return Ok(Json::Object(members));
                },
                Some(JsonToken::Char(JsonSyntax::Comma)) => {
                    proof {
                        assert(now.skip(next as int).skip(1) == now.skip(next + 1 as int));
                        assert(now.skip(next + 1 as int) == ts.skip(at + next + 1));
                        at = at + next + 1;
                    }
                },
                Some(_) => {
                    assert(now.skip(next as int).skip(1) == ts.skip(at + next + 1));
                    return Err(());
                },
                None => {
                    return Err(());
                },
            }
        }
    }

    /// Parses the rest of an array whose `[` has been consumed, and consumes
    /// its tokens up to the closing `]`. On failure, the tokens up to the one
    /// that was refused are consumed.
    pub fn parse_array(&mut self) -> (result: Result<Json, ()>)
        ensures
            agrees(result, parse_elements(old(self).tokens(), Seq::empty())),
            final(self).tokens() == old(self).tokens().skip(
                parse_elements(old(self).tokens(), Seq::empty()).used as int,
            ),
        decreases old(self).tokens().len(), 1nat,
    {
        let ghost ts = self.tokens();
        let ghost mut at: int = 0;
        let mut items: Vec<Json> = Vec::new();
        assert(ts.skip(0) == ts);
        assert(items_view(items@) == Seq::<JsonValue>::empty());
        loop
            invariant
                ts == old(self).tokens(),
                0 <= at <= ts.len(),
                self.tokens() == ts.skip(at),
                parse_elements(ts, Seq::empty()) == after(
                    at as nat,
                    parse_elements(self.tokens(), items_view(items@)),
                ),
            decreases ts.len() - at,
        {
            let ghost now = self.tokens();
            let ghost so_far = items_view(items@);
            let ghost item = parse_value(now);
            proof {
                lemma_parse_value_used(now);
                assert(now.skip(item.used as int) == ts.skip(at + item.used));
            }
            let value = match self.parse() {
                Ok(value) => value,
                Err(e) => {
                    return Err(e);
                },
            };
            let ghost grown = so_far.push(value@);
            items.push(value);
            assert(items_view(items@) == grown);
            match self.stream_in.next_token() {
                Some(JsonToken::Char(JsonSyntax::RightBracket)) => {
                    proof {
                        lemma_array_view(items);
                        assert(now.skip(item.used as int).skip(1) == ts.skip(at + item.used + 1));
                    }
                    return Ok(Json::Array(items));
                },
                Some(JsonToken::Char(JsonSyntax::Comma)) => {
                    proof {
                        assert(now.skip(item.used as int).skip(1) == now.skip(
                            item.used + 1 as int,
                        ));
                        assert(now.skip(item.used + 1 as int) == ts.skip(at + item.used + 1));
                        at = at + item.used + 1;
                    }
                },
                Some(_) => {
                    assert(now.skip(item.used as int).skip(1) == ts.skip(at + item.used + 1));
                    return Err(());
                },
                None => {
                    return Err(());
                },
            }
        }
    }

    /// Parses the value at the front of the tokens and consumes its tokens.
    /// On failure, the tokens up to the one that was refused are consumed.
    pub fn parse(&mut self) -> (result: Result<Json, ()>)
        ensures
            agrees(result, parse_value(old(self).tokens())),
            final(self).tokens() == old(self).tokens().skip(
                parse_value(old(self).tokens()).used as int,
            ),
        decreases old(self).tokens().len(), 0nat,
    {
        let ghost ts = self.tokens();
        match self.stream_in.next_token() {
            None => {
                assert(ts.skip(0) == ts);
                Err(())
            },
            Some(token) => match token {
                JsonToken::Char(JsonSyntax::LeftBrace) => {
                    let result = self.parse_object();
                    proof {
                        let rest = parse_members(ts.skip(1), Seq::empty());
                        lemma_parse_members_used(ts.skip(1), Seq::empty());
                        assert(ts.skip(1).skip(rest.used as int) == ts.skip(1 + rest.used as int));
                    }
                    result
                },
                JsonToken::Char(JsonSyntax::LeftBracket) => {
                    let result = self.parse_array();
                    proof {
                        let rest = parse_elements(ts.skip(1), Seq::empty());
                        lemma_parse_elements_used(ts.skip(1), Seq::empty());
                        assert(ts.skip(1).skip(rest.used as int) == ts.skip(1 + rest.used as int));
                    }
                    result
                },
                JsonToken::Number(text) => Ok(Json::Number(text)),
                JsonToken::String(text) => Ok(Json::String(text)),
                JsonToken::Bool(b) => Ok(Json::Bool(b)),
                JsonToken::Null => Ok(Json::Null),
                _ => Err(()),
            },
        }
    }
}

impl<I: TokenSource> JsonStream<I> {
    /// Hands out the next value of the tokens, or `None` where there is none:
    /// at the end of the tokens, and where the tokens at the front make no
    /// value. The tokens are consumed as `parse` consumes them.
    pub fn next(&mut self) -> (value: Option<Json>)
        ensures
            match parse_value(old(self).tokens()).value {
                Some(expected) => value is Some && value->Some_0@ == expected,
                None => value is None,
            },
            final(self).tokens() == old(self).tokens().skip(
                parse_value(old(self).tokens()).used as int,
            ),
    {
        match self.parse() {
            Ok(value) => Some(value),
            Err(_) => None,
        }
    }
}

/// A parse consumes no more tokens than there are, and a value takes at
/// least one.
pub proof fn lemma_parse_value_used(ts: Seq<Token>)
    ensures
        parse_value(ts).used <= ts.len(),
        parse_value(ts).value is Some ==> parse_value(ts).used > 0,
    decreases ts.len(), 0nat,
{
    if ts.len() > 0 {
        match ts[0] {
            Token::Char(JsonSyntax::LeftBrace) => {
                lemma_parse_members_used(ts.skip(1), Seq::empty());
            },
            Token::Char(JsonSyntax::LeftBracket) => {
                lemma_parse_elements_used(ts.skip(1), Seq::empty());
            },
            _ => {},
        }
    }
}

/// The rest of an object consumes no more tokens than there are.
pub proof fn lemma_parse_members_used(ts: Seq<Token>, members: Seq<MemberValue>)
    ensures
        parse_members(ts, members).used <= ts.len(),
    decreases ts.len(), 1nat,
{
    if ts.len() >= 2 && ts[0] is String && ts[1] == Token::Char(JsonSyntax::Colon) {
        let name = ts[0]->String_0;
        let member = parse_value(ts.skip(2));
        lemma_parse_value_used(ts.skip(2));
        let next = 2 + member.used;
        if member.value is Some && next < ts.len() && ts[next as int] == Token::Char(
            JsonSyntax::Comma,
        ) {
            lemma_parse_members_used(
                ts.skip(next + 1 as int),
                members.push(MemberValue { name, value: member.value->Some_0 }),
            );
        }
    }
}

/// The rest of an array consumes no more tokens than there are.
pub proof fn lemma_parse_elements_used(ts: Seq<Token>, items: Seq<JsonValue>)
    ensures
        parse_elements(ts, items).used <= ts.len(),
    decreases ts.len(), 1nat,
{
    let item = parse_value(ts);
    lemma_parse_value_used(ts);
    if item.value is Some && item.used < ts.len() && ts[item.used as int] == Token::Char(
        JsonSyntax::Comma,
    ) {
        lemma_parse_elements_used(ts.skip(item.used + 1 as int), items.push(item.value->Some_0));
    }
}

} // verus!
