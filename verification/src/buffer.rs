//! Sources that hand out what a `Vec` holds.

use vstd::prelude::*;
use crate::lex::{CharSource, JsonToken, Token, TokenSource};

verus! {

/// A source of characters over a `Vec` of them.
pub struct CharBuffer {
    chars: Vec<char>,
    at: usize,
}

impl CharBuffer {
    /// A source that hands out the characters of `chars`, in order.
    pub fn new(chars: Vec<char>) -> (buffer: Self)
        ensures
            buffer.chars() == chars@,
    {
        let buffer = CharBuffer { chars, at: 0 };
        assert(buffer.chars@.skip(0) == buffer.chars@);
        buffer
    }
}

impl CharSource for CharBuffer {
    closed spec fn chars(&self) -> Seq<char> {
        if self.at < self.chars.len() {
            self.chars@.skip(self.at as int)
        } else {
            Seq::empty()
        }
    }

    fn next_char(&mut self) -> (c: Option<char>) {
        if self.at < self.chars.len() {
            let c = self.chars[self.at];
            self.at += 1;
            assert(old(self).chars@.skip(old(self).at as int).skip(1) == self.chars@.skip(
                self.at as int,
            ));
            Some(c)
        } else {
            None
        }
    }
}

/// A source of tokens over a `Vec` of them. The tokens are held last first,
/// so that the next one can be moved out from the end.
pub struct TokenBuffer {
    stack: Vec<JsonToken>,
}

impl TokenBuffer {
    /// A source that hands out the tokens of `tokens`, in order.
    pub fn new(tokens: Vec<JsonToken>) -> (buffer: Self)
        ensures
            buffer.tokens() == tokens@.map_values(|t: JsonToken| t@),
    {
        let mut tokens = tokens;
        let ghost all = tokens@;
        let mut stack: Vec<JsonToken> = Vec::new();
        while tokens.len() > 0
            invariant
                tokens.len() + stack.len() == all.len(),
                tokens@ == all.take(tokens.len() as int),
                forall|i: int| 0 <= i < stack.len() ==> stack[i] == all[all.len() - 1 - i],
            decreases tokens.len(),
        {
            let token = tokens.pop().unwrap();
            stack.push(token);
        }
        let buffer = TokenBuffer { stack };
        assert(buffer.tokens() == all.map_values(|t: JsonToken| t@));
        buffer
    }
}

impl TokenSource for TokenBuffer {
    closed spec fn tokens(&self) -> Seq<Token> {
        Seq::new(self.stack.len() as nat, |i: int| self.stack[self.stack.len() - 1 - i]@)
    }

    fn next_token(&mut self) -> (token: Option<JsonToken>) {
        let token = self.stack.pop();
        assert(token is Some ==> old(self).tokens().skip(1) == self.tokens());
        token
    }
}

} // verus!
