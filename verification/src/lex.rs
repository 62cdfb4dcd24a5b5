//! The lexer: from characters to tokens, one token for each call.

use vstd::prelude::*;
use vstd::string::StringExecFns;
use crate::number::{is_digit, is_number_char, is_number_text};
use crate::number::{check_number_text, is_digit_char, is_number_character};
use crate::text::{same_text, string_of};

verus! {

/// The six structural characters of JSON.
#[derive(Clone, Copy, Debug, PartialEq, Eq, Structural)]
pub enum JsonSyntax {
    LeftBrace,
    RightBrace,
    LeftBracket,
    RightBracket,
    Colon,
    Comma,
}

/// What the lexer hands out. A number is kept as the text it was written
/// with, which `is_number_text` accepts; a string is the raw text between its
/// quotes, with no escape decoded.
#[derive(Debug, PartialEq, Eq)]
pub enum JsonToken {
    Char(JsonSyntax),
    String(String),
    Number(String),
    Bool(bool),
    Null,
    LexError { reason: String },
}

/// A token as a mathematical value: the view of a `JsonToken`.
pub ghost enum Token {
    Char(JsonSyntax),
    String(Seq<char>),
    Number(Seq<char>),
    Bool(bool),
    Null,
    LexError { reason: Seq<char> },
}

impl View for JsonToken {
    type V = Token;

    open spec fn view(&self) -> Token {
        match self {
            JsonToken::Char(k) => Token::Char(*k),
            JsonToken::String(s) => Token::String(s@),
            JsonToken::Number(s) => Token::Number(s@),
            JsonToken::Bool(b) => Token::Bool(*b),
            JsonToken::Null => Token::Null,
            JsonToken::LexError { reason } => Token::LexError { reason: reason@ },
        }
    }
}

/// The whitespace between tokens.
pub open spec fn is_space(c: char) -> bool {
    c == ' ' || c == '\n' || c == '\t' || c == '\r'
}

/// The sets of characters that the lexer reads in runs.
#[derive(Clone, Copy, Debug, PartialEq, Eq, Structural)]
pub enum CharClass {
    /// Space, tab, newline, carriage return.
    Space,
    /// Whatever may stand inside a string: all but the double quote.
    Text,
    /// Digits, `.`, `e`, `E` and `-`.
    Number,
}

impl CharClass {
    /// Whether `c` is of this class.
    pub open spec fn holds(self, c: char) -> bool {
        match self {
            CharClass::Space => is_space(c),
            CharClass::Text => c != '"',
            CharClass::Number => is_number_char(c),
        }
    }

    /// Whether `c` is of this class.
    pub fn has(self, c: char) -> (r: bool)
        ensures
            r == self.holds(c),
    {
        match self {
            CharClass::Space => c == ' ' || c == '\n' || c == '\t' || c == '\r',
            CharClass::Text => c != '"',
            CharClass::Number => is_number_character(c),
        }
    }
}

/// How many characters of `class` stand at the front of `s`.
pub open spec fn run_len(s: Seq<char>, class: CharClass) -> nat
    decreases s.len(),
{
    if s.len() > 0 && class.holds(s[0]) {
        1 + run_len(s.skip(1), class)
    } else {
        0
    }
}

/// A run lies inside `s`, holds characters of `class` only, and ends at the
/// first character of another kind.
pub proof fn lemma_run_len(s: Seq<char>, class: CharClass)
    ensures
        run_len(s, class) <= s.len(),
        forall|i: int| 0 <= i < run_len(s, class) ==> class.holds(#[trigger] s[i]),
        run_len(s, class) < s.len() ==> !class.holds(s[run_len(s, class) as int]),
    decreases s.len(),
{
    if s.len() > 0 && class.holds(s[0]) {
        let t = s.skip(1);
        lemma_run_len(t, class);
        assert forall|i: int| 0 <= i < run_len(s, class) implies class.holds(#[trigger] s[i]) by {
            if i > 0 {
                assert(s[i] == t[i - 1]);
            }
        }
        if run_len(s, class) < s.len() {
            assert(s[run_len(s, class) as int] == t[run_len(t, class) as int]);
        }
    }
}

/// The reason that comes with a number's text that is no number.
pub open spec fn number_error(text: Seq<char>) -> Seq<char> {
    "Unable to lex "@ + text + " as a number"@
}

/// The reason that comes with a character that begins no token.
pub open spec fn character_error(c: char) -> Seq<char> {
    "Found invalid character during lexing: "@.push(c)
}

/// A token and the number of characters that it took.
pub ghost struct Lexeme {
    pub token: Token,
    pub used: nat,
}

/// The token for one of the words `null`, `true` and `false` at the front of
/// `s`: as many characters as the word has are taken, or all of `s` if it is
/// shorter, and they must be the word's.
pub open spec fn lex_word(s: Seq<char>, word: Seq<char>, token: Token, reason: Seq<char>) -> Lexeme {
    let used = if s.len() < word.len() {
        s.len()
    } else {
        word.len()
    };
    Lexeme {
        token: if s.take(used as int) == word {
            token
        } else {
            Token::LexError { reason }
        },
        used,
    }
}

/// The token at the front of `s`, which begins with a character that is no
/// whitespace.
pub open spec fn lex_token(s: Seq<char>) -> Lexeme
    recommends
        s.len() > 0,
{
    let c = s[0];
    let rest = s.skip(1);
    if c == '"' {
        let n = run_len(rest, CharClass::Text);
        Lexeme {
            token: Token::String(rest.take(n as int)),
            used: if n < rest.len() {
                n + 2
            } else {
                n + 1
            },
        }
    } else if c == '-' || is_digit(c) {
        let used = 1 + run_len(rest, CharClass::Number);
        let text = s.take(used as int);
        Lexeme {
            token: if is_number_text(text) {
                Token::Number(text)
            } else {
                Token::LexError { reason: number_error(text) }
            },
            used,
        }
    } else if c == 'n' {
        lex_word(s, "null"@, Token::Null, "Expected null value"@)
    } else if c == 't' {
        lex_word(s, "true"@, Token::Bool(true), "Expected boolean true value"@)
    } else if c == 'f' {
        lex_word(s, "false"@, Token::Bool(false), "Expected boolean false value"@)
    } else {
        Lexeme {
            token: match structural(c) {
                Some(kind) => Token::Char(kind),
                None => Token::LexError { reason: character_error(c) },
            },
            used: 1,
        }
    }
}

/// The structural token that `c` stands for, if it is one.
pub open spec fn structural(c: char) -> Option<JsonSyntax> {
    if c == '{' {
        Some(JsonSyntax::LeftBrace)
    } else if c == '}' {
        Some(JsonSyntax::RightBrace)
    } else if c == '[' {
        Some(JsonSyntax::LeftBracket)
    } else if c == ']' {
        Some(JsonSyntax::RightBracket)
    } else if c == ':' {
        Some(JsonSyntax::Colon)
    } else if c == ',' {
        Some(JsonSyntax::Comma)
    } else {
        None
    }
}

/// The first token of `s` and the number of characters up to its end, the
/// whitespace before it included; `None` where `s` holds whitespace only.
pub open spec fn lex_next(s: Seq<char>) -> Option<Lexeme> {
    let space = run_len(s, CharClass::Space);
    if space >= s.len() {
        None
    } else {
        let found = lex_token(s.skip(space as int));
        Some(Lexeme { token: found.token, used: space + found.used })
    }
}

/// A token takes at least one character and no more than there are.
pub proof fn lemma_lex_next_used(s: Seq<char>)
    ensures
        lex_next(s) matches Some(found) ==> 0 < found.used <= s.len(),
{
    lemma_run_len(s, CharClass::Space);
    let space = run_len(s, CharClass::Space);
    if space < s.len() {
        let t = s.skip(space as int);
        lemma_run_len(t.skip(1), CharClass::Text);
        lemma_run_len(t.skip(1), CharClass::Number);
        reveal_strlit("null");
        reveal_strlit("true");
        reveal_strlit("false");
    }
}

/// All the tokens of `s`, in order.
pub open spec fn lex_all(s: Seq<char>) -> Seq<Token>
    decreases s.len(),
{
    match lex_next(s) {
        None => Seq::empty(),
        Some(found) => {
            proof {
                lemma_lex_next_used(s);
            }
            seq![found.token] + lex_all(s.skip(found.used as int))
        },
    }
}

/// A source of characters that hands them out one at a time, each once.
pub trait CharSource: Sized {
    /// The characters that are still to come, in order.
    spec fn chars(&self) -> Seq<char>;

    /// Hands out the next character, or `None` at the end of the source.
    fn next_char(&mut self) -> (c: Option<char>)
        ensures
            old(self).chars().len() == 0 ==> c is None && final(self).chars() == old(self).chars(),
            old(self).chars().len() > 0 ==> c == Some(old(self).chars()[0]) && final(self).chars()
                == old(self).chars().skip(1),
    ;
}

/// What every source of characters can do: become a lexer.
pub trait Tokenizable: CharSource {
    /// Puts a lexer on top of this source.
    fn tokenize(self) -> (stream: TokenStream<Self>)
        ensures
            stream.chars() == self.chars(),
    {
        TokenStream { stream_in: self, pending: None }
    }
}

impl<T: CharSource> Tokenizable for T {

}

/// The lexer over a source of characters. It holds at most one character
/// that it has pulled from the source and not yet used.
pub struct TokenStream<I> {
    stream_in: I,
    pending: Option<char>,
}

impl<I: CharSource> TokenStream<I> {
    /// The characters that the lexer has yet to read, in order.
    pub closed spec fn chars(&self) -> Seq<char> {
        match self.pending {
            Some(c) => seq![c] + self.stream_in.chars(),
            None => self.stream_in.chars(),
        }
    }

    /// The next character, from the pending one or from the source.
    fn pull(&mut self) -> (c: Option<char>)
        ensures
            final(self).pending is None,
            old(self).chars().len() == 0 ==> c is None && final(self).chars() == old(self).chars(),
            old(self).chars().len() > 0 ==> c == Some(old(self).chars()[0]) && final(self).chars()
                == old(self).chars().skip(1),
    {
        match self.pending {
            Some(c) => {
                self.pending = None;
                assert(old(self).chars().skip(1) == self.stream_in.chars());
                Some(c)
            },
            None => self.stream_in.next_char(),
        }
    }

    /// Skips the whitespace at the front and hands out the character that
    /// follows it, or `None` where nothing follows.
    fn first_char(&mut self) -> (c: Option<char>)
        ensures
            ({
                let s = old(self).chars();
                let space = run_len(s, CharClass::Space);
                if space >= s.len() {
                    c is None && final(self).chars() == Seq::<char>::empty()
                } else {
                    c == Some(s[space as int]) && final(self).chars() == s.skip(space + 1 as int)
                }
            }),
    {
        let ghost s = self.chars();
        let ghost mut seen: int = 0;
        loop
            invariant
                s == old(self).chars(),
                0 <= seen <= s.len(),
                self.chars() == s.skip(seen),
                run_len(s, CharClass::Space) == seen + run_len(self.chars(), CharClass::Space),
            decreases s.len() - seen,
        {
            match self.pull() {
                None => {
                    assert(self.chars() == Seq::<char>::empty());
                    return None;
                },
                Some(c) => {
                    if !CharClass::Space.has(c) {
                        assert(s.skip(seen).skip(1) == s.skip(seen + 1));
                        return Some(c);
                    }
                    proof {
                        assert(s.skip(seen).skip(1) == s.skip(seen + 1));
                        seen = seen + 1;
                    }
                },
            }
        }
    }

    /// Reads the longest run of characters of `class` at the front and hands
    /// it out behind `head`. The character that ends the run stays unread.
    fn read_run(&mut self, class: CharClass, head: Vec<char>) -> (run: Vec<char>)
        ensures
            run@ == head@ + old(self).chars().take(run_len(old(self).chars(), class) as int),
            final(self).chars() == old(self).chars().skip(run_len(old(self).chars(), class) as int),
    {
        let ghost s = self.chars();
        let ghost mut n: int = 0;
        let mut run: Vec<char> = head;
        assert(s.take(0) == Seq::<char>::empty());
        loop
            invariant
                s == old(self).chars(),
                0 <= n <= s.len(),
                run@ == head@ + s.take(n),
                self.chars() == s.skip(n),
                run_len(s, class) == n + run_len(self.chars(), class),
            decreases s.len() - n,
        {
            match self.pull() {
                None => {
                    return run;
                },
                Some(c) => {
                    if !class.has(c) {
                        self.pending = Some(c);
                        assert(self.chars() == s.skip(n));
                        return run;
                    }
                    run.push(c);
                    proof {
                        assert(s.skip(n).skip(1) == s.skip(n + 1));
                        assert(s.take(n + 1) == s.take(n).push(s[n]));
                        n = n + 1;
                    }
                },
            }
        }
    }

    /// Reads `limit` characters, or all that are left if they are fewer, and
    /// hands them out behind `head`.
    fn read_upto(&mut self, limit: usize, head: Vec<char>) -> (read: Vec<char>)
        ensures
            ({
                let s = old(self).chars();
                let n = if s.len() < limit {
                    s.len() as int
                } else {
                    limit as int
                };
                read@ == head@ + s.take(n) && final(self).chars() == s.skip(n)
            }),
    {
        let ghost s = self.chars();
        let mut read: Vec<char> = head;
        let mut n: usize = 0;
        assert(s.take(0) == Seq::<char>::empty());
        while n < limit
            invariant
                s == old(self).chars(),
                n <= s.len(),
                n <= limit,
                read@ == head@ + s.take(n as int),
                self.chars() == s.skip(n as int),
            decreases limit - n,
        {
            match self.pull() {
                None => {
                    return read;
                },
                Some(c) => {
                    read.push(c);
                    proof {
                        assert(s.skip(n as int).skip(1) == s.skip(n + 1));
                        assert(s.take(n + 1) == s.take(n as int).push(s[n as int]));
                    }
                    n += 1;
                },
            }
        }
        read
    }

    /// Reads what is left of the word that began with `first` and hands out
    /// `token` if the word's characters came, an error with `reason` if not.
    fn read_word(&mut self, first: char, word: &str, token: JsonToken, reason: &str) -> (found:
        JsonToken)
        requires
            word@.len() > 0,
        ensures
            ({
                let s = seq![first] + old(self).chars();
                let expected = lex_word(s, word@, token@, reason@);
                found@ == expected.token && final(self).chars() == s.skip(expected.used as int)
            }),
    {
        let ghost s = seq![first] + self.chars();
        let mut head: Vec<char> = Vec::new();
        head.push(first);
        let read = self.read_upto(word.unicode_len() - 1, head);
        proof {
            let rest = old(self).chars();
            let n = if rest.len() < word@.len() - 1 {
                rest.len() as int
            } else {
                word@.len() - 1
            };
            assert(s.skip(1) == rest);
            assert(s.take(n + 1) == seq![first] + rest.take(n));
            assert(s.skip(n + 1) == rest.skip(n));
        }
        if same_text(&read, word) {
            token
        } else {
            JsonToken::LexError { reason: String::from_str(reason) }
        }
    }

    /// Reads what is left of the number that began with `first`.
    fn read_number(&mut self, first: char) -> (found: JsonToken)
        ensures
            ({
                let s = seq![first] + old(self).chars();
                let used = 1 + run_len(old(self).chars(), CharClass::Number);
                let text = s.take(used as int);
                &&& found@ == (if is_number_text(text) {
                    Token::Number(text)
                } else {
                    Token::LexError { reason: number_error(text) }
                })
                &&& final(self).chars() == s.skip(used as int)
            }),
    {
        let ghost s = seq![first] + self.chars();
        let ghost used = 1 + run_len(self.chars(), CharClass::Number);
        let mut head: Vec<char> = Vec::new();
        head.push(first);
        let read = self.read_run(CharClass::Number, head);
        proof {
            let rest = old(self).chars();
            lemma_run_len(rest, CharClass::Number);
            assert(s.skip(1) == rest);
            assert(s.take(used as int) == seq![first] + rest.take(used - 1));
            assert(s.skip(used as int) == rest.skip(used - 1));
        }
        let text = string_of(&read);
        if check_number_text(&read) {
            JsonToken::Number(text)
        } else {
            let mut reason = String::from_str("Unable to lex ");
            reason.append(text.as_str());
            reason.append(" as a number");
            JsonToken::LexError { reason }
        }
    }

    /// Reads what is left of the string whose opening quote was read, the
    /// closing quote included. A string that the source ends in is taken as
    /// far as it goes.
    fn read_string(&mut self) -> (found: JsonToken)
        ensures
            ({
                let rest = old(self).chars();
                let n = run_len(rest, CharClass::Text);
                &&& found@ == Token::String(rest.take(n as int))
                &&& final(self).chars() == rest.skip(
                    if n < rest.len() {
                        n as int + 1
                    } else {
                        n as int
                    },
                )
            }),
    {
        let ghost rest = self.chars();
        let ghost n = run_len(rest, CharClass::Text) as int;
        let read = self.read_run(CharClass::Text, Vec::new());
        let _ = self.pull();
        proof {
            lemma_run_len(rest, CharClass::Text);
            if n < rest.len() {
                assert(rest.skip(n).skip(1) == rest.skip(n + 1));
            }
            assert(read@ == rest.take(n));
        }
        JsonToken::String(string_of(&read))
    }

    /// Reads what is left of the token that began with `first`.
    fn read_token(&mut self, first: char) -> (found: JsonToken)
        ensures
            ({
                let s = seq![first] + old(self).chars();
                &&& found@ == lex_token(s).token
                &&& 0 < lex_token(s).used <= s.len()
                &&& final(self).chars() == s.skip(lex_token(s).used as int)
            }),
    {
        let ghost s = seq![first] + self.chars();
        proof {
            assert(s.skip(1) == self.chars());
            lemma_run_len(s.skip(1), CharClass::Text);
            lemma_run_len(s.skip(1), CharClass::Number);
            reveal_strlit("null");
            reveal_strlit("true");
            reveal_strlit("false");
        }
        if first == '"' {
            let found = self.read_string();
            proof {
                let rest = s.skip(1);
                let n = run_len(rest, CharClass::Text) as int;
                if n < rest.len() {
                    assert(s.skip(n + 2) == rest.skip(n + 1));
                } else {
                    assert(s.skip(n + 1) == rest.skip(n));
                }
            }
            found
        } else if first == '-' || is_digit_char(first) {
            self.read_number(first)
        } else if first == 'n' {
            self.read_word(first, "null", JsonToken::Null, "Expected null value")
        } else if first == 't' {
            self.read_word(first, "true", JsonToken::Bool(true), "Expected boolean true value")
        } else if first == 'f' {
            self.read_word(first, "false", JsonToken::Bool(false), "Expected boolean false value")
        } else {
            match structural_of(first) {
                Some(kind) => JsonToken::Char(kind),
                None => {
                    let mut reason = String::from_str("Found invalid character during lexing: ");
                    reason.push(first);
                    JsonToken::LexError { reason }
                },
            }
        }
    }

    /// Hands out the next token, or `None` when only whitespace is left. The
    /// characters of the token and the whitespace before it are consumed, and
    /// no others.
    pub fn next(&mut self) -> (token: Option<JsonToken>)
        ensures
            match lex_next(old(self).chars()) {
                Some(found) => {
                    &&& token is Some
                    &&& token.unwrap()@ == found.token
                    &&& final(self).chars() == old(self).chars().skip(found.used as int)
                },
                None => token is None && final(self).chars() == Seq::<char>::empty(),
            },
    {
        let ghost s = self.chars();
        let ghost space = run_len(s, CharClass::Space) as int;
        let first = match self.first_char() {
            None => {
                return None;
            },
            Some(c) => c,
        };
        let ghost t = s.skip(space);
        proof {
            lemma_run_len(s, CharClass::Space);
            assert(t == seq![first] + self.chars());
        }
        let found = self.read_token(first);
        proof {
            let used = lex_token(t).used as int;
            assert(t.skip(used) == s.skip(space + used));
        }
        Some(found)
    }
}

/// The structural token that `c` stands for, if it is one.
pub fn structural_of(c: char) -> (kind: Option<JsonSyntax>)
    ensures
        kind == structural(c),
{
    if c == '{' {
        Some(JsonSyntax::LeftBrace)
    } else if c == '}' {
        Some(JsonSyntax::RightBrace)
    } else if c == '[' {
        Some(JsonSyntax::LeftBracket)
    } else if c == ']' {
        Some(JsonSyntax::RightBracket)
    } else if c == ':' {
        Some(JsonSyntax::Colon)
    } else if c == ',' {
        Some(JsonSyntax::Comma)
    } else {
        None
    }
}

/// A source of tokens that hands them out one at a time, each once.
pub trait TokenSource: Sized {
    /// The tokens that are still to come, in order.
    spec fn tokens(&self) -> Seq<Token>;

    /// Hands out the next token, or `None` at the end of the source.
    fn next_token(&mut self) -> (token: Option<JsonToken>)
        ensures
            old(self).tokens().len() == 0 ==> token is None && final(self).tokens() == old(
                self,
            ).tokens(),
            old(self).tokens().len() > 0 ==> token is Some && token.unwrap()@ == old(
                self,
            ).tokens()[0] && final(self).tokens() == old(self).tokens().skip(1),
    ;
}

impl<I: CharSource> TokenSource for TokenStream<I> {
    /// The tokens of the characters that the lexer has yet to read.
    open spec fn tokens(&self) -> Seq<Token> {
        lex_all(self.chars())
    }

    fn next_token(&mut self) -> (token: Option<JsonToken>) {
        let token = self.next();
        proof {
            let s = old(self).chars();
            match lex_next(s) {
                Some(found) => {
                    lemma_lex_next_used(s);
                    assert(lex_all(s).skip(1) == lex_all(s.skip(found.used as int)));
                },
                None => {
                    assert(lex_next(Seq::<char>::empty()) is None);
                },
            }
        }
        token
    }
}

} // verus!
