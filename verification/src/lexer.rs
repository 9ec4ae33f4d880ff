//! The lexer turns raw Warden source text into a flat stream of `Token`s.
//! It knows nothing about grammar — it doesn't know that `let` must be
//! followed by an identifier. It only knows "these characters form this
//! kind of token." That separation is what makes the parser (next step)
//! simple: it only has to think about structure, never about characters.

use vstd::prelude::*;
use crate::number::{canonical, dot_from, first_dot, has_two_dots, is_digit, Number};
use crate::text::{
    char_is_alphabetic, char_is_alphanumeric, char_is_whitespace, is_alphabetic_char,
    is_numeric_char, is_whitespace_char, push_char, string_of,
};

verus! {

#[derive(Debug, PartialEq)]
pub enum Token {
    // Literals
    Ident(String),
    Number(Number),
    // Keywords
    Let,
    Fn,
    Print,
    Struct,
    If,
    Else,
    While,
    // Symbols
    Equals,  // =
    Semicolon,  // ;
    LParen,  // (
    RParen,  // )
    LBrace,  // {
    RBrace,  // }
    Comma,  // ,
    Dot,  // .
    Colon,  // :
    Eof,
}

/// The model of a token.
pub enum SToken {
    Ident(Seq<char>),
    Number(Seq<char>),
    Let,
    Fn,
    Print,
    Struct,
    If,
    Else,
    While,
    Equals,
    Semicolon,
    LParen,
    RParen,
    LBrace,
    RBrace,
    Comma,
    Dot,
    Colon,
    Eof,
}

impl View for Token {
    type V = SToken;

    open spec fn view(&self) -> SToken {
        match self {
            Token::Ident(s) => SToken::Ident(s@),
            Token::Number(n) => SToken::Number(n@),
            Token::Let => SToken::Let,
            Token::Fn => SToken::Fn,
            Token::Print => SToken::Print,
            Token::Struct => SToken::Struct,
            Token::If => SToken::If,
            Token::Else => SToken::Else,
            Token::While => SToken::While,
            Token::Equals => SToken::Equals,
            Token::Semicolon => SToken::Semicolon,
            Token::LParen => SToken::LParen,
            Token::RParen => SToken::RParen,
            Token::LBrace => SToken::LBrace,
            Token::RBrace => SToken::RBrace,
            Token::Comma => SToken::Comma,
            Token::Dot => SToken::Dot,
            Token::Colon => SToken::Colon,
            Token::Eof => SToken::Eof,
        }
    }
}

/// The views of a list of tokens.
pub open spec fn tokens_view(v: Seq<Token>) -> Seq<SToken> {
    Seq::new(v.len(), |i: int| v[i]@)
}

/// The token that a one-character symbol stands for.
pub open spec fn symbol_token(c: char) -> Option<SToken> {
    if c == '=' {
        Some(SToken::Equals)
    } else if c == ';' {
        Some(SToken::Semicolon)
    } else if c == '(' {
        Some(SToken::LParen)
    } else if c == ')' {
        Some(SToken::RParen)
    } else if c == '{' {
        Some(SToken::LBrace)
    } else if c == '}' {
        Some(SToken::RBrace)
    } else if c == ',' {
        Some(SToken::Comma)
    } else if c == '.' {
        Some(SToken::Dot)
    } else if c == ':' {
        Some(SToken::Colon)
    } else {
        None
    }
}

/// The index of the first line break at or after `i`, or `s.len()`.
pub open spec fn line_end(s: Seq<char>, i: int) -> int
    decreases s.len() - i,
{
    if i < 0 || i >= s.len() {
        s.len() as int
    } else if s[i] == '\n' {
        i
    } else {
        line_end(s, i + 1)
    }
}

/// The first index at or after `i` that is neither white space nor in a
/// `//` comment.
pub open spec fn skip_trivia(s: Seq<char>, i: int) -> int
    decreases s.len() - i,
{
    if i < 0 || i >= s.len() {
        i
    } else if is_whitespace_char(s[i]) {
        skip_trivia(s, i + 1)
    } else if s[i] == '/' && i + 1 < s.len() && s[i + 1] == '/' {
        proof {
            lemma_line_end_bounds(s, i + 1);
        }
        skip_trivia(s, line_end(s, i + 1))
    } else {
        i
    }
}

/// The end of the run of digits and dots that starts at `i`.
pub open spec fn literal_end(s: Seq<char>, i: int) -> int
    decreases s.len() - i,
{
    if 0 <= i < s.len() && (is_digit(s[i]) || s[i] == '.') {
        literal_end(s, i + 1)
    } else {
        i
    }
}

/// The end of the run of letters, digits and underscores that starts at `i`.
pub open spec fn word_end(s: Seq<char>, i: int) -> int
    decreases s.len() - i,
{
    if 0 <= i < s.len() && (is_alphabetic_char(s[i]) || is_numeric_char(s[i]) || s[i] == '_') {
        word_end(s, i + 1)
    } else {
        i
    }
}

/// The token a word stands for: a keyword, or else an identifier.
pub open spec fn keyword_or_ident(w: Seq<char>) -> SToken {
    if w == "let"@ {
        SToken::Let
    } else if w == "fn"@ {
        SToken::Fn
    } else if w == "print"@ {
        SToken::Print
    } else if w == "struct"@ {
        SToken::Struct
    } else if w == "if"@ {
        SToken::If
    } else if w == "else"@ {
        SToken::Else
    } else if w == "while"@ {
        SToken::While
    } else {
        SToken::Ident(w)
    }
}

/// What lexing the text from some position on comes to.
pub enum LexOutcome {
    /// The tokens, the last of them `Eof`.
    Tokens(Seq<SToken>),
    /// The index of a character that starts no token.
    BadChar(int),
    /// The index where a number literal with two dots or more starts; the
    /// conversion of such a literal to a number fails.
    BadNumber(int),
}

/// `ts`, then what `o` lexes.
pub open spec fn after_tokens(ts: Seq<SToken>, o: LexOutcome) -> LexOutcome {
    match o {
        LexOutcome::Tokens(rest) => LexOutcome::Tokens(ts + rest),
        other => other,
    }
}

/// What lexing `s` from index `pos` on comes to.
pub open spec fn lex_from(s: Seq<char>, pos: int) -> LexOutcome
    decreases s.len() - pos,
{
    let p = skip_trivia(s, pos);
    if p < 0 || p >= s.len() {
        LexOutcome::Tokens(seq![SToken::Eof])
    } else {
        proof {
            lemma_skip_trivia_bounds(s, pos);
        }
        let c = s[p];
        match symbol_token(c) {
            Some(t) => after_tokens(seq![t], lex_from(s, p + 1)),
            None => if is_digit(c) {
                let e = literal_end(s, p);
                proof {
                    lemma_literal_end_bounds(s, p);
                }
                if has_two_dots(s.subrange(p, e)) {
                    LexOutcome::BadNumber(p)
                } else {
                    after_tokens(seq![SToken::Number(canonical(s.subrange(p, e)))], lex_from(s, e))
                }
            } else if is_alphabetic_char(c) || c == '_' {
                let e = word_end(s, p);
                proof {
                    lemma_word_end_bounds(s, p);
                }
                after_tokens(seq![keyword_or_ident(s.subrange(p, e))], lex_from(s, e))
            } else {
                LexOutcome::BadChar(p)
            },
        }
    }
}

/// The error text for a character that starts no token.
pub open spec fn unexpected_char_message(c: char) -> Seq<char> {
    "unexpected character: '"@ + seq![c] + "'"@
}

pub proof fn lemma_line_end_bounds(s: Seq<char>, i: int)
    requires
        0 <= i,
    ensures
        i <= line_end(s, i) <= s.len() || (i > s.len() && line_end(s, i) == s.len()),
    decreases s.len() - i,
{
    if i < s.len() && s[i] != '\n' {
        lemma_line_end_bounds(s, i + 1);
    }
}

pub proof fn lemma_skip_trivia_bounds(s: Seq<char>, i: int)
    ensures
        i <= skip_trivia(s, i),
        0 <= i <= s.len() ==> skip_trivia(s, i) <= s.len(),
    decreases s.len() - i,
{
    if 0 <= i < s.len() {
        if is_whitespace_char(s[i]) {
            lemma_skip_trivia_bounds(s, i + 1);
        } else if s[i] == '/' && i + 1 < s.len() && s[i + 1] == '/' {
            lemma_line_end_bounds(s, i + 1);
            lemma_skip_trivia_bounds(s, line_end(s, i + 1));
        }
    }
}

pub proof fn lemma_literal_end_bounds(s: Seq<char>, i: int)
    requires
        0 <= i < s.len(),
        is_digit(s[i]),
    ensures
        i < literal_end(s, i) <= s.len(),
        forall|k: int| i <= k < literal_end(s, i) ==> is_digit(#[trigger] s[k]) || s[k] == '.',
    decreases s.len() - i,
{
    lemma_literal_end_from(s, i + 1);
}

proof fn lemma_literal_end_from(s: Seq<char>, i: int)
    requires
        0 <= i <= s.len(),
    ensures
        i <= literal_end(s, i) <= s.len(),
        forall|k: int| i <= k < literal_end(s, i) ==> is_digit(#[trigger] s[k]) || s[k] == '.',
    decreases s.len() - i,
{
    if i < s.len() && (is_digit(s[i]) || s[i] == '.') {
        lemma_literal_end_from(s, i + 1);
    }
}

pub proof fn lemma_word_end_bounds(s: Seq<char>, i: int)
    requires
        0 <= i < s.len(),
        is_alphabetic_char(s[i]) || s[i] == '_',
    ensures
        i < word_end(s, i) <= s.len(),
{
    lemma_word_end_from(s, i + 1);
}

proof fn lemma_word_end_from(s: Seq<char>, i: int)
    requires
        0 <= i <= s.len(),
    ensures
        i <= word_end(s, i) <= s.len(),
    decreases s.len() - i,
{
    if i < s.len() && (is_alphabetic_char(s[i]) || is_numeric_char(s[i]) || s[i] == '_') {
        lemma_word_end_from(s, i + 1);
    }
}

/// Lexing that succeeds gives a list of tokens that ends with `Eof`, and
/// holds `Eof` nowhere else.
pub proof fn law_lexed_tokens_end_with_eof(s: Seq<char>, pos: int)
    ensures
        lex_from(s, pos) matches LexOutcome::Tokens(ts) ==> {
            &&& ts.len() > 0
            &&& ts.last() == SToken::Eof
            &&& forall|i: int| 0 <= i < ts.len() - 1 ==> ts[i] != SToken::Eof
        },
    decreases s.len() - pos,
{
    let p = skip_trivia(s, pos);
    if 0 <= p < s.len() {
        lemma_skip_trivia_bounds(s, pos);
        let c = s[p];
        let next = match symbol_token(c) {
            Some(t) => p + 1,
            None => if is_digit(c) {
                lemma_literal_end_bounds(s, p);
                literal_end(s, p)
            } else if is_alphabetic_char(c) || c == '_' {
                lemma_word_end_bounds(s, p);
                word_end(s, p)
            } else {
                p
            },
        };
        if next > p {
            law_lexed_tokens_end_with_eof(s, next);
            match lex_from(s, pos) {
                LexOutcome::Tokens(ts) => {
                    let rest = lex_from(s, next)->Tokens_0;
                    assert(ts =~= seq![ts[0]] + rest);
                    assert(ts[0] != SToken::Eof);
                    assert forall|i: int| 0 <= i < ts.len() - 1 implies ts[i] != SToken::Eof by {
                        if i > 0 {
                            assert(ts[i] == rest[i - 1]);
                        }
                    }
                },
                _ => {},
            }
        }
    }
}

pub struct Lexer {
    chars: Vec<char>,
    pos: usize,
}

impl Lexer {
    #[verifier::type_invariant]
    spec fn wf(self) -> bool {
        self.pos <= self.chars.len()
    }

    /// The source text, as characters.
    pub closed spec fn source(&self) -> Seq<char> {
        self.chars@
    }

    /// The index of the next character to read.
    pub closed spec fn position(&self) -> int {
        self.pos as int
    }

    pub fn new(source: &str) -> (l: Self)
        ensures
            l.source() == source@,
            l.position() == 0,
    {
        Lexer { chars: crate::text::chars_of(source), pos: 0 }
    }

    fn peek(&self) -> (r: Option<char>)
        ensures
            r == (if self.position() < self.source().len() {
                Some(self.source()[self.position()])
            } else {
                None
            }),
    {
        if self.pos < self.chars.len() {
            Some(self.chars[self.pos])
        } else {
            None
        }
    }

    fn advance(&mut self) -> (r: Option<char>)
        requires
            old(self).position() < old(self).source().len(),
        ensures
            final(self).source() == old(self).source(),
            final(self).position() == old(self).position() + 1,
            r == Some(old(self).source()[old(self).position()]),
    {
        proof {
            use_type_invariant(&*self);
        }
        let c = self.peek();
        self.pos = self.pos + 1;
        c
    }

    fn skip_whitespace_and_comments(&mut self)
        ensures
            final(self).source() == old(self).source(),
            final(self).position() == skip_trivia(old(self).source(), old(self).position()),
    {
        proof {
            use_type_invariant(&*self);
        }
        let ghost s = self.source();
        let ghost p0 = self.position();
        loop
            invariant_except_break
                self.source() == s,
                0 <= self.position() <= s.len(),
                skip_trivia(s, p0) == skip_trivia(s, self.position()),
            ensures
                self.source() == s,
                self.position() == skip_trivia(s, p0),
            decreases s.len() - self.position(),
        {
            proof {
                use_type_invariant(&*self);
            }
            let c = match self.peek() {
                Some(c) => c,
                None => break,
            };
            if char_is_whitespace(c) {
                self.advance();
            } else if c == '/' && self.pos + 1 < self.chars.len() && self.chars[self.pos + 1] == '/' {
                // Line comment: skip to end of line (or end of file).
                let ghost start = self.position();
                self.advance();
                proof {
                    lemma_line_end_bounds(s, start + 1);
                }
                loop
                    invariant_except_break
                        self.source() == s,
                        start < self.position() <= s.len(),
                        line_end(s, start + 1) == line_end(s, self.position()),
                    ensures
                        self.source() == s,
                        self.position() == line_end(s, start + 1),
                    decreases s.len() - self.position(),
                {
                    proof {
                        use_type_invariant(&*self);
                    }
                    match self.peek() {
                        Some(c) => {
                            if c == '\n' {
                                break;
                            }
                            self.advance();
                        },
                        None => break,
                    }
                }
            } else {
                break;
            }
        }
    }

    /// Reads a number literal; `None` where it holds two dots or more, which
    /// no conversion to a number accepts.
    fn read_number(&mut self) -> (t: Option<Token>)
        requires
            old(self).position() < old(self).source().len(),
            is_digit(old(self).source()[old(self).position()]),
        ensures
            final(self).source() == old(self).source(),
            final(self).position() == literal_end(old(self).source(), old(self).position()),
            ({
                let lit = old(self).source().subrange(
                    old(self).position(),
                    literal_end(old(self).source(), old(self).position()),
                );
                match t {
                    Some(t) => !has_two_dots(lit) && t@ == SToken::Number(canonical(lit)),
                    None => has_two_dots(lit),
                }
            }),
    {
        let ghost s = self.source();
        let start = self.pos;
        loop
            invariant_except_break
                self.source() == s,
                start <= self.position() <= s.len(),
                literal_end(s, start as int) == literal_end(s, self.position()),
            ensures
                self.source() == s,
                start <= self.position() <= s.len(),
                self.position() == literal_end(s, start as int),
            decreases s.len() - self.position(),
        {
            proof {
                use_type_invariant(&*self);
            }
            match self.peek() {
                Some(c) => {
                    if is_ascii_digit(c) || c == '.' {
                        self.advance();
                    } else {
                        break;
                    }
                },
                None => break,
            }
        }
        proof {
            use_type_invariant(&*self);
        }
        if span_has_two_dots(&self.chars, start, self.pos) {
            None
        } else {
            Some(Token::Number(Number::from_chars(&self.chars, start, self.pos)))
        }
    }

    fn read_ident_or_keyword(&mut self) -> (t: Token)
        requires
            old(self).position() < old(self).source().len(),
            is_alphabetic_char(old(self).source()[old(self).position()]) || old(self).source()[old(
                self,
            ).position()] == '_',
        ensures
            final(self).source() == old(self).source(),
            final(self).position() == word_end(old(self).source(), old(self).position()),
            t@ == keyword_or_ident(
                old(self).source().subrange(old(self).position(), word_end(old(self).source(), old(self).position())),
            ),
    {
        let ghost s = self.source();
        let start = self.pos;
        loop
            invariant_except_break
                self.source() == s,
                start <= self.position() <= s.len(),
                word_end(s, start as int) == word_end(s, self.position()),
            ensures
                self.source() == s,
                start <= self.position() <= s.len(),
                self.position() == word_end(s, start as int),
            decreases s.len() - self.position(),
        {
            proof {
                use_type_invariant(&*self);
            }
            match self.peek() {
                Some(c) => {
                    if char_is_alphanumeric(c) || c == '_' {
                        self.advance();
                    } else {
                        break;
                    }
                },
                None => break,
            }
        }
        proof {
            use_type_invariant(&*self);
        }
        let end = self.pos;
        if span_is(&self.chars, start, end, "let") {
            Token::Let
        } else if span_is(&self.chars, start, end, "fn") {
            Token::Fn
        } else if span_is(&self.chars, start, end, "print") {
            Token::Print
        } else if span_is(&self.chars, start, end, "struct") {
            Token::Struct
        } else if span_is(&self.chars, start, end, "if") {
            Token::If
        } else if span_is(&self.chars, start, end, "else") {
            Token::Else
        } else if span_is(&self.chars, start, end, "while") {
            Token::While
        } else {
            Token::Ident(string_of(&self.chars, start, end))
        }
    }

    /// Turn the entire source into a Vec<Token>, ending with Eof.
    /// We tokenize everything up front (rather than lazily, token-by-token)
    /// because it keeps the parser simple: it can peek ahead freely.
    ///
    /// A number literal with two dots or more (`1.2.3`) has no value, and
    /// the lexer has no error for it: such a source is left out here;
    /// `has_malformed_number` tells it apart.
    pub fn tokenize(&mut self) -> (r: Result<Vec<Token>, String>)
        requires
            !(lex_from(old(self).source(), old(self).position()) is BadNumber),
        ensures
            final(self).source() == old(self).source(),
            match lex_from(old(self).source(), old(self).position()) {
                LexOutcome::Tokens(ts) => r is Ok && tokens_view(r->Ok_0@) == ts && final(self).position()
                    == old(self).source().len(),
                LexOutcome::BadChar(i) => r is Err && r->Err_0@ == unexpected_char_message(
                    old(self).source()[i],
                ) && final(self).position() == i,
                LexOutcome::BadNumber(_) => false,
            },
    {
        match self.lex() {
            Lexed::Tokens(tokens) => Ok(tokens),
            Lexed::BadChar(m) => Err(m),
            Lexed::BadNumber(_) => {
                proof {
                    assert(false);
                }
                Err(String::new())
            },
        }
    }

    fn lex(&mut self) -> (r: Lexed)
        ensures
            final(self).source() == old(self).source(),
            match lex_from(old(self).source(), old(self).position()) {
                LexOutcome::Tokens(ts) => r matches Lexed::Tokens(v) && tokens_view(v@) == ts
                    && final(self).position() == old(self).source().len(),
                LexOutcome::BadChar(i) => r matches Lexed::BadChar(m) && m@ == unexpected_char_message(
                    old(self).source()[i],
                ) && final(self).position() == i,
                LexOutcome::BadNumber(i) => r matches Lexed::BadNumber(j) && j == i,
            },
    {
        proof {
            use_type_invariant(&*self);
        }
        let ghost s = self.source();
        let ghost p0 = self.position();
        let mut tokens: Vec<Token> = Vec::new();
        assert(tokens_view(tokens@) =~= Seq::<SToken>::empty());
        assert(after_tokens(Seq::empty(), lex_from(s, p0)) =~= lex_from(s, p0)) by {
            match lex_from(s, p0) {
                LexOutcome::Tokens(ts) => {
                    assert(Seq::<SToken>::empty() + ts =~= ts);
                },
                _ => {},
            }
        }
        loop
            invariant_except_break
                self.source() == s,
                s == old(self).source(),
                p0 == old(self).position(),
                0 <= self.position() <= s.len(),
                lex_from(s, p0) == after_tokens(tokens_view(tokens@), lex_from(s, self.position())),
            ensures
                self.source() == s,
                self.position() == s.len(),
                lex_from(s, p0) == LexOutcome::Tokens(tokens_view(tokens@).push(SToken::Eof)),
            decreases s.len() - self.position(),
        {
            proof {
                use_type_invariant(&*self);
            }
            let ghost before = tokens_view(tokens@);
            let ghost p = self.position();
            self.skip_whitespace_and_comments();
            proof {
                lemma_skip_trivia_bounds(s, p);
            }
            let c = match self.peek() {
                Some(c) => c,
                None => {
                    proof {
                        assert(before + seq![SToken::Eof] =~= before.push(SToken::Eof));
                    }
                    break;
                },
            };
            let ghost q = self.position();
            let here = self.pos;
            let token = if c == '=' {
                self.advance();
                Token::Equals
            } else if c == ';' {
                self.advance();
                Token::Semicolon
            } else if c == '(' {
                self.advance();
                Token::LParen
            } else if c == ')' {
                self.advance();
                Token::RParen
            } else if c == '{' {
                self.advance();
                Token::LBrace
            } else if c == '}' {
                self.advance();
                Token::RBrace
            } else if c == ',' {
                self.advance();
                Token::Comma
            } else if c == ':' {
                self.advance();
                Token::Colon
            } else if c == '.' {
                self.advance();
                Token::Dot
            } else if is_ascii_digit(c) {
                proof {
                    lemma_literal_end_bounds(s, q);
                }
                match self.read_number() {
                    Some(t) => t,
                    None => {
                        proof {
                            assert(lex_from(s, p) == LexOutcome::BadNumber(q));
                        }
                        return Lexed::BadNumber(here);
                    },
                }
            } else if char_is_alphabetic(c) || c == '_' {
                proof {
                    lemma_word_end_bounds(s, q);
                }
                self.read_ident_or_keyword()
            } else {
                let mut m = String::new();
                m.append("unexpected character: '");
                push_char(&mut m, c);
                m.append("'");
                proof {
                    assert(m@ =~= unexpected_char_message(c));
                }
                return Lexed::BadChar(m);
            };
            tokens.push(token);
            proof {
                assert(tokens_view(tokens@) =~= before + seq![token@]);
                match lex_from(s, self.position()) {
                    LexOutcome::Tokens(rest) => {
                        assert(before + (seq![token@] + rest) =~= tokens_view(tokens@) + rest);
                    },
                    _ => {},
                }
            }
        }
        let ghost before = tokens_view(tokens@);
        tokens.push(Token::Eof);
        proof {
            assert(tokens_view(tokens@) =~= before.push(SToken::Eof));
        }
        Lexed::Tokens(tokens)
    }
}

/// What lexing comes to, before it is reported.
enum Lexed {
    Tokens(Vec<Token>),
    BadChar(String),
    BadNumber(usize),
}

/// Whether lexing `source` meets a number literal with two dots or more.
pub fn has_malformed_number(source: &str) -> (r: bool)
    ensures
        r == lex_from(source@, 0) is BadNumber,
{
    let mut lexer = Lexer::new(source);
    match lexer.lex() {
        Lexed::BadNumber(_) => true,
        _ => false,
    }
}

/// Whether `v[start..end]` holds two dots or more.
fn span_has_two_dots(v: &Vec<char>, start: usize, end: usize) -> (r: bool)
    requires
        start <= end <= v@.len(),
    ensures
        r == has_two_dots(v@.subrange(start as int, end as int)),
{
    let ghost s = v@.subrange(start as int, end as int);
    let mut d = start;
    while d < end && v[d] != '.'
        invariant
            start <= d <= end <= v@.len(),
            s == v@.subrange(start as int, end as int),
            dot_from(s, 0) == dot_from(s, d - start),
        decreases end - d,
    {
        assert(s[d - start] == v@[d as int]);
        d = d + 1;
    }
    if d == end {
        return false;
    }
    assert(s[d - start] == v@[d as int]);
    let mut e = d + 1;
    while e < end && v[e] != '.'
        invariant
            start <= d < e <= end <= v@.len(),
            s == v@.subrange(start as int, end as int),
            first_dot(s) == d - start,
            dot_from(s, d - start + 1) == dot_from(s, e - start),
        decreases end - e,
    {
        assert(s[e - start] == v@[e as int]);
        e = e + 1;
    }
    if e < end {
        assert(s[e - start] == v@[e as int]);
    }
    e < end
}

/// Whether `c` is one of the ASCII digits `0` to `9`.
fn is_ascii_digit(c: char) -> (r: bool)
    ensures
        r == is_digit(c),
{
    '0' <= c && c <= '9'
}

/// Whether `v[start..end]` spells `word`.
fn span_is(v: &Vec<char>, start: usize, end: usize, word: &str) -> (r: bool)
    requires
        start <= end <= v@.len(),
    ensures
        r == (v@.subrange(start as int, end as int) == word@),
{
    let w = crate::text::chars_of(word);
    if end - start != w.len() {
        proof {
            assert(v@.subrange(start as int, end as int).len() != word@.len());
        }
        return false;
    }
    let mut i: usize = 0;
    while i < w.len()
        invariant
            i <= w@.len(),
            w@ == word@,
            end - start == w@.len(),
            start <= end <= v@.len(),
            forall|k: int| 0 <= k < i ==> v@[start + k] == w@[k],
        decreases w@.len() - i,
    {
        if v[start + i] != w[i] {
            proof {
                assert(v@.subrange(start as int, end as int)[i as int] != word@[i as int]);
            }
            return false;
        }
        i = i + 1;
    }
    assert(v@.subrange(start as int, end as int) =~= word@);
    true
}

} // verus!
