//! Looking at and taking the next token, with the errors the parser reports.
use std::ops::Range;
use vstd::prelude::*;
use crate::error::ParseError;
use crate::lexer::Token;
use crate::parser::Parser;
use crate::parser::grammar;
use crate::parser::grammar::{found_text, str_debug, token_text};
use crate::text::{chars_of, push_str_chars, string_of};

verus! {

/// A token that carries no text: a keyword or a parenthesis.
pub open spec fn is_keyword_token(k: Token) -> bool {
    !(k is String || k is Number || k is Identifier)
}

/// Whether two strings hold the same characters.
fn same_text(a: &String, b: &String) -> (r: bool)
    ensures
        r == (a@ == b@),
{
    let x = chars_of(a.as_str());
    let y = chars_of(b.as_str());
    if x.len() != y.len() {
        return false;
    }
    let mut i: usize = 0;
    while i < x.len()
        invariant
            x@ == a@,
            y@ == b@,
            x.len() == y.len(),
            i <= x.len(),
            forall|k: int| 0 <= k < i ==> x@[k] == y@[k],
        decreases x.len() - i,
    {
        if x[i] != y[i] {
            return false;
        }
        i += 1;
    }
    assert(x@ =~= y@);
    true
}

/// Whether `t` is the same token as `k`.
pub fn token_is(t: &Token, k: &Token) -> (r: bool)
    ensures
        r == grammar::same_token(*t, *k),
        is_keyword_token(*k) ==> r == (*t == *k),
{
    match k {
        Token::String(y) => match t {
            Token::String(x) => same_text(x, y),
            _ => false,
        },
        Token::Number(y) => match t {
            Token::Number(x) => same_text(x, y),
            _ => false,
        },
        Token::Identifier(y) => match t {
            Token::Identifier(x) => same_text(x, y),
            _ => false,
        },
        Token::Throw => matches!(t, Token::Throw),
        Token::Rock => matches!(t, Token::Rock),
        Token::At => matches!(t, Token::At),
        Token::Named => matches!(t, Token::Named),
        Token::Present => matches!(t, Token::Present),
        Token::Smash => matches!(t, Token::Smash),
        Token::Smashed => matches!(t, Token::Smashed),
        Token::Chipped => matches!(t, Token::Chipped),
        Token::Mated => matches!(t, Token::Mated),
        Token::Into => matches!(t, Token::Into),
        Token::Chip => matches!(t, Token::Chip),
        Token::Off => matches!(t, Token::Off),
        Token::Mate => matches!(t, Token::Mate),
        Token::With => matches!(t, Token::With),
        Token::Split => matches!(t, Token::Split),
        Token::From => matches!(t, Token::From),
        Token::True => matches!(t, Token::True),
        Token::False => matches!(t, Token::False),
        Token::Carve => matches!(t, Token::Carve),
        Token::Instruction => matches!(t, Token::Instruction),
        Token::Retrieve => matches!(t, Token::Retrieve),
        Token::Enough => matches!(t, Token::Enough),
        Token::Follow => matches!(t, Token::Follow),
        Token::And => matches!(t, Token::And),
        Token::Engrave => matches!(t, Token::Engrave),
        Token::Weigh => matches!(t, Token::Weigh),
        Token::Against => matches!(t, Token::Against),
        Token::Inspect => matches!(t, Token::Inspect),
        Token::Refine => matches!(t, Token::Refine),
        Token::Roll => matches!(t, Token::Roll),
        Token::While => matches!(t, Token::While),
        Token::Destroy => matches!(t, Token::Destroy),
        Token::LParen => matches!(t, Token::LParen),
        Token::RParen => matches!(t, Token::RParen),
    }
}

/// The text that `{:?}` gives for a string.
///
/// Formats the string with `Debug` for `str`; the result is named
/// `str_debug` of the characters, and nothing more is said of it.
#[verifier::external_body]
pub(crate) fn debug_str(s: &str) -> (r: String)
    ensures
        r@ == str_debug(s@),
{
    format!("{:?}", s)
}

/// Appends `t` to `s`.
pub fn append(s: &mut String, t: &String)
    ensures
        final(s)@ == old(s)@ + t@,
{
    push_str_chars(s, t.as_str());
}

/// How an error message shows a token.
pub fn token_text_exec(t: &Token) -> (r: String)
    ensures
        r@ == token_text(*t),
{
    match t {
        Token::String(s) => {
            let mut r = string_of("String(");
            append(&mut r, &debug_str(s.as_str()));
            push_str_chars(&mut r, ")");
            r
        },
        Token::Number(s) => {
            let mut r = string_of("Number(");
            append(&mut r, s);
            push_str_chars(&mut r, ")");
            r
        },
        Token::Identifier(s) => {
            let mut r = string_of("Identifier(");
            append(&mut r, &debug_str(s.as_str()));
            push_str_chars(&mut r, ")");
            r
        },
        Token::Throw => string_of("Throw"),
        Token::Rock => string_of("Rock"),
        Token::At => string_of("At"),
        Token::Named => string_of("Named"),
        Token::Present => string_of("Present"),
        Token::Smash => string_of("Smash"),
        Token::Smashed => string_of("Smashed"),
        Token::Chipped => string_of("Chipped"),
        Token::Mated => string_of("Mated"),
        Token::Into => string_of("Into"),
        Token::Chip => string_of("Chip"),
        Token::Off => string_of("Off"),
        Token::Mate => string_of("Mate"),
        Token::With => string_of("With"),
        Token::Split => string_of("Split"),
        Token::From => string_of("From"),
        Token::True => string_of("True"),
        Token::False => string_of("False"),
        Token::Carve => string_of("Carve"),
        Token::Instruction => string_of("Instruction"),
        Token::Retrieve => string_of("Retrieve"),
        Token::Enough => string_of("Enough"),
        Token::Follow => string_of("Follow"),
        Token::And => string_of("And"),
        Token::Engrave => string_of("Engrave"),
        Token::Weigh => string_of("Weigh"),
        Token::Against => string_of("Against"),
        Token::Inspect => string_of("Inspect"),
        Token::Refine => string_of("Refine"),
        Token::Roll => string_of("Roll"),
        Token::While => string_of("While"),
        Token::Destroy => string_of("Destroy"),
        Token::LParen => string_of("LParen"),
        Token::RParen => string_of("RParen"),
    }
}

/// How an error message shows what the parser looked at.
pub fn found_text_exec(t: &Option<Token>) -> (r: String)
    ensures
        r@ == found_text(*t),
{
    match t {
        Some(tok) => {
            let mut r = string_of("Some(");
            append(&mut r, &token_text_exec(tok));
            push_str_chars(&mut r, ")");
            r
        },
        None => string_of("None"),
    }
}

impl Parser {
    /// Takes `token`, or reports what stands in its place.
    pub fn expect(&mut self, token: Token, context: &str) -> (r: Result<(), ParseError>)
        requires
            old(self).pos <= old(self).tokens.len(),
        ensures
            final(self).tokens@ == old(self).tokens@,
            final(self).debug == old(self).debug,
            final(self).pos <= final(self).tokens.len(),
            (grammar::unit_result(r), final(self).pos as int) == grammar::expect(
                old(self).tokens@,
                old(self).pos as int,
                token,
                context@,
            ),
    {
        let cur = self.current();
        let matched = match &cur {
            Some(t) => token_is(t, &token),
            None => false,
        };
        if matched {
            self.advance();
            Ok(())
        } else {
            let mut desc = string_of("expected ");
            append(&mut desc, &token_text_exec(&token));
            push_str_chars(&mut desc, " ");
            push_str_chars(&mut desc, context);
            push_str_chars(&mut desc, ", found ");
            append(&mut desc, &found_text_exec(&cur));
            Err(ParseError { span: self.current_span(), desc })
        }
    }

    /// The current token, not taken; an error at the end of the tokens.
    pub fn expect_some(&mut self, expected: &str, context: &str) -> (r: Result<Token, ParseError>)
        requires
            old(self).pos <= old(self).tokens.len(),
        ensures
            *final(self) == *old(self),
            (grammar::token_result(r), final(self).pos as int) == grammar::expect_some(
                old(self).tokens@,
                old(self).pos as int,
                expected@,
                context@,
            ),
    {
        if let Some(t) = self.current() {
            Ok(t)
        } else {
            let mut desc = string_of("expected ");
            push_str_chars(&mut desc, expected);
            push_str_chars(&mut desc, " ");
            push_str_chars(&mut desc, context);
            push_str_chars(&mut desc, ", found <EOF>");
            Err(ParseError { span: self.current_span(), desc })
        }
    }

    /// Takes an identifier and gives its name, or reports what stands in its place.
    pub fn expect_identifier(&mut self, context: &str) -> (r: Result<String, ParseError>)
        requires
            old(self).pos <= old(self).tokens.len(),
        ensures
            final(self).tokens@ == old(self).tokens@,
            final(self).debug == old(self).debug,
            final(self).pos <= final(self).tokens.len(),
            (grammar::string_result(r), final(self).pos as int) == grammar::expect_identifier(
                old(self).tokens@,
                old(self).pos as int,
                context@,
            ),
    {
        match self.current() {
            Some(Token::Identifier(s)) => {
                self.advance();
                Ok(s)
            },
            cur => {
                let mut desc = string_of("expected identifier ");
                push_str_chars(&mut desc, context);
                push_str_chars(&mut desc, ", found ");
                append(&mut desc, &found_text_exec(&cur));
                Err(ParseError { span: self.current_span(), desc })
            },
        }
    }
}

} // verus!
