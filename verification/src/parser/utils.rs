//! Moving through the tokens, and reading blocks of statements.
use std::ops::Range;
use vstd::prelude::*;
use crate::error::ParseError;
use crate::lexer::{SpannedToken, Token};
use crate::parser::Parser;
use crate::parser::expect::{is_keyword_token, token_is};
use crate::parser::expression::{SpannedStatement, lemma_stmts_view_push, stmts_view};
use crate::parser::grammar;
use crate::text::string_of;

verus! {

/// Whether `t` is one of the tokens in `stop`.
pub fn stops_contain(stop: &[Token], t: &Token) -> (r: bool)
    requires
        forall|i: int| 0 <= i < stop@.len() ==> is_keyword_token(#[trigger] stop@[i]),
    ensures
        r == stop@.contains(*t),
{
    let mut i: usize = 0;
    while i < stop.len()
        invariant
            i <= stop@.len(),
            forall|j: int| 0 <= j < stop@.len() ==> is_keyword_token(#[trigger] stop@[j]),
            forall|j: int| 0 <= j < i ==> stop@[j] != *t,
        decreases stop@.len() - i,
    {
        if token_is(t, &stop[i]) {
            assert(stop@[i as int] == *t);
            return true;
        }
        i += 1;
    }
    false
}

impl Parser {
    /// The token at the current position, if there is one.
    pub fn current(&self) -> (r: Option<Token>)
        ensures
            r == grammar::current(self.tokens@, self.pos as int),
    {
        if self.pos < self.tokens.len() {
            Some(self.tokens[self.pos].token.clone())
        } else {
            None
        }
    }

    /// Moves past the current token.
    pub fn advance(&mut self)
        requires
            old(self).pos < old(self).tokens.len(),
        ensures
            final(self).tokens == old(self).tokens,
            final(self).debug == old(self).debug,
            final(self).pos == old(self).pos + 1,
    {
        self.pos += 1;
    }

    /// The span of the current token, or an empty span after the last one.
    pub fn current_span(&self) -> (r: Range<usize>)
        ensures
            r == grammar::current_span(self.tokens@, self.pos as int),
    {
        if self.pos < self.tokens.len() {
            let sp = &self.tokens[self.pos].span;
            Range { start: sp.start, end: sp.end }
        } else if self.tokens.len() > 0 {
            let end = self.tokens[self.tokens.len() - 1].span.end;
            Range { start: end, end: end }
        } else {
            Range { start: 0, end: 0 }
        }
    }

    /// Statements up to one of the tokens in `stop`, which is left in place.
    pub fn parse_until(&mut self, stop: &[Token]) -> (r: Result<Vec<SpannedStatement>, ParseError>)
        requires
            old(self).pos <= old(self).tokens.len(),
            forall|i: int| 0 <= i < stop@.len() ==> is_keyword_token(#[trigger] stop@[i]),
        ensures
            final(self).tokens@ == old(self).tokens@,
            final(self).debug == old(self).debug,
            old(self).pos <= final(self).pos <= final(self).tokens.len(),
            r is Ok ==> grammar::stops_at(stop@, grammar::current(final(self).tokens@, final(self).pos as int)),
            (grammar::stmts_result(r), final(self).pos as int) == grammar::parse_until(
                old(self).tokens@,
                old(self).pos as int,
                stop@,
                Seq::empty(),
            ),
        decreases old(self).tokens@.len() - old(self).pos, 4nat,
    {
        let ghost t = self.tokens@;
        let ghost pos0 = self.pos as int;
        let mut body: Vec<SpannedStatement> = Vec::new();
        loop
            invariant
                self.tokens@ == t,
                t == old(self).tokens@,
                self.debug == old(self).debug,
                pos0 == old(self).pos,
                pos0 <= self.pos <= self.tokens.len(),
                forall|i: int| 0 <= i < stop@.len() ==> is_keyword_token(#[trigger] stop@[i]),
                grammar::parse_until(t, pos0, stop@, Seq::empty()) == grammar::parse_until(
                    t,
                    self.pos as int,
                    stop@,
                    stmts_view(body@),
                ),
            decreases self.tokens@.len() - self.pos,
        {
            let cur = self.current();
            let stopped = match &cur {
                Some(t) => stops_contain(stop, t),
                None => false,
            };
            if stopped {
                return Ok(body);
            }
            match cur {
                None => {
                    return Err(ParseError { span: self.current_span(), desc: string_of("expected Enough, found <EOF>") });
                },
                Some(tok) => {
                    let ghost before = self.pos as int;
                    match self.parse_statement(tok) {
                        Ok(s) => {
                            proof {
                                lemma_stmts_view_push(body@, s);
                            }
                            body.push(s);
                        },
                        Err(e) => {
                            return Err(e);
                        },
                    }
                },
            }
        }
    }
}

} // verus!
