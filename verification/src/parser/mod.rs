//! The parser: turns tokens into statements.
//!
//! Every function here does what its namesake in `grammar` says, from the
//! position where it starts.
use std::ops::Range;
use vstd::prelude::*;
use crate::error::ParseError;
use crate::lexer::{SpannedToken, Token};
use crate::parser::expression::{
    BinaryOp, Expression, SpannedExpr, SpannedStatement, Statement, is_infix_operator, is_operator, lemma_exprs_view_push,
    lemma_stmts_view_push, names_view, stmts_view, exprs_view,
};
use crate::parser::expect::is_keyword_token;

pub mod expression;
pub mod grammar;
pub mod expect;
pub mod utils;
pub mod laws;
pub mod blocks;

verus! {

/// Reads statements from a sequence of tokens.
pub struct Parser {
    pub tokens: Vec<SpannedToken>,
    pub pos: usize,
    pub debug: bool,
}

/// The parser is at a position within its tokens.
pub open spec fn in_bounds(p: Parser) -> bool {
    p.pos <= p.tokens.len()
}

/// Same tokens and flag, position within them, not moved back.
pub open spec fn moved(before: Parser, after: Parser) -> bool {
    &&& after.tokens@ == before.tokens@
    &&& after.debug == before.debug
    &&& before.pos <= after.pos <= after.tokens.len()
}

impl Parser {
    /// A parser at the first of `tokens`. `debug` is kept for callers that print what was read.
    pub fn new(tokens: Vec<SpannedToken>, debug: bool) -> (r: Parser)
        ensures
            r.tokens@ == tokens@,
            r.pos == 0,
            r.debug == debug,
    {
        Parser { tokens, pos: 0, debug }
    }

    /// All statements from the current position on, or every error met on the way.
    /// The parser ends past its last token.
    pub fn parse(&mut self) -> (r: Result<Vec<SpannedStatement>, Vec<ParseError>>)
        ensures
            grammar::program_result(r) == grammar::parse_program(
                old(self).tokens@,
                old(self).pos as int,
                Seq::empty(),
                Seq::empty(),
            ),
            final(self).tokens@ == old(self).tokens@,
            final(self).debug == old(self).debug,
            final(self).pos == if old(self).pos <= old(self).tokens.len() {
                old(self).tokens.len()
            } else {
                old(self).pos
            },
    {
        let ghost t = self.tokens@;
        let ghost pos0 = self.pos as int;
        let mut statements: Vec<SpannedStatement> = Vec::new();
        let mut errors: Vec<ParseError> = Vec::new();
        assert(errors@.map_values(|x: ParseError| grammar::err_view(x)) =~= Seq::<grammar::ParseErrorView>::empty());
        while self.pos < self.tokens.len()
            invariant
                self.tokens@ == t,
                self.debug == old(self).debug,
                pos0 == old(self).pos,
                pos0 <= t.len() ==> self.pos <= t.len(),
                pos0 > t.len() ==> self.pos == pos0,
                grammar::parse_program(t, pos0, Seq::empty(), Seq::empty()) == grammar::parse_program(
                    t,
                    self.pos as int,
                    stmts_view(statements@),
                    errors@.map_values(|x: ParseError| grammar::err_view(x)),
                ),
            decreases self.tokens@.len() - self.pos,
        {
            let tok = self.tokens[self.pos].token.clone();
            match self.parse_statement(tok) {
                Ok(s) => {
                    proof {
                        lemma_stmts_view_push(statements@, s);
                    }
                    statements.push(s);
                },
                Err(e) => {
                    let ghost ev = errors@;
                    errors.push(e);
                    proof {
                        assert(errors@.map_values(|x: ParseError| grammar::err_view(x)) =~= ev.map_values(
                            |x: ParseError| grammar::err_view(x),
                        ).push(grammar::err_view(e)));
                    }
                },
            }
        }
        if errors.len() > 0 {
            Err(errors)
        } else {
            Ok(statements)
        }
    }

    pub fn parse_statement(&mut self, current: Token) -> (r: Result<SpannedStatement, ParseError>)
        requires
            old(self).pos < old(self).tokens.len(),
            current == old(self).tokens@[old(self).pos as int].token,
        ensures
            moved(*old(self), *final(self)),
            final(self).pos > old(self).pos,
            (grammar::stmt_result(r), final(self).pos as int) == grammar::parse_statement(
                old(self).tokens@,
                old(self).pos as int,
            ),
        decreases old(self).tokens@.len() - old(self).pos, 3nat,
    {
        let start = self.current_span().start;
        self.advance();
        let stat = match current {
            Token::Throw => self.read_var_def(),
            Token::Present => self.read_print(),
            Token::Carve => self.read_fn_def(),
            Token::Smash => self.read_assign(current),
            Token::Chip => self.read_assign(current),
            Token::Mate => self.read_assign(current),
            Token::Split => self.read_assign(current),
            Token::Engrave => self.read_return(),
            Token::Inspect => self.read_if(),
            Token::Roll => self.read_while(),
            Token::Destroy => Ok(Statement::Break),
            _ => {
                self.pos -= 1;
                match self.parse_expression(current) {
                    Ok(e) => Ok(Statement::Expr(Box::new(e))),
                    Err(e) => Err(e),
                }
            },
        };
        match stat {
            Err(e) => Err(e),
            Ok(statement) => {
                let end = self.current_span().end;
                Ok(SpannedStatement { statement, span: Range { start, end } })
            },
        }
    }

    pub fn parse_expression(&mut self, current: Token) -> (r: Result<SpannedExpr, ParseError>)
        requires
            old(self).pos < old(self).tokens.len(),
            current == old(self).tokens@[old(self).pos as int].token,
        ensures
            moved(*old(self), *final(self)),
            final(self).pos > old(self).pos,
            (grammar::expr_result(r), final(self).pos as int) == grammar::parse_expression(
                old(self).tokens@,
                old(self).pos as int,
            ),
        decreases old(self).tokens@.len() - old(self).pos, 1nat,
    {
        let start_span = self.current_span();
        self.advance();
        let atom = match current {
            Token::Number(n) => Ok(Expression::Number(n)),
            Token::String(s) => Ok(Expression::Str(s)),
            Token::True => Ok(Expression::Boolean(true)),
            Token::False => Ok(Expression::Boolean(false)),
            Token::Identifier(s) => Ok(Expression::Identifier(s)),
            Token::LParen => self.read_group(),
            Token::Follow => self.read_fn_call(),
            Token::Weigh => self.read_comparison(),
            other => {
                let mut desc = crate::text::string_of("expected expression, got ");
                crate::parser::expect::append(&mut desc, &crate::parser::expect::token_text_exec(&other));
                return Err(ParseError { span: start_span, desc });
            },
        };
        let mut expr = match atom {
            Ok(a) => a,
            Err(e) => {
                return Err(e);
            },
        };
        let is_op = match self.current() {
            Some(t) => is_infix_operator_token(&t),
            None => false,
        };
        if is_op {
            let lhs_span = Range { start: start_span.start, end: self.current_span().end };
            match self.read_binaryop(SpannedExpr { expr, span: lhs_span }) {
                Ok(e) => {
                    expr = e;
                },
                Err(e) => {
                    return Err(e);
                },
            }
        }
        let end_span = self.current_span();
        Ok(SpannedExpr { expr, span: Range { start: start_span.start, end: end_span.end } })
    }

    fn read_group(&mut self) -> (r: Result<Expression, ParseError>)
        requires
            in_bounds(*old(self)),
        ensures
            moved(*old(self), *final(self)),
            (grammar::expression_result(r), final(self).pos as int) == grammar::read_group(
                old(self).tokens@,
                old(self).pos as int,
            ),
        decreases old(self).tokens@.len() - old(self).pos, 2nat,
    {
        let current = match self.expect_some("expression", "inside of `()` group") {
            Ok(t) => t,
            Err(e) => {
                return Err(e);
            },
        };
        let body = match self.parse_expression(current) {
            Ok(b) => b,
            Err(e) => {
                return Err(e);
            },
        };
        match self.expect(Token::RParen, "inside of `()` group") {
            Ok(()) => Ok(Expression::Group(Box::new(body))),
            Err(e) => Err(e),
        }
    }

    fn read_binaryop(&mut self, lhs: SpannedExpr) -> (r: Result<Expression, ParseError>)
        requires
            old(self).pos < old(self).tokens.len(),
            is_infix_operator(old(self).tokens@[old(self).pos as int].token),
        ensures
            moved(*old(self), *final(self)),
            (grammar::expression_result(r), final(self).pos as int) == grammar::read_binaryop(
                old(self).tokens@,
                old(self).pos as int,
                lhs@,
            ),
        decreases old(self).tokens@.len() - old(self).pos, 2nat,
    {
        let op_token = match self.expect_some("operator", "inside of arithmetic operation") {
            Ok(t) => t,
            Err(e) => {
                return Err(e);
            },
        };
        self.advance();
        let op = BinaryOp::from_token(op_token);
        let expected = match op {
            BinaryOp::Add => Token::Into,
            BinaryOp::Sub => Token::Off,
            BinaryOp::Mul => Token::With,
            BinaryOp::Div => Token::From,
        };
        match self.expect(expected, "inside of arithmetic operation") {
            Ok(()) => {},
            Err(e) => {
                return Err(e);
            },
        }
        let current = match self.expect_some("value", "inside of arithmetic operation") {
            Ok(t) => t,
            Err(e) => {
                return Err(e);
            },
        };
        match self.parse_expression(current) {
            Ok(rhs) => Ok(Expression::BinaryOp { operation: op, lhs: Box::new(lhs), rhs: Box::new(rhs) }),
            Err(e) => Err(e),
        }
    }

    fn read_return(&mut self) -> (r: Result<Statement, ParseError>)
        requires
            in_bounds(*old(self)),
        ensures
            moved(*old(self), *final(self)),
            (grammar::statement_result(r), final(self).pos as int) == grammar::read_return(
                old(self).tokens@,
                old(self).pos as int,
            ),
        decreases old(self).tokens@.len() - old(self).pos, 2nat,
    {
        let current = match self.expect_some("value", "inside of engrave statement") {
            Ok(t) => t,
            Err(e) => {
                return Err(e);
            },
        };
        match self.parse_expression(current) {
            Ok(v) => Ok(Statement::Return(Box::new(v))),
            Err(e) => Err(e),
        }
    }

    fn read_if(&mut self) -> (r: Result<Statement, ParseError>)
        requires
            in_bounds(*old(self)),
        ensures
            moved(*old(self), *final(self)),
            (grammar::statement_result(r), final(self).pos as int) == grammar::read_if(
                old(self).tokens@,
                old(self).pos as int,
            ),
        decreases old(self).tokens@.len() - old(self).pos, 2nat,
    {
        let current = match self.expect_some("value", "inside of inspect statement") {
            Ok(t) => t,
            Err(e) => {
                return Err(e);
            },
        };
        let condition = match self.parse_expression(current) {
            Ok(c) => Box::new(c),
            Err(e) => {
                return Err(e);
            },
        };
        let stops = vec![Token::Refine, Token::Enough];
        assert(stops@ =~= seq![Token::Refine, Token::Enough]);
        let body = match self.parse_until(stops.as_slice()) {
            Ok(b) => b,
            Err(e) => {
                return Err(e);
            },
        };
        let cur = self.current();
        let at_enough = match &cur {
            Some(Token::Enough) => true,
            _ => false,
        };
        if at_enough {
            self.advance();
            return Ok(Statement::If { condition, body, else_: None });
        }
        // `parse_until` stopped at `Refine`.
        self.advance();
        let at_inspect = match self.current() {
            Some(Token::Inspect) => true,
            _ => false,
        };
        if at_inspect {
            self.advance();
            let start = self.current_span().start;
            let statement = match self.read_if() {
                Ok(s) => s,
                Err(e) => {
                    return Err(e);
                },
            };
            let end = self.current_span().end;
            let mut else_: Vec<SpannedStatement> = Vec::new();
            let inner = SpannedStatement { statement, span: Range { start, end } };
            proof {
                lemma_stmts_view_push(else_@, inner);
            }
            else_.push(inner);
            Ok(Statement::If { condition, body, else_: Some(else_) })
        } else {
            let else_ = match self.parse_until(stops.as_slice()) {
                Ok(b) => b,
                Err(e) => {
                    return Err(e);
                },
            };
            self.advance();
            Ok(Statement::If { condition, body, else_: Some(else_) })
        }
    }

    fn read_while(&mut self) -> (r: Result<Statement, ParseError>)
        requires
            in_bounds(*old(self)),
        ensures
            moved(*old(self), *final(self)),
            (grammar::statement_result(r), final(self).pos as int) == grammar::read_while(
                old(self).tokens@,
                old(self).pos as int,
            ),
        decreases old(self).tokens@.len() - old(self).pos, 2nat,
    {
        match self.expect(Token::While, "inside of roll statement") {
            Ok(()) => {},
            Err(e) => {
                return Err(e);
            },
        }
        let current = match self.expect_some("value", "inside of roll statement") {
            Ok(t) => t,
            Err(e) => {
                return Err(e);
            },
        };
        let condition = match self.parse_expression(current) {
            Ok(c) => Box::new(c),
            Err(e) => {
                return Err(e);
            },
        };
        let stops = vec![Token::Enough];
        assert(stops@ =~= seq![Token::Enough]);
        let body = match self.parse_until(stops.as_slice()) {
            Ok(b) => b,
            Err(e) => {
                return Err(e);
            },
        };
        self.advance();
        Ok(Statement::While { condition, body })
    }

    fn read_comparison(&mut self) -> (r: Result<Expression, ParseError>)
        requires
            in_bounds(*old(self)),
        ensures
            moved(*old(self), *final(self)),
            (grammar::expression_result(r), final(self).pos as int) == grammar::read_comparison(
                old(self).tokens@,
                old(self).pos as int,
            ),
        decreases old(self).tokens@.len() - old(self).pos, 2nat,
    {
        let current = match self.expect_some("value", "inside of weigh statement") {
            Ok(t) => t,
            Err(e) => {
                return Err(e);
            },
        };
        let left = match self.parse_expression(current) {
            Ok(l) => Box::new(l),
            Err(e) => {
                return Err(e);
            },
        };
        match self.expect(Token::Against, "inside of weigh statement") {
            Ok(()) => {},
            Err(e) => {
                return Err(e);
            },
        }
        let current = match self.expect_some("value", "inside of weigh statement") {
            Ok(t) => t,
            Err(e) => {
                return Err(e);
            },
        };
        match self.parse_expression(current) {
            Ok(right) => Ok(Expression::Weigh { left, right: Box::new(right) }),
            Err(e) => Err(e),
        }
    }

    fn read_fn_call(&mut self) -> (r: Result<Expression, ParseError>)
        requires
            in_bounds(*old(self)),
        ensures
            moved(*old(self), *final(self)),
            (grammar::expression_result(r), final(self).pos as int) == grammar::read_fn_call(
                old(self).tokens@,
                old(self).pos as int,
            ),
        decreases old(self).tokens@.len() - old(self).pos, 2nat,
    {
        let name = match self.expect_identifier("inside of function call") {
            Ok(n) => n,
            Err(e) => {
                return Err(e);
            },
        };
        match self.read_args() {
            Ok(args) => Ok(Expression::FnCall { name, args }),
            Err(e) => Err(e),
        }
    }

    /// The arguments of a call, each after a `with` or an `and`.
    fn read_args(&mut self) -> (r: Result<Vec<SpannedExpr>, ParseError>)
        requires
            in_bounds(*old(self)),
        ensures
            moved(*old(self), *final(self)),
            (grammar::exprs_result(r), final(self).pos as int) == grammar::read_args(
                old(self).tokens@,
                old(self).pos as int,
                Seq::empty(),
            ),
        decreases old(self).tokens@.len() - old(self).pos, 2nat,
    {
        let ghost t = self.tokens@;
        let ghost p0 = self.pos as int;
        let mut args: Vec<SpannedExpr> = Vec::new();
        loop
            invariant
                self.tokens@ == t,
                t == old(self).tokens@,
                self.debug == old(self).debug,
                p0 == old(self).pos,
                p0 <= self.pos <= self.tokens.len(),
                grammar::read_args(t, p0, Seq::empty()) == grammar::read_args(
                    t,
                    self.pos as int,
                    exprs_view(args@),
                ),
            decreases self.tokens@.len() - self.pos,
        {
            let more = match self.current() {
                Some(Token::With) => true,
                Some(Token::And) => true,
                _ => false,
            };
            if !more {
                return Ok(args);
            }
            self.advance();
            let current = match self.expect_some("value", "inside of function call") {
                Ok(t) => t,
                Err(e) => {
                    return Err(e);
                },
            };
            match self.parse_expression(current) {
                Ok(a) => {
                    proof {
                        lemma_exprs_view_push(args@, a);
                    }
                    args.push(a);
                },
                Err(e) => {
                    return Err(e);
                },
            }
        }
    }

    fn read_fn_def(&mut self) -> (r: Result<Statement, ParseError>)
        requires
            in_bounds(*old(self)),
        ensures
            moved(*old(self), *final(self)),
            (grammar::statement_result(r), final(self).pos as int) == grammar::read_fn_def(
                old(self).tokens@,
                old(self).pos as int,
            ),
        decreases old(self).tokens@.len() - old(self).pos, 2nat,
    {
        match self.expect(Token::Instruction, "inside of function definition") {
            Ok(()) => {},
            Err(e) => {
                return Err(e);
            },
        }
        match self.expect(Token::Into, "inside of function definition") {
            Ok(()) => {},
            Err(e) => {
                return Err(e);
            },
        }
        let name = match self.expect_identifier("inside of function definition") {
            Ok(n) => n,
            Err(e) => {
                return Err(e);
            },
        };
        let params = match self.read_params() {
            Ok(p) => p,
            Err(e) => {
                return Err(e);
            },
        };
        let stops = vec![Token::Enough];
        assert(stops@ =~= seq![Token::Enough]);
        let body = match self.parse_until(stops.as_slice()) {
            Ok(b) => b,
            Err(e) => {
                return Err(e);
            },
        };
        self.advance();
        Ok(Statement::FnDef { name, params, body })
    }

    /// The parameters of a function, each after a `retrieve`.
    fn read_params(&mut self) -> (r: Result<Vec<String>, ParseError>)
        requires
            in_bounds(*old(self)),
        ensures
            moved(*old(self), *final(self)),
            (grammar::names_result(r), final(self).pos as int) == grammar::read_params(
                old(self).tokens@,
                old(self).pos as int,
                Seq::empty(),
            ),
    {
        let ghost t = self.tokens@;
        let ghost p0 = self.pos as int;
        let mut params: Vec<String> = Vec::new();
        assert(names_view(params@) =~= Seq::<Seq<char>>::empty());
        loop
            invariant
                self.tokens@ == t,
                t == old(self).tokens@,
                self.debug == old(self).debug,
                p0 == old(self).pos,
                p0 <= self.pos <= self.tokens.len(),
                grammar::read_params(t, p0, Seq::empty()) == grammar::read_params(
                    t,
                    self.pos as int,
                    names_view(params@),
                ),
            decreases self.tokens@.len() - self.pos,
        {
            let more = match self.current() {
                Some(Token::Retrieve) => true,
                _ => false,
            };
            if !more {
                return Ok(params);
            }
            self.advance();
            match self.expect_identifier("inside of function body") {
                Ok(n) => {
                    let ghost before = params@;
                    params.push(n);
                    proof {
                        assert(names_view(params@) =~= names_view(before).push(n@));
                    }
                },
                Err(e) => {
                    return Err(e);
                },
            }
        }
    }

    fn read_assign(&mut self, op: Token) -> (r: Result<Statement, ParseError>)
        requires
            in_bounds(*old(self)),
            is_operator(op),
        ensures
            moved(*old(self), *final(self)),
            (grammar::statement_result(r), final(self).pos as int) == grammar::read_assign(
                old(self).tokens@,
                old(self).pos as int,
                op,
            ),
        decreases old(self).tokens@.len() - old(self).pos, 2nat,
    {
        let current = match self.expect_some("value", "inside of arithmetic operation") {
            Ok(t) => t,
            Err(e) => {
                return Err(e);
            },
        };
        let value = match self.parse_expression(current) {
            Ok(v) => v,
            Err(e) => {
                return Err(e);
            },
        };
        let expected = match op {
            Token::Smash => Token::Into,
            Token::Chip => Token::Off,
            Token::Mate => Token::With,
            _ => Token::From,
        };
        match self.expect(expected, "inside of arithmetic operation") {
            Ok(()) => {},
            Err(e) => {
                return Err(e);
            },
        }
        let var = match self.expect_identifier("inside of arithmetic operation") {
            Ok(v) => v,
            Err(e) => {
                return Err(e);
            },
        };
        Ok(Statement::Assign { operation: BinaryOp::from_token(op), variable: var, value: Box::new(value) })
    }

    fn read_print(&mut self) -> (r: Result<Statement, ParseError>)
        requires
            in_bounds(*old(self)),
        ensures
            moved(*old(self), *final(self)),
            (grammar::statement_result(r), final(self).pos as int) == grammar::read_print(
                old(self).tokens@,
                old(self).pos as int,
            ),
        decreases old(self).tokens@.len() - old(self).pos, 2nat,
    {
        let current = match self.expect_some("value or identifier", "as an argument for `present`") {
            Ok(t) => t,
            Err(e) => {
                return Err(e);
            },
        };
        match self.parse_expression(current) {
            Ok(v) => Ok(Statement::Print(Box::new(v))),
            Err(e) => Err(e),
        }
    }

    fn read_var_def(&mut self) -> (r: Result<Statement, ParseError>)
        requires
            in_bounds(*old(self)),
        ensures
            moved(*old(self), *final(self)),
            (grammar::statement_result(r), final(self).pos as int) == grammar::read_var_def(
                old(self).tokens@,
                old(self).pos as int,
            ),
        decreases old(self).tokens@.len() - old(self).pos, 2nat,
    {
        let at_rock = match self.current() {
            Some(Token::Rock) => true,
            _ => false,
        };
        let value;
        if at_rock {
            self.advance();
            match self.expect(Token::Named, "inside of variable definition") {
                Ok(()) => {},
                Err(e) => {
                    return Err(e);
                },
            }
            let current = match self.expect_some("number", "inside of variable definition") {
                Ok(t) => t,
                Err(e) => {
                    return Err(e);
                },
            };
            value = match self.parse_expression(current) {
                Ok(v) => Box::new(v),
                Err(e) => {
                    return Err(e);
                },
            };
        } else {
            let current = match self.expect_some("number", "inside of variable definition") {
                Ok(t) => t,
                Err(e) => {
                    return Err(e);
                },
            };
            value = match self.parse_expression(current) {
                Ok(v) => Box::new(v),
                Err(e) => {
                    return Err(e);
                },
            };
            match self.expect(Token::Rock, "after number value inside variable definition") {
                Ok(()) => {},
                Err(e) => {
                    return Err(e);
                },
            }
        }
        match self.expect(Token::At, "inside of variable definition") {
            Ok(()) => {},
            Err(e) => {
                return Err(e);
            },
        }
        let name = match self.expect_identifier("inside of variable definition") {
            Ok(n) => n,
            Err(e) => {
                return Err(e);
            },
        };
        Ok(Statement::VarDef { name, value })
    }
}

/// Whether a token stands between two values.
pub fn is_infix_operator_token(t: &Token) -> (r: bool)
    ensures
        r == is_infix_operator(*t),
{
    match t {
        Token::Smashed => true,
        Token::Chipped => true,
        Token::Mated => true,
        Token::Split => true,
        _ => false,
    }
}

} // verus!
