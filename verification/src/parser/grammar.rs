//! The grammar of statements and expressions, as recursive descent over a
//! token sequence: each function reads from a position and says what it read
//! (or the error) and the position where it stopped.
use std::ops::Range;
use vstd::prelude::*;
use crate::error::ParseError;
use crate::lexer::{SpannedToken, Token};
use crate::parser::expression::{
    BinaryOp, Expression, ExpressionView, SpannedExpr, SpannedExprView, SpannedStatement, SpannedStatementView, Statement,
    StatementView, expr_view, expression_view, exprs_view, is_infix_operator, names_view, op_of, statement_view, stmt_view,
    stmts_view,
};

verus! {

/// An error of the parser, with its text as characters.
pub struct ParseErrorView {
    pub desc: Seq<char>,
    pub span: Range<usize>,
}

/// What a parse step gives, and the position it stopped at.
pub type Step<T> = (Result<T, ParseErrorView>, int);

/// The text that `{:?}` gives for a string.
pub uninterp spec fn str_debug(s: Seq<char>) -> Seq<char>;

/// The name of a token without text, as `{:?}` writes it.
pub open spec fn keyword_name(t: Token) -> Seq<char> {
    match t {
        Token::Throw => "Throw"@,
        Token::Rock => "Rock"@,
        Token::At => "At"@,
        Token::Named => "Named"@,
        Token::Present => "Present"@,
        Token::Smash => "Smash"@,
        Token::Smashed => "Smashed"@,
        Token::Chipped => "Chipped"@,
        Token::Mated => "Mated"@,
        Token::Into => "Into"@,
        Token::Chip => "Chip"@,
        Token::Off => "Off"@,
        Token::Mate => "Mate"@,
        Token::With => "With"@,
        Token::Split => "Split"@,
        Token::From => "From"@,
        Token::True => "True"@,
        Token::False => "False"@,
        Token::Carve => "Carve"@,
        Token::Instruction => "Instruction"@,
        Token::Retrieve => "Retrieve"@,
        Token::Enough => "Enough"@,
        Token::Follow => "Follow"@,
        Token::And => "And"@,
        Token::Engrave => "Engrave"@,
        Token::Weigh => "Weigh"@,
        Token::Against => "Against"@,
        Token::Inspect => "Inspect"@,
        Token::Refine => "Refine"@,
        Token::Roll => "Roll"@,
        Token::While => "While"@,
        Token::Destroy => "Destroy"@,
        Token::LParen => "LParen"@,
        Token::RParen => "RParen"@,
        _ => Seq::empty(),
    }
}

/// How an error message shows a token: as `{:?}` writes it, a number by the `{:?}` text it carries.
pub open spec fn token_text(t: Token) -> Seq<char> {
    match t {
        Token::String(s) => "String("@ + str_debug(s@) + ")"@,
        Token::Number(s) => "Number("@ + s@ + ")"@,
        Token::Identifier(s) => "Identifier("@ + str_debug(s@) + ")"@,
        _ => keyword_name(t),
    }
}

/// How an error message shows what the parser looked at.
pub open spec fn found_text(t: Option<Token>) -> Seq<char> {
    match t {
        Some(t) => "Some("@ + token_text(t) + ")"@,
        None => "None"@,
    }
}

pub open spec fn current(t: Seq<SpannedToken>, pos: int) -> Option<Token> {
    if 0 <= pos < t.len() {
        Some(t[pos].token)
    } else {
        None
    }
}

/// The span of the token at `pos`, or an empty span at the end of the last token.
pub open spec fn current_span(t: Seq<SpannedToken>, pos: int) -> Range<usize> {
    if 0 <= pos < t.len() {
        t[pos].span
    } else if t.len() > 0 {
        Range { start: t[t.len() - 1].span.end, end: t[t.len() - 1].span.end }
    } else {
        Range { start: 0, end: 0 }
    }
}

pub open spec fn err<T>(t: Seq<SpannedToken>, pos: int, desc: Seq<char>) -> Step<T> {
    (Err(ParseErrorView { desc, span: current_span(t, pos) }), pos)
}

/// Two tokens are the same: of the same kind, with the same text where they carry one.
pub open spec fn same_token(a: Token, b: Token) -> bool {
    match (a, b) {
        (Token::String(x), Token::String(y)) => x@ == y@,
        (Token::Number(x), Token::Number(y)) => x@ == y@,
        (Token::Identifier(x), Token::Identifier(y)) => x@ == y@,
        _ => a == b,
    }
}

/// Takes `token` at `pos`, or fails.
pub open spec fn expect(t: Seq<SpannedToken>, pos: int, token: Token, context: Seq<char>) -> Step<()> {
    if current(t, pos) matches Some(c) && same_token(c, token) {
        (Ok(()), pos + 1)
    } else {
        err(t, pos, "expected "@ + token_text(token) + " "@ + context + ", found "@ + found_text(current(t, pos)))
    }
}

/// Looks at the token at `pos` without taking it, or fails at the end.
pub open spec fn expect_some(t: Seq<SpannedToken>, pos: int, expected: Seq<char>, context: Seq<char>) -> Step<Token> {
    match current(t, pos) {
        Some(tok) => (Ok(tok), pos),
        None => err(t, pos, "expected "@ + expected + " "@ + context + ", found <EOF>"@),
    }
}

/// Takes an identifier at `pos`, or fails.
pub open spec fn expect_identifier(t: Seq<SpannedToken>, pos: int, context: Seq<char>) -> Step<Seq<char>> {
    match current(t, pos) {
        Some(Token::Identifier(s)) => (Ok(s@), pos + 1),
        _ => err(t, pos, "expected identifier "@ + context + ", found "@ + found_text(current(t, pos))),
    }
}

/// `p` moved forward from `pos` and stayed within the tokens.
pub open spec fn forward(t: Seq<SpannedToken>, pos: int, p: int) -> bool {
    pos < p <= t.len()
}

/// An error that no input gives: it stands where the grammar cannot go
/// (`parser::laws` shows that every error reported has a message, which this one lacks).
pub open spec fn stuck<T>(pos: int) -> Step<T> {
    (Err(ParseErrorView { desc: Seq::empty(), span: Range { start: 0, end: 0 } }), pos)
}

/// An expression that starts at `pos`.
pub open spec fn parse_expression(t: Seq<SpannedToken>, pos: int) -> Step<SpannedExprView>
    decreases t.len() - pos, 1nat,
{
    if !(0 <= pos < t.len()) {
        stuck(pos)
    } else {
        let start = current_span(t, pos);
        let p = pos + 1;
        let (atom, p1): Step<ExpressionView> = match t[pos].token {
            Token::Number(n) => (Ok(ExpressionView::Number(n@)), p),
            Token::String(s) => (Ok(ExpressionView::Str(s@)), p),
            Token::True => (Ok(ExpressionView::Boolean(true)), p),
            Token::False => (Ok(ExpressionView::Boolean(false)), p),
            Token::Identifier(s) => (Ok(ExpressionView::Identifier(s@)), p),
            Token::LParen => read_group(t, p),
            Token::Follow => read_fn_call(t, p),
            Token::Weigh => read_comparison(t, p),
            _ => (
                Err(
                    ParseErrorView {
                        desc: "expected expression, got "@ + token_text(t[pos].token),
                        span: start,
                    },
                ),
                p,
            ),
        };
        match atom {
            Err(e) => (Err(e), p1),
            Ok(a) => {
                let (full, p2): Step<ExpressionView> = if p1 < t.len() && is_infix_operator(t[p1].token) && forward(t, pos, p1) {
                    let lhs = SpannedExprView {
                        expr: a,
                        span: Range { start: start.start, end: current_span(t, p1).end },
                    };
                    read_binaryop(t, p1, lhs)
                } else {
                    (Ok(a), p1)
                };
                match full {
                    Err(e) => (Err(e), p2),
                    Ok(x) => (
                        Ok(SpannedExprView { expr: x, span: Range { start: start.start, end: current_span(t, p2).end } }),
                        p2,
                    ),
                }
            },
        }
    }
}

/// `( expression )`, after the `(`.
pub open spec fn read_group(t: Seq<SpannedToken>, pos: int) -> Step<ExpressionView>
    decreases t.len() - pos, 2nat,
{
    match expect_some(t, pos, "expression"@, "inside of `()` group"@) {
        (Err(e), p) => (Err(e), p),
        (Ok(_), p) => {
            if !(0 <= p < t.len()) {
                stuck(p)
            } else {
                match parse_expression(t, p) {
                    (Err(e), p1) => (Err(e), p1),
                    (Ok(body), p1) => match expect(t, p1, Token::RParen, "inside of `()` group"@) {
                        (Err(e), p2) => (Err(e), p2),
                        (Ok(_), p2) => (Ok(ExpressionView::Group(Box::new(body))), p2),
                    },
                }
            }
        },
    }
}

/// The keyword that must follow an operator: `into`, `off`, `with` or `from`.
pub open spec fn operator_partner(op: BinaryOp) -> Token {
    match op {
        BinaryOp::Add => Token::Into,
        BinaryOp::Sub => Token::Off,
        BinaryOp::Mul => Token::With,
        BinaryOp::Div => Token::From,
    }
}

/// `lhs operator partner expression`, at the operator (`smashed`, `chipped`, `mated` or `split`).
pub open spec fn read_binaryop(t: Seq<SpannedToken>, pos: int, lhs: SpannedExprView) -> Step<ExpressionView>
    decreases t.len() - pos, 2nat,
{
    if !(0 <= pos < t.len()) || !is_infix_operator(t[pos].token) {
        stuck(pos)
    } else {
        let op = op_of(t[pos].token);
        match expect(t, pos + 1, operator_partner(op), "inside of arithmetic operation"@) {
            (Err(e), p) => (Err(e), p),
            (Ok(_), p) => match expect_some(t, p, "value"@, "inside of arithmetic operation"@) {
                (Err(e), p1) => (Err(e), p1),
                (Ok(_), p1) => {
                    if !(0 <= p1 < t.len()) || !forward(t, pos, p1) {
                        stuck(p1)
                    } else {
                        match parse_expression(t, p1) {
                            (Err(e), p2) => (Err(e), p2),
                            (Ok(rhs), p2) => (
                                Ok(ExpressionView::BinaryOp { operation: op, lhs: Box::new(lhs), rhs: Box::new(rhs) }),
                                p2,
                            ),
                        }
                    }
                },
            },
        }
    }
}

/// `weigh expression against expression`, after `weigh`.
pub open spec fn read_comparison(t: Seq<SpannedToken>, pos: int) -> Step<ExpressionView>
    decreases t.len() - pos, 2nat,
{
    match expect_some(t, pos, "value"@, "inside of weigh statement"@) {
        (Err(e), p) => (Err(e), p),
        (Ok(_), p) => {
            if !(0 <= p < t.len()) {
                stuck(p)
            } else {
                match parse_expression(t, p) {
                    (Err(e), p1) => (Err(e), p1),
                    (Ok(left), p1) => match expect(t, p1, Token::Against, "inside of weigh statement"@) {
                        (Err(e), p2) => (Err(e), p2),
                        (Ok(_), p2) => match expect_some(t, p2, "value"@, "inside of weigh statement"@) {
                            (Err(e), p3) => (Err(e), p3),
                            (Ok(_), p3) => {
                                if !(0 <= p3 < t.len()) || !forward(t, pos, p3) {
                                    stuck(p3)
                                } else {
                                    match parse_expression(t, p3) {
                                        (Err(e), p4) => (Err(e), p4),
                                        (Ok(right), p4) => (
                                            Ok(ExpressionView::Weigh { left: Box::new(left), right: Box::new(right) }),
                                            p4,
                                        ),
                                    }
                                }
                            },
                        },
                    },
                }
            }
        },
    }
}

/// `follow name (with|and expression)*`, after `follow`.
pub open spec fn read_fn_call(t: Seq<SpannedToken>, pos: int) -> Step<ExpressionView>
    decreases t.len() - pos, 2nat,
{
    match expect_identifier(t, pos, "inside of function call"@) {
        (Err(e), p) => (Err(e), p),
        (Ok(name), p) => {
            if !forward(t, pos, p) {
                stuck(p)
            } else {
                match read_args(t, p, Seq::empty()) {
                    (Err(e), p1) => (Err(e), p1),
                    (Ok(args), p1) => (Ok(ExpressionView::FnCall { name, args }), p1),
                }
            }
        },
    }
}

/// The arguments of a call: each after a `with` or an `and`.
pub open spec fn read_args(t: Seq<SpannedToken>, pos: int, acc: Seq<SpannedExprView>) -> Step<Seq<SpannedExprView>>
    decreases t.len() - pos, 2nat,
{
    if 0 <= pos < t.len() && (t[pos].token is With || t[pos].token is And) {
        match expect_some(t, pos + 1, "value"@, "inside of function call"@) {
            (Err(e), p) => (Err(e), p),
            (Ok(_), p) => {
                if !(0 <= p < t.len()) {
                    stuck(p)
                } else {
                    match parse_expression(t, p) {
                        (Err(e), p1) => (Err(e), p1),
                        (Ok(arg), p1) => {
                            if !forward(t, pos, p1) {
                                stuck(p1)
                            } else {
                                read_args(t, p1, acc.push(arg))
                            }
                        },
                    }
                }
            },
        }
    } else {
        (Ok(acc), pos)
    }
}

/// A statement that starts at `pos`.
pub open spec fn parse_statement(t: Seq<SpannedToken>, pos: int) -> Step<SpannedStatementView>
    decreases t.len() - pos, 3nat,
{
    if !(0 <= pos < t.len()) {
        stuck(pos)
    } else {
        let start = current_span(t, pos).start;
        let p = pos + 1;
        let tok = t[pos].token;
        let (stat, p1): Step<StatementView> = match tok {
            Token::Throw => read_var_def(t, p),
            Token::Present => read_print(t, p),
            Token::Carve => read_fn_def(t, p),
            Token::Smash | Token::Chip | Token::Mate | Token::Split => read_assign(t, p, tok),
            Token::Engrave => read_return(t, p),
            Token::Inspect => read_if(t, p),
            Token::Roll => read_while(t, p),
            Token::Destroy => (Ok(StatementView::Break), p),
            _ => match parse_expression(t, pos) {
                (Err(e), p2) => (Err(e), p2),
                (Ok(e), p2) => (Ok(StatementView::Expr(Box::new(e))), p2),
            },
        };
        match stat {
            Err(e) => (Err(e), p1),
            Ok(s) => (
                Ok(SpannedStatementView { statement: s, span: Range { start, end: current_span(t, p1).end } }),
                p1,
            ),
        }
    }
}

/// `engrave expression`, after `engrave`.
pub open spec fn read_return(t: Seq<SpannedToken>, pos: int) -> Step<StatementView>
    decreases t.len() - pos, 2nat,
{
    match expect_some(t, pos, "value"@, "inside of engrave statement"@) {
        (Err(e), p) => (Err(e), p),
        (Ok(_), p) => {
            if !(0 <= p < t.len()) {
                stuck(p)
            } else {
                match parse_expression(t, p) {
                    (Err(e), p1) => (Err(e), p1),
                    (Ok(v), p1) => (Ok(StatementView::Return(Box::new(v))), p1),
                }
            }
        },
    }
}

/// `present expression`, after `present`.
pub open spec fn read_print(t: Seq<SpannedToken>, pos: int) -> Step<StatementView>
    decreases t.len() - pos, 2nat,
{
    match expect_some(t, pos, "value or identifier"@, "as an argument for `present`"@) {
        (Err(e), p) => (Err(e), p),
        (Ok(_), p) => {
            if !(0 <= p < t.len()) {
                stuck(p)
            } else {
                match parse_expression(t, p) {
                    (Err(e), p1) => (Err(e), p1),
                    (Ok(v), p1) => (Ok(StatementView::Print(Box::new(v))), p1),
                }
            }
        },
    }
}

/// `throw expression rock(s) at name` or `throw rock named expression at name`, after `throw`.
pub open spec fn read_var_def(t: Seq<SpannedToken>, pos: int) -> Step<StatementView>
    decreases t.len() - pos, 2nat,
{
    let (value, p1): Step<SpannedExprView> = if current(t, pos) == Some(Token::Rock) {
        match expect(t, pos + 1, Token::Named, "inside of variable definition"@) {
            (Err(e), p) => (Err(e), p),
            (Ok(_), p) => match expect_some(t, p, "number"@, "inside of variable definition"@) {
                (Err(e), q) => (Err(e), q),
                (Ok(_), q) => {
                    if !(0 <= q < t.len()) || !forward(t, pos, q) {
                        stuck(q)
                    } else {
                        parse_expression(t, q)
                    }
                },
            },
        }
    } else {
        match expect_some(t, pos, "number"@, "inside of variable definition"@) {
            (Err(e), q) => (Err(e), q),
            (Ok(_), q) => {
                if !(0 <= q < t.len()) {
                    stuck(q)
                } else {
                    match parse_expression(t, q) {
                        (Err(e), q1) => (Err(e), q1),
                        (Ok(v), q1) => match expect(t, q1, Token::Rock, "after number value inside variable definition"@) {
                            (Err(e), q2) => (Err(e), q2),
                            (Ok(_), q2) => (Ok(v), q2),
                        },
                    }
                }
            },
        }
    };
    match value {
        Err(e) => (Err(e), p1),
        Ok(v) => match expect(t, p1, Token::At, "inside of variable definition"@) {
            (Err(e), p2) => (Err(e), p2),
            (Ok(_), p2) => match expect_identifier(t, p2, "inside of variable definition"@) {
                (Err(e), p3) => (Err(e), p3),
                (Ok(name), p3) => (Ok(StatementView::VarDef { name, value: Box::new(v) }), p3),
            },
        },
    }
}

/// `operator expression partner name`, after the operator `op`.
pub open spec fn read_assign(t: Seq<SpannedToken>, pos: int, op: Token) -> Step<StatementView>
    decreases t.len() - pos, 2nat,
{
    match expect_some(t, pos, "value"@, "inside of arithmetic operation"@) {
        (Err(e), p) => (Err(e), p),
        (Ok(_), p) => {
            if !(0 <= p < t.len()) {
                stuck(p)
            } else {
                match parse_expression(t, p) {
                    (Err(e), p1) => (Err(e), p1),
                    (Ok(v), p1) => match expect(t, p1, operator_partner(op_of(op)), "inside of arithmetic operation"@) {
                        (Err(e), p2) => (Err(e), p2),
                        (Ok(_), p2) => match expect_identifier(t, p2, "inside of arithmetic operation"@) {
                            (Err(e), p3) => (Err(e), p3),
                            (Ok(variable), p3) => (
                                Ok(StatementView::Assign { operation: op_of(op), variable, value: Box::new(v) }),
                                p3,
                            ),
                        },
                    },
                }
            }
        },
    }
}

/// `inspect expression statements (enough | refine ...)`, after `inspect`.
pub open spec fn read_if(t: Seq<SpannedToken>, pos: int) -> Step<StatementView>
    decreases t.len() - pos, 2nat,
{
    match expect_some(t, pos, "value"@, "inside of inspect statement"@) {
        (Err(e), p) => (Err(e), p),
        (Ok(_), p) => {
            if !(0 <= p < t.len()) {
                stuck(p)
            } else {
                match parse_expression(t, p) {
                    (Err(e), p1) => (Err(e), p1),
                    (Ok(condition), p1) => {
                        if !forward(t, pos, p1) {
                            stuck(p1)
                        } else {
                            match parse_until(t, p1, seq![Token::Refine, Token::Enough], Seq::empty()) {
                                (Err(e), p2) => (Err(e), p2),
                                (Ok(body), p2) => {
                                    if current(t, p2) == Some(Token::Enough) {
                                        (
                                            Ok(StatementView::If { condition: Box::new(condition), body, else_: None }),
                                            p2 + 1,
                                        )
                                    } else if current(t, p2) == Some(Token::Refine) {
                                        let q = p2 + 1;
                                        if current(t, q) == Some(Token::Inspect) {
                                            let q1 = q + 1;
                                            let start = current_span(t, q1).start;
                                            if !forward(t, pos, q1) {
                                                stuck(q1)
                                            } else {
                                                match read_if(t, q1) {
                                                    (Err(e), q2) => (Err(e), q2),
                                                    (Ok(s), q2) => {
                                                        let inner = SpannedStatementView {
                                                            statement: s,
                                                            span: Range { start, end: current_span(t, q2).end },
                                                        };
                                                        (
                                                            Ok(
                                                                StatementView::If {
                                                                    condition: Box::new(condition),
                                                                    body,
                                                                    else_: Some(seq![inner]),
                                                                },
                                                            ),
                                                            q2,
                                                        )
                                                    },
                                                }
                                            }
                                        } else if !forward(t, pos, q) {
                                            stuck(q)
                                        } else {
                                            match parse_until(t, q, seq![Token::Refine, Token::Enough], Seq::empty()) {
                                                (Err(e), q2) => (Err(e), q2),
                                                (Ok(else_body), q2) => (
                                                    Ok(
                                                        StatementView::If {
                                                            condition: Box::new(condition),
                                                            body,
                                                            else_: Some(else_body),
                                                        },
                                                    ),
                                                    q2 + 1,
                                                ),
                                            }
                                        }
                                    } else {
                                        stuck(p2)
                                    }
                                },
                            }
                        }
                    },
                }
            }
        },
    }
}

/// `roll while expression statements enough`, after `roll`.
pub open spec fn read_while(t: Seq<SpannedToken>, pos: int) -> Step<StatementView>
    decreases t.len() - pos, 2nat,
{
    match expect(t, pos, Token::While, "inside of roll statement"@) {
        (Err(e), p) => (Err(e), p),
        (Ok(_), p) => match expect_some(t, p, "value"@, "inside of roll statement"@) {
            (Err(e), p1) => (Err(e), p1),
            (Ok(_), p1) => {
                if !(0 <= p1 < t.len()) || !forward(t, pos, p1) {
                    stuck(p1)
                } else {
                    match parse_expression(t, p1) {
                        (Err(e), p2) => (Err(e), p2),
                        (Ok(condition), p2) => {
                            if !forward(t, pos, p2) {
                                stuck(p2)
                            } else {
                                match parse_until(t, p2, seq![Token::Enough], Seq::empty()) {
                                    (Err(e), p3) => (Err(e), p3),
                                    (Ok(body), p3) => (Ok(StatementView::While { condition: Box::new(condition), body }), p3 + 1),
                                }
                            }
                        },
                    }
                }
            },
        },
    }
}

/// `carve instruction into name (retrieve name)* statements enough`, after `carve`.
pub open spec fn read_fn_def(t: Seq<SpannedToken>, pos: int) -> Step<StatementView>
    decreases t.len() - pos, 2nat,
{
    match expect(t, pos, Token::Instruction, "inside of function definition"@) {
        (Err(e), p) => (Err(e), p),
        (Ok(_), p) => match expect(t, p, Token::Into, "inside of function definition"@) {
            (Err(e), p1) => (Err(e), p1),
            (Ok(_), p1) => match expect_identifier(t, p1, "inside of function definition"@) {
                (Err(e), p2) => (Err(e), p2),
                (Ok(name), p2) => match read_params(t, p2, Seq::empty()) {
                    (Err(e), p3) => (Err(e), p3),
                    (Ok(params), p3) => {
                        if !forward(t, pos, p3) {
                            stuck(p3)
                        } else {
                            match parse_until(t, p3, seq![Token::Enough], Seq::empty()) {
                                (Err(e), p4) => (Err(e), p4),
                                (Ok(body), p4) => (Ok(StatementView::FnDef { name, params, body }), p4 + 1),
                            }
                        }
                    },
                },
            },
        },
    }
}

/// The parameters of a function: each after a `retrieve`.
pub open spec fn read_params(t: Seq<SpannedToken>, pos: int, acc: Seq<Seq<char>>) -> Step<Seq<Seq<char>>>
    decreases t.len() - pos,
{
    if 0 <= pos < t.len() && t[pos].token is Retrieve {
        match expect_identifier(t, pos + 1, "inside of function body"@) {
            (Err(e), p) => (Err(e), p),
            (Ok(name), p) => read_params(t, p, acc.push(name)),
        }
    } else {
        (Ok(acc), pos)
    }
}

/// `t` is one of `stops`.
pub open spec fn stops_at(stops: Seq<Token>, t: Option<Token>) -> bool {
    match t {
        Some(tok) => stops.contains(tok),
        None => false,
    }
}

/// Statements up to (not including) one of `stops`.
pub open spec fn parse_until(
    t: Seq<SpannedToken>,
    pos: int,
    stops: Seq<Token>,
    acc: Seq<SpannedStatementView>,
) -> Step<Seq<SpannedStatementView>>
    decreases t.len() - pos, 4nat,
{
    if stops_at(stops, current(t, pos)) {
        (Ok(acc), pos)
    } else if !(0 <= pos < t.len()) {
        err(t, pos, "expected Enough, found <EOF>"@)
    } else {
        match parse_statement(t, pos) {
            (Err(e), p) => (Err(e), p),
            (Ok(s), p) => {
                if !forward(t, pos, p) {
                    stuck(p)
                } else {
                    parse_until(t, p, stops, acc.push(s))
                }
            },
        }
    }
}

/// The whole program from `pos`: all statements, or all errors.
pub open spec fn parse_program(
    t: Seq<SpannedToken>,
    pos: int,
    stmts: Seq<SpannedStatementView>,
    errors: Seq<ParseErrorView>,
) -> Result<Seq<SpannedStatementView>, Seq<ParseErrorView>>
    decreases t.len() - pos,
{
    if 0 <= pos < t.len() {
        match parse_statement(t, pos) {
            (Ok(s), p) => if forward(t, pos, p) {
                parse_program(t, p, stmts.push(s), errors)
            } else {
                Err(errors)
            },
            (Err(e), p) => if forward(t, pos, p) {
                parse_program(t, p, stmts, errors.push(e))
            } else {
                Err(errors.push(e))
            },
        }
    } else if errors.len() > 0 {
        Err(errors)
    } else {
        Ok(stmts)
    }
}

pub open spec fn err_view(e: ParseError) -> ParseErrorView {
    ParseErrorView { desc: e.desc@, span: e.span }
}

pub open spec fn unit_result(r: Result<(), ParseError>) -> Result<(), ParseErrorView> {
    match r {
        Ok(x) => Ok(x),
        Err(e) => Err(err_view(e)),
    }
}

pub open spec fn token_result(r: Result<Token, ParseError>) -> Result<Token, ParseErrorView> {
    match r {
        Ok(x) => Ok(x),
        Err(e) => Err(err_view(e)),
    }
}

pub open spec fn string_result(r: Result<String, ParseError>) -> Result<Seq<char>, ParseErrorView> {
    match r {
        Ok(x) => Ok(x@),
        Err(e) => Err(err_view(e)),
    }
}

pub open spec fn expr_result(r: Result<SpannedExpr, ParseError>) -> Result<SpannedExprView, ParseErrorView> {
    match r {
        Ok(x) => Ok(expr_view(x)),
        Err(e) => Err(err_view(e)),
    }
}

pub open spec fn expression_result(r: Result<Expression, ParseError>) -> Result<ExpressionView, ParseErrorView> {
    match r {
        Ok(x) => Ok(expression_view(x)),
        Err(e) => Err(err_view(e)),
    }
}

pub open spec fn stmt_result(r: Result<SpannedStatement, ParseError>) -> Result<SpannedStatementView, ParseErrorView> {
    match r {
        Ok(x) => Ok(stmt_view(x)),
        Err(e) => Err(err_view(e)),
    }
}

pub open spec fn statement_result(r: Result<Statement, ParseError>) -> Result<StatementView, ParseErrorView> {
    match r {
        Ok(x) => Ok(statement_view(x)),
        Err(e) => Err(err_view(e)),
    }
}

pub open spec fn stmts_result(r: Result<Vec<SpannedStatement>, ParseError>) -> Result<Seq<SpannedStatementView>, ParseErrorView> {
    match r {
        Ok(x) => Ok(stmts_view(x@)),
        Err(e) => Err(err_view(e)),
    }
}

pub open spec fn exprs_result(r: Result<Vec<SpannedExpr>, ParseError>) -> Result<Seq<SpannedExprView>, ParseErrorView> {
    match r {
        Ok(x) => Ok(exprs_view(x@)),
        Err(e) => Err(err_view(e)),
    }
}

pub open spec fn names_result(r: Result<Vec<String>, ParseError>) -> Result<Seq<Seq<char>>, ParseErrorView> {
    match r {
        Ok(x) => Ok(names_view(x@)),
        Err(e) => Err(err_view(e)),
    }
}

pub open spec fn program_result(r: Result<Vec<SpannedStatement>, Vec<ParseError>>) -> Result<Seq<SpannedStatementView>, Seq<ParseErrorView>> {
    match r {
        Ok(x) => Ok(stmts_view(x@)),
        Err(e) => Err(e@.map_values(|x: ParseError| err_view(x))),
    }
}

} // verus!
