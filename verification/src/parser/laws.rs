//! What holds of every token sequence: each statement takes at least one
//! token, so the parser always gets to the end; every error it reports has a
//! message; and a program that does not parse is reported with at least one
//! error.
use std::ops::Range;
use vstd::prelude::*;
use crate::lexer::{SpannedToken, Token};
use crate::parser::expression::{BinaryOp, op_of, is_operator, ExpressionView, SpannedExprView, SpannedStatementView, is_infix_operator};
use crate::parser::grammar::{
    ParseErrorView, Step, current, current_span, forward, parse_expression, parse_program, parse_statement, parse_until,
    read_args, read_assign, read_binaryop, read_comparison, read_fn_call, read_fn_def, read_group, read_if, read_params,
    operator_partner, read_print, read_return, read_var_def, read_while, stops_at, token_text,
};

verus! {

/// A failure, if that is what `r` is, comes with a message.
pub open spec fn says<T>(r: Result<T, ParseErrorView>) -> bool {
    r matches Err(e) ==> e.desc.len() > 0
}

/// The messages of the parser all start with some text.
proof fn lemma_messages()
    ensures
        "expected "@.len() > 0,
        "expected identifier "@.len() > 0,
        "expected expression, got "@.len() > 0,
        "expected Enough, found <EOF>"@.len() > 0,
{
    reveal_strlit("expected ");
    reveal_strlit("expected identifier ");
    reveal_strlit("expected expression, got ");
    reveal_strlit("expected Enough, found <EOF>");
}

/// `p` lies between `pos` and the end of the tokens.
pub open spec fn within(t: Seq<SpannedToken>, pos: int, p: int) -> bool {
    pos <= p <= t.len()
}

/// An expression that starts at a token ends past it.
pub proof fn lemma_expression_progress(t: Seq<SpannedToken>, pos: int)
    requires
        0 <= pos < t.len(),
    ensures
        pos < parse_expression(t, pos).1 <= t.len(),
        says(parse_expression(t, pos).0),
    decreases t.len() - pos, 1nat,
{
    lemma_messages();
    let p = pos + 1;
    let start = current_span(t, pos);
    match t[pos].token {
        Token::LParen => lemma_group_progress(t, p),
        Token::Follow => lemma_fn_call_progress(t, p),
        Token::Weigh => lemma_comparison_progress(t, p),
        _ => {},
    }
    let (atom, p1): Step<ExpressionView> = match t[pos].token {
        Token::Number(n) => (Ok(ExpressionView::Number(n@)), p),
        Token::String(s) => (Ok(ExpressionView::Str(s@)), p),
        Token::True => (Ok(ExpressionView::Boolean(true)), p),
        Token::False => (Ok(ExpressionView::Boolean(false)), p),
        Token::Identifier(s) => (Ok(ExpressionView::Identifier(s@)), p),
        Token::LParen => read_group(t, p),
        Token::Follow => read_fn_call(t, p),
        Token::Weigh => read_comparison(t, p),
        _ => (
            Err(ParseErrorView { desc: "expected expression, got "@ + token_text(t[pos].token), span: start }),
            p,
        ),
    };
    if let Ok(a) = atom {
        if p1 < t.len() && is_infix_operator(t[p1].token) && forward(t, pos, p1) {
            let lhs = SpannedExprView { expr: a, span: Range { start: start.start, end: current_span(t, p1).end } };
            lemma_binaryop_progress(t, p1);
            assert(pos < read_binaryop(t, p1, lhs).1 <= t.len());
        }
    }
}

pub(crate) proof fn lemma_group_progress(t: Seq<SpannedToken>, pos: int)
    requires
        0 <= pos <= t.len(),
    ensures
        within(t, pos, read_group(t, pos).1),
        says(read_group(t, pos).0),
    decreases t.len() - pos, 2nat,
{
    lemma_messages();
    if pos < t.len() {
        lemma_expression_progress(t, pos);
    }
}

pub(crate) proof fn lemma_binaryop_progress(t: Seq<SpannedToken>, pos: int)
    requires
        0 <= pos < t.len(),
        is_infix_operator(t[pos].token),
    ensures
        forall|lhs: SpannedExprView| pos < #[trigger] read_binaryop(t, pos, lhs).1 <= t.len(),
        forall|lhs: SpannedExprView| says(#[trigger] read_binaryop(t, pos, lhs).0),
    decreases t.len() - pos, 2nat,
{
    lemma_messages();
    let p1 = pos + 2;
    if p1 < t.len() {
        lemma_expression_progress(t, p1);
    }
}

pub(crate) proof fn lemma_comparison_progress(t: Seq<SpannedToken>, pos: int)
    requires
        0 <= pos <= t.len(),
    ensures
        within(t, pos, read_comparison(t, pos).1),
        says(read_comparison(t, pos).0),
    decreases t.len() - pos, 2nat,
{
    lemma_messages();
    if pos < t.len() {
        lemma_expression_progress(t, pos);
        let p1 = parse_expression(t, pos).1;
        let p3 = p1 + 1;
        if p3 < t.len() && pos < p3 {
            lemma_expression_progress(t, p3);
        }
    }
}

pub(crate) proof fn lemma_fn_call_progress(t: Seq<SpannedToken>, pos: int)
    requires
        0 <= pos <= t.len(),
    ensures
        within(t, pos, read_fn_call(t, pos).1),
        says(read_fn_call(t, pos).0),
    decreases t.len() - pos, 2nat,
{
    lemma_messages();
    if pos < t.len() && t[pos].token is Identifier {
        lemma_args_progress(t, pos + 1, Seq::empty());
    }
}

pub(crate) proof fn lemma_args_progress(t: Seq<SpannedToken>, pos: int, acc: Seq<SpannedExprView>)
    requires
        0 <= pos <= t.len(),
    ensures
        within(t, pos, read_args(t, pos, acc).1),
        says(read_args(t, pos, acc).0),
    decreases t.len() - pos, 2nat,
{
    lemma_messages();
    if pos < t.len() && (t[pos].token is With || t[pos].token is And) {
        let p = pos + 1;
        if p < t.len() {
            lemma_expression_progress(t, p);
            let (r, p1) = parse_expression(t, p);
            if let Ok(arg) = r {
                lemma_args_progress(t, p1, acc.push(arg));
            }
        }
    }
}

/// A statement that starts at a token ends past it, within the tokens.
pub proof fn law_statement_progress(t: Seq<SpannedToken>, pos: int)
    requires
        0 <= pos < t.len(),
    ensures
        pos < parse_statement(t, pos).1 <= t.len(),
        says(parse_statement(t, pos).0),
    decreases t.len() - pos, 3nat,
{
    lemma_messages();
    let p = pos + 1;
    let tok = t[pos].token;
    match tok {
        Token::Throw => lemma_var_def_progress(t, p),
        Token::Present => lemma_print_progress(t, p),
        Token::Carve => lemma_fn_def_progress(t, p),
        Token::Smash | Token::Chip | Token::Mate | Token::Split => lemma_assign_progress(t, p, tok),
        Token::Engrave => lemma_return_progress(t, p),
        Token::Inspect => lemma_if_progress(t, p),
        Token::Roll => lemma_while_progress(t, p),
        Token::Destroy => {},
        _ => lemma_expression_progress(t, pos),
    }
}

pub(crate) proof fn lemma_return_progress(t: Seq<SpannedToken>, pos: int)
    requires
        0 <= pos <= t.len(),
    ensures
        within(t, pos, read_return(t, pos).1),
        says(read_return(t, pos).0),
    decreases t.len() - pos, 2nat,
{
    lemma_messages();
    if pos < t.len() {
        lemma_expression_progress(t, pos);
    }
}

pub(crate) proof fn lemma_print_progress(t: Seq<SpannedToken>, pos: int)
    requires
        0 <= pos <= t.len(),
    ensures
        within(t, pos, read_print(t, pos).1),
        says(read_print(t, pos).0),
    decreases t.len() - pos, 2nat,
{
    lemma_messages();
    if pos < t.len() {
        lemma_expression_progress(t, pos);
    }
}

pub(crate) proof fn lemma_var_def_progress(t: Seq<SpannedToken>, pos: int)
    requires
        0 <= pos <= t.len(),
    ensures
        within(t, pos, read_var_def(t, pos).1),
        says(read_var_def(t, pos).0),
    decreases t.len() - pos, 2nat,
{
    lemma_messages();
    if current(t, pos) == Some(Token::Rock) {
        let q = pos + 2;
        if q < t.len() {
            lemma_expression_progress(t, q);
        }
    } else if pos < t.len() {
        lemma_expression_progress(t, pos);
    }
}

pub(crate) proof fn lemma_assign_progress(t: Seq<SpannedToken>, pos: int, op: Token)
    requires
        0 <= pos <= t.len(),
    ensures
        within(t, pos, read_assign(t, pos, op).1),
        says(read_assign(t, pos, op).0),
    decreases t.len() - pos, 2nat,
{
    lemma_messages();
    if pos < t.len() {
        lemma_expression_progress(t, pos);
    }
}

pub(crate) proof fn lemma_if_progress(t: Seq<SpannedToken>, pos: int)
    requires
        0 <= pos <= t.len(),
    ensures
        within(t, pos, read_if(t, pos).1),
        says(read_if(t, pos).0),
    decreases t.len() - pos, 2nat,
{
    lemma_messages();
    if pos < t.len() {
        lemma_expression_progress(t, pos);
        let (r, p1) = parse_expression(t, pos);
        if r is Ok {
            let stops = seq![Token::Refine, Token::Enough];
            lemma_until_progress(t, p1, stops, Seq::empty());
            let (b, p2) = parse_until(t, p1, stops, Seq::empty());
            if b is Ok && current(t, p2) == Some(Token::Refine) {
                let q = p2 + 1;
                if current(t, q) == Some(Token::Inspect) {
                    lemma_if_progress(t, q + 1);
                } else {
                    lemma_until_progress(t, q, stops, Seq::empty());
                }
            }
        }
    }
}

pub(crate) proof fn lemma_while_progress(t: Seq<SpannedToken>, pos: int)
    requires
        0 <= pos <= t.len(),
    ensures
        within(t, pos, read_while(t, pos).1),
        says(read_while(t, pos).0),
    decreases t.len() - pos, 2nat,
{
    lemma_messages();
    let p1 = pos + 1;
    if current(t, pos) == Some(Token::While) && p1 < t.len() {
        lemma_expression_progress(t, p1);
        let (r, p2) = parse_expression(t, p1);
        if r is Ok {
            lemma_until_progress(t, p2, seq![Token::Enough], Seq::empty());
        }
    }
}

pub(crate) proof fn lemma_params_progress(t: Seq<SpannedToken>, pos: int, acc: Seq<Seq<char>>)
    requires
        0 <= pos <= t.len(),
    ensures
        within(t, pos, read_params(t, pos, acc).1),
        says(read_params(t, pos, acc).0),
    decreases t.len() - pos,
{
    lemma_messages();
    if pos < t.len() && t[pos].token is Retrieve {
        let p = pos + 1;
        if let Some(Token::Identifier(s)) = current(t, p) {
            lemma_params_progress(t, p + 1, acc.push(s@));
        }
    }
}

pub(crate) proof fn lemma_fn_def_progress(t: Seq<SpannedToken>, pos: int)
    requires
        0 <= pos <= t.len(),
    ensures
        within(t, pos, read_fn_def(t, pos).1),
        says(read_fn_def(t, pos).0),
    decreases t.len() - pos, 2nat,
{
    lemma_messages();
    if current(t, pos) == Some(Token::Instruction) && current(t, pos + 1) == Some(Token::Into) {
        if let Some(Token::Identifier(s)) = current(t, pos + 2) {
            lemma_params_progress(t, pos + 3, Seq::empty());
            let (r, p3) = read_params(t, pos + 3, Seq::empty());
            if r is Ok {
                lemma_until_progress(t, p3, seq![Token::Enough], Seq::empty());
            }
        }
    }
}

/// Statements up to a stop end at one of the stops, where they do not fail.
pub(crate) proof fn lemma_until_progress(t: Seq<SpannedToken>, pos: int, stops: Seq<Token>, acc: Seq<SpannedStatementView>)
    requires
        0 <= pos <= t.len(),
    ensures
        within(t, pos, parse_until(t, pos, stops, acc).1),
        says(parse_until(t, pos, stops, acc).0),
        parse_until(t, pos, stops, acc).0 is Ok ==> stops_at(stops, current(t, parse_until(t, pos, stops, acc).1)),
    decreases t.len() - pos, 4nat,
{
    lemma_messages();
    if !stops_at(stops, current(t, pos)) && pos < t.len() {
        law_statement_progress(t, pos);
        let (r, p) = parse_statement(t, pos);
        if let Ok(s) = r {
            lemma_until_progress(t, p, stops, acc.push(s));
        }
    }
}

/// A program that does not parse is reported with at least one error, and
/// every error that the parser reports has a message.
pub proof fn law_failed_parse_reports(t: Seq<SpannedToken>)
    ensures
        parse_program(t, 0, Seq::empty(), Seq::empty()) matches Err(errors) ==> errors.len() > 0 && forall|k: int|
            0 <= k < errors.len() ==> (#[trigger] errors[k]).desc.len() > 0,
{
    lemma_program_reports(t, 0, Seq::empty(), Seq::empty());
}

proof fn lemma_program_reports(
    t: Seq<SpannedToken>,
    pos: int,
    stmts: Seq<SpannedStatementView>,
    errors: Seq<ParseErrorView>,
)
    requires
        0 <= pos,
        forall|k: int| 0 <= k < errors.len() ==> (#[trigger] errors[k]).desc.len() > 0,
    ensures
        parse_program(t, pos, stmts, errors) matches Err(es) ==> es.len() > 0 && forall|k: int|
            0 <= k < es.len() ==> (#[trigger] es[k]).desc.len() > 0,
    decreases t.len() - pos,
{
    if pos < t.len() {
        law_statement_progress(t, pos);
        let (r, p) = parse_statement(t, pos);
        match r {
            Ok(s) => lemma_program_reports(t, p, stmts.push(s), errors),
            Err(e) => {
                let es = errors.push(e);
                assert forall|k: int| 0 <= k < es.len() implies (#[trigger] es[k]).desc.len() > 0 by {
                    if k < errors.len() {
                        assert(es[k] == errors[k]);
                    }
                }
                lemma_program_reports(t, p, stmts, es);
            },
        }
    }
}

/// What each statement from `pos` on gives, each read where the one before ended.
pub open spec fn statement_results(t: Seq<SpannedToken>, pos: int) -> Seq<Result<SpannedStatementView, ParseErrorView>>
    decreases t.len() - pos,
{
    if 0 <= pos < t.len() {
        let (r, p) = parse_statement(t, pos);
        if pos < p <= t.len() {
            seq![r] + statement_results(t, p)
        } else {
            seq![r]
        }
    } else {
        Seq::empty()
    }
}

/// The statements among `rs`, in order.
pub open spec fn parsed(rs: Seq<Result<SpannedStatementView, ParseErrorView>>) -> Seq<SpannedStatementView>
    decreases rs.len(),
{
    if rs.len() == 0 {
        Seq::empty()
    } else {
        (match rs[0] {
            Ok(s) => seq![s],
            Err(_) => Seq::empty(),
        }) + parsed(rs.drop_first())
    }
}

/// The errors among `rs`, in order.
pub open spec fn failed(rs: Seq<Result<SpannedStatementView, ParseErrorView>>) -> Seq<ParseErrorView>
    decreases rs.len(),
{
    if rs.len() == 0 {
        Seq::empty()
    } else {
        (match rs[0] {
            Ok(_) => Seq::empty(),
            Err(e) => seq![e],
        }) + failed(rs.drop_first())
    }
}

proof fn lemma_program_collects(
    t: Seq<SpannedToken>,
    pos: int,
    stmts: Seq<SpannedStatementView>,
    errors: Seq<ParseErrorView>,
)
    requires
        0 <= pos,
    ensures
        ({
            let rs = statement_results(t, pos);
            parse_program(t, pos, stmts, errors) == if (errors + failed(rs)).len() == 0 {
                Ok::<Seq<SpannedStatementView>, Seq<ParseErrorView>>(stmts + parsed(rs))
            } else {
                Err(errors + failed(rs))
            }
        }),
    decreases t.len() - pos,
{
    let rs = statement_results(t, pos);
    if pos < t.len() {
        law_statement_progress(t, pos);
        let (r, p) = parse_statement(t, pos);
        let rest = statement_results(t, p);
        assert(rs == seq![r] + rest);
        assert(rs.drop_first() =~= rest);
        match r {
            Ok(s) => {
                lemma_program_collects(t, p, stmts.push(s), errors);
                assert(stmts.push(s) + parsed(rest) =~= stmts + parsed(rs));
                assert(failed(rs) =~= failed(rest));
            },
            Err(e) => {
                lemma_program_collects(t, p, stmts, errors.push(e));
                assert(errors.push(e) + failed(rest) =~= errors + failed(rs));
                assert(parsed(rs) =~= parsed(rest));
            },
        }
    } else {
        assert(stmts + parsed(rs) =~= stmts);
        assert(errors + failed(rs) =~= errors);
    }
}

/// `parse` reads the statements one after another, each where the one before
/// ended, to the end of the tokens: it gives every statement where none fails,
/// and else one error for each statement that fails, in order.
pub proof fn law_parse_collects(t: Seq<SpannedToken>)
    ensures
        ({
            let rs = statement_results(t, 0);
            parse_program(t, 0, Seq::empty(), Seq::empty()) == if failed(rs).len() == 0 {
                Ok::<Seq<SpannedStatementView>, Seq<ParseErrorView>>(parsed(rs))
            } else {
                Err(failed(rs))
            }
        }),
{
    lemma_program_collects(t, 0, Seq::empty(), Seq::empty());
    let rs = statement_results(t, 0);
    assert(Seq::<SpannedStatementView>::empty() + parsed(rs) =~= parsed(rs));
    assert(Seq::<ParseErrorView>::empty() + failed(rs) =~= failed(rs));
}

/// The operators: `smash`/`smashed` with `into` add, `chip`/`chipped` with
/// `off` subtract, `mate`/`mated` with `with` multiply, and `split` with `from`
/// divides.
pub proof fn law_operators(t: Token)
    requires
        is_operator(t) || is_infix_operator(t),
    ensures
        op_of(t) == BinaryOp::Add <==> (t is Smash || t is Smashed),
        op_of(t) == BinaryOp::Sub <==> (t is Chip || t is Chipped),
        op_of(t) == BinaryOp::Mul <==> (t is Mate || t is Mated),
        op_of(t) == BinaryOp::Div <==> t is Split,
        operator_partner(BinaryOp::Add) == Token::Into,
        operator_partner(BinaryOp::Sub) == Token::Off,
        operator_partner(BinaryOp::Mul) == Token::With,
        operator_partner(BinaryOp::Div) == Token::From,
{
}

} // verus!
