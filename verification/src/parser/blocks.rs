//! Blocks need their `enough`: a program in which a loop or a function
//! definition opens with no `enough` after it does not parse, and neither does
//! one with an `inspect` that has neither `enough` nor `refine` after it.
use std::ops::Range;
use vstd::prelude::*;
use crate::lexer::{SpannedToken, Token};
use crate::parser::expression::{ExpressionView, SpannedExprView, SpannedStatementView, is_infix_operator};
use crate::parser::grammar::{
    ParseErrorView, Step, current, current_span, expect, expect_some, forward, parse_expression,
    parse_program, parse_statement, parse_until, read_args, read_assign, read_binaryop, read_comparison, read_fn_call,
    read_fn_def, read_group, read_if, read_params, read_print, read_return, read_var_def, read_while, stops_at,
    token_text,
};
use crate::parser::laws::{
    law_statement_progress, lemma_args_progress, lemma_assign_progress, lemma_binaryop_progress,
    lemma_comparison_progress, lemma_expression_progress, lemma_fn_call_progress, lemma_group_progress,
    lemma_if_progress, lemma_params_progress, lemma_print_progress, lemma_return_progress, lemma_until_progress,
    lemma_var_def_progress,
};

verus! {

/// A token that opens or closes a block, or splits one: `roll`, `carve`,
/// `inspect`, `enough` or `refine`.
pub open spec fn block_token(k: Token) -> bool {
    k is Roll || k is Carve || k is Inspect || k is Enough || k is Refine
}

/// No token of `t[i..j]` opens, closes or splits a block.
pub open spec fn quiet(t: Seq<SpannedToken>, i: int, j: int) -> bool {
    forall|m: int| i <= m < j ==> !block_token(#[trigger] t[m].token)
}

/// An `enough` stands after position `m`, before `j`.
pub open spec fn enough_after(t: Seq<SpannedToken>, m: int, j: int) -> bool {
    exists|w: int| m < w < j && (#[trigger] t[w].token) is Enough
}

/// An `enough` or a `refine` stands after position `m`, before `j`.
pub open spec fn stop_after(t: Seq<SpannedToken>, m: int, j: int) -> bool {
    exists|w: int| m < w < j && ((#[trigger] t[w].token) is Enough || t[w].token is Refine)
}

/// The token at `m` opens no block that `t[..j]` leaves open: a `roll` or a
/// `carve` has an `enough` after it, an `inspect` an `enough` or a `refine`.
pub open spec fn answered(t: Seq<SpannedToken>, m: int, j: int) -> bool {
    &&& (t[m].token is Roll || t[m].token is Carve) ==> enough_after(t, m, j)
    &&& t[m].token is Inspect ==> stop_after(t, m, j)
}

/// No token of `t[i..j]` opens a block that `t[i..j]` leaves open.
pub open spec fn closes(t: Seq<SpannedToken>, i: int, j: int) -> bool {
    forall|m: int| i <= m < j ==> #[trigger] answered(t, m, j)
}

proof fn lemma_answered_mono(t: Seq<SpannedToken>, m: int, j: int, k: int)
    requires
        j <= k,
        answered(t, m, j),
    ensures
        answered(t, m, k),
{
    if (t[m].token is Roll || t[m].token is Carve) {
        let w = choose|w: int| m < w < j && (#[trigger] t[w].token) is Enough;
        assert(t[w].token is Enough);
    }
    if t[m].token is Inspect {
        let w = choose|w: int| m < w < j && ((#[trigger] t[w].token) is Enough || t[w].token is Refine);
        assert(t[w].token is Enough || t[w].token is Refine);
    }
}

proof fn lemma_quiet_join(t: Seq<SpannedToken>, i: int, j: int, k: int)
    requires
        i <= j <= k,
        quiet(t, i, j),
        quiet(t, j, k),
    ensures
        quiet(t, i, k),
{
    assert forall|m: int| i <= m < k implies !block_token(#[trigger] t[m].token) by {
        if m < j {
            assert(!block_token(t[m].token));
        } else {
            assert(!block_token(t[m].token));
        }
    }
}

proof fn lemma_quiet_one(t: Seq<SpannedToken>, i: int)
    requires
        0 <= i < t.len(),
        !block_token(t[i].token),
    ensures
        quiet(t, i, i + 1),
{
}


proof fn lemma_quiet_closes(t: Seq<SpannedToken>, i: int, j: int)
    requires
        quiet(t, i, j),
    ensures
        closes(t, i, j),
{
    assert forall|m: int| i <= m < j implies #[trigger] answered(t, m, j) by {
        assert(!block_token(t[m].token));
    }
}

proof fn lemma_closes_join(t: Seq<SpannedToken>, i: int, j: int, k: int)
    requires
        i <= j <= k,
        closes(t, i, j),
        closes(t, j, k),
    ensures
        closes(t, i, k),
{
    assert forall|m: int| i <= m < k implies #[trigger] answered(t, m, k) by {
        if m < j {
            assert(answered(t, m, j));
            lemma_answered_mono(t, m, j, k);
        } else {
            assert(answered(t, m, k));
        }
    }
}

/// A range that closes its blocks, taken one token further over a token that
/// opens no block, still does.
proof fn lemma_closes_extend(t: Seq<SpannedToken>, i: int, j: int)
    requires
        i <= j < t.len(),
        closes(t, i, j),
        !(t[j].token is Roll || t[j].token is Carve || t[j].token is Inspect),
    ensures
        closes(t, i, j + 1),
{
    assert forall|m: int| i <= m < j + 1 implies #[trigger] answered(t, m, j + 1) by {
        if m < j {
            assert(answered(t, m, j));
            lemma_answered_mono(t, m, j, j + 1);
        }
    }
}

/// A range that closes its blocks, with one more token in front that it answers,
/// closes its blocks.
proof fn lemma_closes_front(t: Seq<SpannedToken>, i: int, j: int)
    requires
        i < j,
        closes(t, i + 1, j),
        answered(t, i, j),
    ensures
        closes(t, i, j),
{
    assert forall|m: int| i <= m < j implies #[trigger] answered(t, m, j) by {
        if m > i {
            assert(answered(t, m, j));
        }
    }
}

proof fn lemma_stop_kind(stops: Seq<Token>, tok: Token)
    requires
        stops == seq![Token::Refine, Token::Enough] || stops == seq![Token::Enough],
        stops.contains(tok),
    ensures
        tok is Refine || tok is Enough,
        stops == seq![Token::Enough] ==> tok is Enough,
{
    let i = choose|i: int| 0 <= i < stops.len() && stops[i] == tok;
    if stops == seq![Token::Enough] {
        assert(stops[i] == Token::Enough);
    } else {
        assert(stops[i] == Token::Refine || stops[i] == Token::Enough);
    }
}

/// An expression takes no token that opens, closes or splits a block.
proof fn lemma_expression_quiet(t: Seq<SpannedToken>, pos: int)
    requires
        0 <= pos < t.len(),
    ensures
        parse_expression(t, pos).0 is Ok ==> quiet(t, pos, parse_expression(t, pos).1),
    decreases t.len() - pos, 1nat,
{
    lemma_expression_progress(t, pos);
    let p = pos + 1;
    let start = current_span(t, pos);
    match t[pos].token {
        Token::LParen => {
            lemma_group_quiet(t, p);
            lemma_group_progress(t, p);
        },
        Token::Follow => {
            lemma_fn_call_quiet(t, p);
            lemma_fn_call_progress(t, p);
        },
        Token::Weigh => {
            lemma_comparison_quiet(t, p);
            lemma_comparison_progress(t, p);
        },
        _ => {},
    }
    let (atom, p1): Step<ExpressionView> = match t[pos].token {
        Token::Number(n) => (Ok(ExpressionView::Number(n@)), p),
        Token::String(s) => (Ok(ExpressionView::Str(s@)), p),
        Token::True => (Ok(ExpressionView::Boolean(true)), p),
        Token::False => (Ok(ExpressionView::Boolean(false)), p),
        Token::Identifier(s) => (Ok(ExpressionView::Identifier(s@)), p),
        Token::LParen => read_group(t, p),
        Token::Follow => read_fn_call(t, p),
        Token::Weigh => read_comparison(t, p),
        _ => (
            Err(ParseErrorView { desc: "expected expression, got "@ + token_text(t[pos].token), span: start }),
            p,
        ),
    };
    if let Ok(a) = atom {
        lemma_quiet_one(t, pos);
        lemma_quiet_join(t, pos, p, p1);
        if p1 < t.len() && is_infix_operator(t[p1].token) && forward(t, pos, p1) {
            let lhs = SpannedExprView { expr: a, span: Range { start: start.start, end: current_span(t, p1).end } };
            lemma_binaryop_quiet(t, p1);
            lemma_binaryop_progress(t, p1);
            if read_binaryop(t, p1, lhs).0 is Ok {
                lemma_quiet_join(t, pos, p1, read_binaryop(t, p1, lhs).1);
            }
        }
    }
}

proof fn lemma_group_quiet(t: Seq<SpannedToken>, pos: int)
    requires
        0 <= pos <= t.len(),
    ensures
        read_group(t, pos).0 is Ok ==> quiet(t, pos, read_group(t, pos).1),
    decreases t.len() - pos, 2nat,
{
    if pos < t.len() {
        lemma_expression_quiet(t, pos);
        lemma_expression_progress(t, pos);
        let p1 = parse_expression(t, pos).1;
        if parse_expression(t, pos).0 is Ok && current(t, p1) == Some(Token::RParen) {
            lemma_quiet_one(t, p1);
            lemma_quiet_join(t, pos, p1, p1 + 1);
        }
    }
}

proof fn lemma_binaryop_quiet(t: Seq<SpannedToken>, pos: int)
    requires
        0 <= pos < t.len(),
        is_infix_operator(t[pos].token),
    ensures
        forall|lhs: SpannedExprView|
            (#[trigger] read_binaryop(t, pos, lhs)).0 is Ok ==> quiet(t, pos, read_binaryop(t, pos, lhs).1),
    decreases t.len() - pos, 2nat,
{
    let p1 = pos + 2;
    if p1 < t.len() {
        lemma_expression_quiet(t, p1);
        lemma_expression_progress(t, p1);
        lemma_quiet_one(t, pos);
        if pos + 1 < t.len() && !block_token(t[pos + 1].token) {
            lemma_quiet_one(t, pos + 1);
            lemma_quiet_join(t, pos, pos + 1, p1);
            if parse_expression(t, p1).0 is Ok {
                lemma_quiet_join(t, pos, p1, parse_expression(t, p1).1);
            }
        }
    }
}

proof fn lemma_comparison_quiet(t: Seq<SpannedToken>, pos: int)
    requires
        0 <= pos <= t.len(),
    ensures
        read_comparison(t, pos).0 is Ok ==> quiet(t, pos, read_comparison(t, pos).1),
    decreases t.len() - pos, 2nat,
{
    if pos < t.len() {
        lemma_expression_quiet(t, pos);
        lemma_expression_progress(t, pos);
        let p1 = parse_expression(t, pos).1;
        let p3 = p1 + 1;
        if parse_expression(t, pos).0 is Ok && current(t, p1) == Some(Token::Against) && p3 < t.len() {
            lemma_expression_quiet(t, p3);
            lemma_expression_progress(t, p3);
            lemma_quiet_one(t, p1);
            lemma_quiet_join(t, pos, p1, p3);
            if parse_expression(t, p3).0 is Ok {
                lemma_quiet_join(t, pos, p3, parse_expression(t, p3).1);
            }
        }
    }
}

proof fn lemma_fn_call_quiet(t: Seq<SpannedToken>, pos: int)
    requires
        0 <= pos <= t.len(),
    ensures
        read_fn_call(t, pos).0 is Ok ==> quiet(t, pos, read_fn_call(t, pos).1),
    decreases t.len() - pos, 2nat,
{
    if pos < t.len() && t[pos].token is Identifier {
        lemma_args_quiet(t, pos + 1, Seq::empty());
        lemma_args_progress(t, pos + 1, Seq::empty());
        lemma_quiet_one(t, pos);
        if read_args(t, pos + 1, Seq::empty()).0 is Ok {
            lemma_quiet_join(t, pos, pos + 1, read_args(t, pos + 1, Seq::empty()).1);
        }
    }
}

proof fn lemma_args_quiet(t: Seq<SpannedToken>, pos: int, acc: Seq<SpannedExprView>)
    requires
        0 <= pos <= t.len(),
    ensures
        read_args(t, pos, acc).0 is Ok ==> quiet(t, pos, read_args(t, pos, acc).1),
    decreases t.len() - pos, 2nat,
{
    if pos < t.len() && (t[pos].token is With || t[pos].token is And) {
        let p = pos + 1;
        if p < t.len() {
            lemma_expression_quiet(t, p);
            lemma_expression_progress(t, p);
            let (r, p1) = parse_expression(t, p);
            if let Ok(arg) = r {
                lemma_args_quiet(t, p1, acc.push(arg));
                lemma_args_progress(t, p1, acc.push(arg));
                lemma_quiet_one(t, pos);
                lemma_quiet_join(t, pos, p, p1);
                if read_args(t, p1, acc.push(arg)).0 is Ok {
                    lemma_quiet_join(t, pos, p1, read_args(t, p1, acc.push(arg)).1);
                }
            }
        }
    }
}

proof fn lemma_return_quiet(t: Seq<SpannedToken>, pos: int)
    requires
        0 <= pos <= t.len(),
    ensures
        read_return(t, pos).0 is Ok ==> quiet(t, pos, read_return(t, pos).1),
    decreases t.len() - pos, 2nat,
{
    if pos < t.len() {
        lemma_expression_quiet(t, pos);
    }
}

proof fn lemma_print_quiet(t: Seq<SpannedToken>, pos: int)
    requires
        0 <= pos <= t.len(),
    ensures
        read_print(t, pos).0 is Ok ==> quiet(t, pos, read_print(t, pos).1),
    decreases t.len() - pos, 2nat,
{
    if pos < t.len() {
        lemma_expression_quiet(t, pos);
    }
}

proof fn lemma_var_def_quiet(t: Seq<SpannedToken>, pos: int)
    requires
        0 <= pos <= t.len(),
    ensures
        read_var_def(t, pos).0 is Ok ==> quiet(t, pos, read_var_def(t, pos).1),
    decreases t.len() - pos, 2nat,
{
    let (value, p1): Step<SpannedExprView> = if current(t, pos) == Some(Token::Rock) {
        let q = pos + 2;
        if current(t, pos + 1) == Some(Token::Named) && q < t.len() {
            lemma_expression_quiet(t, q);
            lemma_expression_progress(t, q);
            lemma_quiet_one(t, pos);
            lemma_quiet_one(t, pos + 1);
            lemma_quiet_join(t, pos, pos + 1, q);
            if parse_expression(t, q).0 is Ok {
                lemma_quiet_join(t, pos, q, parse_expression(t, q).1);
            }
        }
        match expect(t, pos + 1, Token::Named, "inside of variable definition"@) {
            (Err(e), p) => (Err(e), p),
            (Ok(_), p) => match expect_some(t, p, "number"@, "inside of variable definition"@) {
                (Err(e), q) => (Err(e), q),
                (Ok(_), q) => {
                    if !(0 <= q < t.len()) || !forward(t, pos, q) {
                        crate::parser::grammar::stuck(q)
                    } else {
                        parse_expression(t, q)
                    }
                },
            },
        }
    } else {
        if pos < t.len() {
            lemma_expression_quiet(t, pos);
            lemma_expression_progress(t, pos);
            let q1 = parse_expression(t, pos).1;
            if parse_expression(t, pos).0 is Ok && current(t, q1) == Some(Token::Rock) {
                lemma_quiet_one(t, q1);
                lemma_quiet_join(t, pos, q1, q1 + 1);
            }
        }
        match expect_some(t, pos, "number"@, "inside of variable definition"@) {
            (Err(e), q) => (Err(e), q),
            (Ok(_), q) => {
                if !(0 <= q < t.len()) {
                    crate::parser::grammar::stuck(q)
                } else {
                    match parse_expression(t, q) {
                        (Err(e), q1) => (Err(e), q1),
                        (Ok(v), q1) => match expect(t, q1, Token::Rock, "after number value inside variable definition"@) {
                            (Err(e), q2) => (Err(e), q2),
                            (Ok(_), q2) => (Ok(v), q2),
                        },
                    }
                }
            },
        }
    };
    if value is Ok && current(t, p1) == Some(Token::At) {
        if let Some(Token::Identifier(_)) = current(t, p1 + 1) {
            lemma_quiet_one(t, p1);
            lemma_quiet_one(t, p1 + 1);
            lemma_quiet_join(t, p1, p1 + 1, p1 + 2);
            lemma_quiet_join(t, pos, p1, p1 + 2);
        }
    }
}

proof fn lemma_assign_quiet(t: Seq<SpannedToken>, pos: int, op: Token)
    requires
        0 <= pos <= t.len(),
    ensures
        read_assign(t, pos, op).0 is Ok ==> quiet(t, pos, read_assign(t, pos, op).1),
    decreases t.len() - pos, 2nat,
{
    if pos < t.len() {
        lemma_expression_quiet(t, pos);
        lemma_expression_progress(t, pos);
        let p1 = parse_expression(t, pos).1;
        if parse_expression(t, pos).0 is Ok && p1 + 1 < t.len() && !block_token(t[p1].token) && !block_token(
            t[p1 + 1].token,
        ) {
            lemma_quiet_one(t, p1);
            lemma_quiet_one(t, p1 + 1);
            lemma_quiet_join(t, p1, p1 + 1, p1 + 2);
            lemma_quiet_join(t, pos, p1, p1 + 2);
        }
    }
}


proof fn lemma_params_quiet(t: Seq<SpannedToken>, pos: int, acc: Seq<Seq<char>>)
    requires
        0 <= pos <= t.len(),
    ensures
        read_params(t, pos, acc).0 is Ok ==> quiet(t, pos, read_params(t, pos, acc).1),
    decreases t.len() - pos,
{
    lemma_params_progress(t, pos, acc);
    if pos < t.len() && t[pos].token is Retrieve {
        let p = pos + 1;
        if let Some(Token::Identifier(s)) = current(t, p) {
            lemma_params_quiet(t, p + 1, acc.push(s@));
            lemma_params_progress(t, p + 1, acc.push(s@));
            lemma_quiet_one(t, pos);
            lemma_quiet_one(t, p);
            lemma_quiet_join(t, pos, p, p + 1);
            if read_params(t, p + 1, acc.push(s@)).0 is Ok {
                lemma_quiet_join(t, pos, p + 1, read_params(t, p + 1, acc.push(s@)).1);
            }
        }
    }
}

/// A statement that parses closes every block it opens.
proof fn lemma_statement_closes(t: Seq<SpannedToken>, pos: int)
    requires
        0 <= pos < t.len(),
    ensures
        parse_statement(t, pos).0 is Ok ==> closes(t, pos, parse_statement(t, pos).1),
    decreases t.len() - pos, 3nat,
{
    law_statement_progress(t, pos);
    let p = pos + 1;
    let tok = t[pos].token;
    let q = parse_statement(t, pos).1;
    match tok {
        Token::Throw => {
            lemma_var_def_quiet(t, p);
            lemma_var_def_progress(t, p);
            lemma_quiet_one(t, pos);
            if read_var_def(t, p).0 is Ok {
                lemma_quiet_join(t, pos, p, q);
                lemma_quiet_closes(t, pos, q);
            }
        },
        Token::Present => {
            lemma_print_quiet(t, p);
            lemma_print_progress(t, p);
            lemma_quiet_one(t, pos);
            if read_print(t, p).0 is Ok {
                lemma_quiet_join(t, pos, p, q);
                lemma_quiet_closes(t, pos, q);
            }
        },
        Token::Smash | Token::Chip | Token::Mate | Token::Split => {
            lemma_assign_quiet(t, p, tok);
            lemma_assign_progress(t, p, tok);
            lemma_quiet_one(t, pos);
            if read_assign(t, p, tok).0 is Ok {
                lemma_quiet_join(t, pos, p, q);
                lemma_quiet_closes(t, pos, q);
            }
        },
        Token::Engrave => {
            lemma_return_quiet(t, p);
            lemma_return_progress(t, p);
            lemma_quiet_one(t, pos);
            if read_return(t, p).0 is Ok {
                lemma_quiet_join(t, pos, p, q);
                lemma_quiet_closes(t, pos, q);
            }
        },
        Token::Carve => {
            lemma_fn_def_closes(t, p);
            if read_fn_def(t, p).0 is Ok {
                assert(t[q - 1].token is Enough);
                assert(enough_after(t, pos, q));
                lemma_closes_front(t, pos, q);
            }
        },
        Token::Roll => {
            lemma_while_closes(t, p);
            if read_while(t, p).0 is Ok {
                assert(t[q - 1].token is Enough);
                assert(enough_after(t, pos, q));
                lemma_closes_front(t, pos, q);
            }
        },
        Token::Inspect => {
            lemma_if_closes(t, p);
            if read_if(t, p).0 is Ok {
                lemma_closes_front(t, pos, q);
            }
        },
        Token::Destroy => {
            lemma_quiet_one(t, pos);
            lemma_quiet_closes(t, pos, q);
        },
        _ => {
            lemma_expression_quiet(t, pos);
            if parse_expression(t, pos).0 is Ok {
                lemma_quiet_closes(t, pos, q);
            }
        },
    }
}

/// `roll while` after its `roll`: the block closes its inner blocks and ends at its `enough`.
proof fn lemma_while_closes(t: Seq<SpannedToken>, pos: int)
    requires
        0 <= pos <= t.len(),
    ensures
        read_while(t, pos).0 is Ok ==> {
            let r = read_while(t, pos).1;
            &&& pos < r <= t.len()
            &&& t[r - 1].token is Enough
            &&& closes(t, pos, r)
        },
    decreases t.len() - pos, 2nat,
{
    let p1 = pos + 1;
    if current(t, pos) == Some(Token::While) && p1 < t.len() {
        lemma_expression_progress(t, p1);
        lemma_expression_quiet(t, p1);
        let (r, p2) = parse_expression(t, p1);
        if r is Ok {
            let stops = seq![Token::Enough];
            lemma_until_closes(t, p2, stops, Seq::empty());
            lemma_until_progress(t, p2, stops, Seq::empty());
            let p3 = parse_until(t, p2, stops, Seq::empty()).1;
            if parse_until(t, p2, stops, Seq::empty()).0 is Ok {
                lemma_stop_kind(stops, t[p3].token);
                lemma_quiet_one(t, pos);
                lemma_quiet_join(t, pos, p1, p2);
                lemma_quiet_closes(t, pos, p2);
                lemma_closes_join(t, pos, p2, p3);
                lemma_closes_extend(t, pos, p3);
            }
        }
    }
}

/// A function definition after its `carve`: the body closes its inner blocks and
/// the definition ends at its `enough`.
proof fn lemma_fn_def_closes(t: Seq<SpannedToken>, pos: int)
    requires
        0 <= pos <= t.len(),
    ensures
        read_fn_def(t, pos).0 is Ok ==> {
            let r = read_fn_def(t, pos).1;
            &&& pos < r <= t.len()
            &&& t[r - 1].token is Enough
            &&& closes(t, pos, r)
        },
    decreases t.len() - pos, 2nat,
{
    if current(t, pos) == Some(Token::Instruction) && current(t, pos + 1) == Some(Token::Into) {
        if let Some(Token::Identifier(s)) = current(t, pos + 2) {
            lemma_params_progress(t, pos + 3, Seq::empty());
            lemma_params_quiet(t, pos + 3, Seq::empty());
            let (r, p3) = read_params(t, pos + 3, Seq::empty());
            if r is Ok {
                let stops = seq![Token::Enough];
                lemma_until_progress(t, p3, stops, Seq::empty());
                lemma_until_closes(t, p3, stops, Seq::empty());
                let p4 = parse_until(t, p3, stops, Seq::empty()).1;
                if parse_until(t, p3, stops, Seq::empty()).0 is Ok {
                    lemma_stop_kind(stops, t[p4].token);
                    lemma_quiet_one(t, pos);
                    lemma_quiet_one(t, pos + 1);
                    lemma_quiet_one(t, pos + 2);
                    lemma_quiet_join(t, pos, pos + 1, pos + 2);
                    lemma_quiet_join(t, pos, pos + 2, pos + 3);
                    lemma_quiet_join(t, pos, pos + 3, p3);
                    lemma_quiet_closes(t, pos, p3);
                    lemma_closes_join(t, pos, p3, p4);
                    lemma_closes_extend(t, pos, p4);
                }
            }
        }
    }
}

/// An `inspect` after its `inspect`: it closes its inner blocks, and an `enough`
/// or a `refine` of its own stands in it.
proof fn lemma_if_closes(t: Seq<SpannedToken>, pos: int)
    requires
        0 <= pos <= t.len(),
    ensures
        read_if(t, pos).0 is Ok ==> {
            let r = read_if(t, pos).1;
            &&& pos <= r <= t.len()
            &&& closes(t, pos, r)
            &&& stop_after(t, pos - 1, r)
        },
    decreases t.len() - pos, 2nat,
{
    lemma_if_progress(t, pos);
    if pos < t.len() {
        lemma_expression_progress(t, pos);
        lemma_expression_quiet(t, pos);
        let (r, p1) = parse_expression(t, pos);
        if r is Ok {
            lemma_quiet_closes(t, pos, p1);
            let stops = seq![Token::Refine, Token::Enough];
            lemma_until_closes(t, p1, stops, Seq::empty());
            lemma_until_progress(t, p1, stops, Seq::empty());
            let (b, p2) = parse_until(t, p1, stops, Seq::empty());
            if b is Ok {
                lemma_stop_kind(stops, t[p2].token);
                lemma_closes_join(t, pos, p1, p2);
                lemma_closes_extend(t, pos, p2);
                let q = p2 + 1;
                assert(t[p2].token is Enough || t[p2].token is Refine);
                if current(t, p2) == Some(Token::Refine) {
                    if current(t, q) == Some(Token::Inspect) {
                        lemma_if_closes(t, q + 1);
                        let q2 = read_if(t, q + 1).1;
                        if read_if(t, q + 1).0 is Ok {
                            let w = choose|w: int| q < w < q2 && ((#[trigger] t[w].token) is Enough || t[w].token is Refine);
                            assert(t[w].token is Enough || t[w].token is Refine);
                            assert(stop_after(t, q, q2));
                            lemma_closes_front(t, q, q2);
                            lemma_closes_join(t, pos, q, q2);
                            assert(stop_after(t, pos - 1, q2));
                        }
                    } else {
                        lemma_until_closes(t, q, stops, Seq::empty());
                        lemma_until_progress(t, q, stops, Seq::empty());
                        let (eb, q2) = parse_until(t, q, stops, Seq::empty());
                        if eb is Ok {
                            lemma_stop_kind(stops, t[q2].token);
                            lemma_closes_join(t, pos, q, q2);
                            lemma_closes_extend(t, pos, q2);
                            assert(stop_after(t, pos - 1, q2 + 1));
                        }
                    }
                } else {
                    assert(stop_after(t, pos - 1, q));
                }
            }
        }
    }
}

/// Statements up to a stop close every block they open.
proof fn lemma_until_closes(t: Seq<SpannedToken>, pos: int, stops: Seq<Token>, acc: Seq<SpannedStatementView>)
    requires
        0 <= pos <= t.len(),
    ensures
        parse_until(t, pos, stops, acc).0 is Ok ==> closes(t, pos, parse_until(t, pos, stops, acc).1),
    decreases t.len() - pos, 4nat,
{
    if stops_at(stops, current(t, pos)) {
        lemma_quiet_closes(t, pos, pos);
    } else if pos < t.len() {
        law_statement_progress(t, pos);
        lemma_statement_closes(t, pos);
        let (r, p) = parse_statement(t, pos);
        if let Ok(s) = r {
            lemma_until_closes(t, p, stops, acc.push(s));
            lemma_until_progress(t, p, stops, acc.push(s));
            if parse_until(t, p, stops, acc.push(s)).0 is Ok {
                lemma_closes_join(t, pos, p, parse_until(t, p, stops, acc.push(s)).1);
            }
        }
    }
}

proof fn lemma_program_closes(
    t: Seq<SpannedToken>,
    pos: int,
    stmts: Seq<SpannedStatementView>,
    errors: Seq<ParseErrorView>,
)
    requires
        0 <= pos <= t.len(),
    ensures
        parse_program(t, pos, stmts, errors) is Ok ==> closes(t, pos, t.len() as int),
    decreases t.len() - pos,
{
    if pos < t.len() {
        law_statement_progress(t, pos);
        lemma_statement_closes(t, pos);
        let (r, p) = parse_statement(t, pos);
        match r {
            Ok(s) => {
                lemma_program_closes(t, p, stmts.push(s), errors);
                if parse_program(t, p, stmts.push(s), errors) is Ok {
                    lemma_closes_join(t, pos, p, t.len() as int);
                }
            },
            Err(e) => {
                lemma_program_errs(t, p, stmts, errors.push(e));
            },
        }
    } else {
        lemma_quiet_closes(t, pos, pos);
    }
}

proof fn lemma_program_errs(
    t: Seq<SpannedToken>,
    pos: int,
    stmts: Seq<SpannedStatementView>,
    errors: Seq<ParseErrorView>,
)
    requires
        0 <= pos,
        errors.len() > 0,
    ensures
        parse_program(t, pos, stmts, errors) is Err,
    decreases t.len() - pos,
{
    if pos < t.len() {
        law_statement_progress(t, pos);
        let (r, p) = parse_statement(t, pos);
        match r {
            Ok(s) => lemma_program_errs(t, p, stmts.push(s), errors),
            Err(e) => lemma_program_errs(t, p, stmts, errors.push(e)),
        }
    }
}


/// A block left open at the end of the input is an error: a program with a
/// `roll` or a `carve` that no `enough` follows does not parse, and neither does
/// one with an `inspect` that neither `enough` nor `refine` follows.
pub proof fn law_open_block_fails(t: Seq<SpannedToken>, m: int)
    requires
        0 <= m < t.len(),
        !answered(t, m, t.len() as int),
    ensures
        parse_program(t, 0, Seq::empty(), Seq::empty()) is Err,
{
    lemma_program_closes(t, 0, Seq::empty(), Seq::empty());
    if parse_program(t, 0, Seq::empty(), Seq::empty()) is Ok {
        assert(answered(t, m, t.len() as int));
    }
}

} // verus!
