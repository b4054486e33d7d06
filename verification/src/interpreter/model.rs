//! What running a program means: the state of the interpreter as sequences of
//! scopes, and evaluation as recursive functions over the syntax tree.
//!
//! Numbers are IEEE-754 doubles, held by their bits. Whatever needs the value
//! of a number (reading a literal, arithmetic on two numbers, comparing two
//! numbers, writing one as text, using one as a repeat count) is a request to
//! the host, as is writing a line of output. A run is described for a host
//! that answers each request by a function `h`; each request goes on the
//! trace of the state, in order.
//!
//! Evaluation carries fuel: each nested statement, expression and loop
//! iteration uses one unit, and a run that uses all of it stops with an error.
use std::ops::Range;
use vstd::prelude::*;
use crate::parser::expression::{
    BinaryOp, ExpressionView, SpannedExprView, SpannedStatementView, StatementView,
};
use crate::text::utf8_len;

verus! {

/// A value of the language.
pub enum ValueView {
    Number(u64),
    Str(Seq<char>),
    Boolean(bool),
    Nil,
}

/// A function: its parameters and its body.
pub struct FunctionView {
    pub params: Seq<Seq<char>>,
    pub body: Seq<SpannedStatementView>,
}

/// What the lexer and the interpreter ask of their host.
pub enum HostRequestView {
    /// The number that a literal's text stands for.
    ParseNumber(Seq<char>),
    /// The `{:?}` text of the number that a literal's digits stand for.
    NumberDebug(Seq<char>),
    /// `first op second` on two numbers.
    Arithmetic(BinaryOp, u64, u64),
    /// A number written as text.
    NumberText(u64),
    /// Whether `first >= second` for two numbers.
    AtLeast(u64, u64),
    /// A number used as a count of repetitions.
    RepeatCount(u64),
    /// Write a line of output.
    Print(Seq<char>),
}

/// What the host answers.
pub enum HostReplyView {
    Number(u64),
    Text(Seq<char>),
    Truth(bool),
    Count(usize),
    Done,
}

/// The host, as a function from requests to replies.
pub type HostFn = spec_fn(HostRequestView) -> HostReplyView;

/// The state of the interpreter: scopes of variables and of functions,
/// innermost last, and the requests made to the host so far.
pub struct State {
    pub vars: Seq<Map<Seq<char>, ValueView>>,
    pub funcs: Seq<Map<Seq<char>, FunctionView>>,
    pub trace: Seq<HostRequestView>,
}

pub struct ErrorView {
    pub desc: Seq<char>,
    pub span: Range<usize>,
}

/// How a statement ends: normally with a value, by `destroy`, or by `engrave`.
pub enum Flow {
    Normal(ValueView),
    Break,
    Return(ValueView),
}

pub type Out<T> = (Result<T, ErrorView>, State);

pub open spec fn error(desc: Seq<char>, span: Range<usize>) -> ErrorView {
    ErrorView { desc, span }
}

pub open spec fn out_of_fuel(span: Range<usize>) -> ErrorView {
    error("evaluation ran out of fuel"@, span)
}

pub open spec fn bad_reply(span: Range<usize>) -> ErrorView {
    error("the host gave an unexpected reply"@, span)
}

// ---------------------------------------------------------------------------
// Scopes

/// The binding of `k` in the innermost scope that has one.
pub open spec fn lookup<V>(scopes: Seq<Map<Seq<char>, V>>, k: Seq<char>) -> Option<V>
    decreases scopes.len(),
{
    if scopes.len() == 0 {
        None
    } else if scopes.last().contains_key(k) {
        Some(scopes.last()[k])
    } else {
        lookup(scopes.drop_last(), k)
    }
}

/// Rebinds `k` in the innermost scope that has it.
pub open spec fn assign<V>(scopes: Seq<Map<Seq<char>, V>>, k: Seq<char>, v: V) -> Seq<Map<Seq<char>, V>>
    decreases scopes.len(),
{
    if scopes.len() == 0 {
        scopes
    } else if scopes.last().contains_key(k) {
        scopes.drop_last().push(scopes.last().insert(k, v))
    } else {
        assign(scopes.drop_last(), k, v).push(scopes.last())
    }
}

/// Binds `k` in the innermost scope.
pub open spec fn define<V>(scopes: Seq<Map<Seq<char>, V>>, k: Seq<char>, v: V) -> Seq<Map<Seq<char>, V>> {
    if scopes.len() == 0 {
        scopes
    } else {
        scopes.drop_last().push(scopes.last().insert(k, v))
    }
}

pub open spec fn push_scope(st: State) -> State {
    State { vars: st.vars.push(Map::empty()), funcs: st.funcs.push(Map::empty()), trace: st.trace }
}

pub open spec fn pop_scope(st: State) -> State {
    State {
        vars: if st.vars.len() > 0 { st.vars.drop_last() } else { st.vars },
        funcs: if st.funcs.len() > 0 { st.funcs.drop_last() } else { st.funcs },
        trace: st.trace,
    }
}

pub open spec fn define_var(st: State, k: Seq<char>, v: ValueView) -> State {
    State { vars: define(st.vars, k, v), ..st }
}

pub open spec fn assign_var(st: State, k: Seq<char>, v: ValueView) -> State {
    State { vars: assign(st.vars, k, v), ..st }
}

pub open spec fn define_fn(st: State, k: Seq<char>, f: FunctionView) -> State {
    State { funcs: define(st.funcs, k, f), ..st }
}

/// Asks the host `q`: its reply, and the state with `q` on the trace.
pub open spec fn ask(st: State, q: HostRequestView, h: HostFn) -> (HostReplyView, State) {
    (h(q), State { trace: st.trace.push(q), ..st })
}

// ---------------------------------------------------------------------------
// Values

/// The order of the kinds of values when two values of different kinds are weighed.
pub open spec fn kind_rank(v: ValueView) -> int {
    match v {
        ValueView::Number(_) => 0,
        ValueView::Str(_) => 1,
        ValueView::Boolean(_) => 2,
        ValueView::Nil => 3,
    }
}

/// `a` comes before `b` in the lexicographic order of characters.
pub open spec fn text_less(a: Seq<char>, b: Seq<char>) -> bool
    decreases a.len(),
{
    if a.len() == 0 {
        b.len() > 0
    } else if b.len() == 0 {
        false
    } else if a[0] != b[0] {
        (a[0] as u32) < (b[0] as u32)
    } else {
        text_less(a.drop_first(), b.drop_first())
    }
}

/// `weigh l against r`: whether `l >= r`.
pub open spec fn weigh(st: State, l: ValueView, r: ValueView, span: Range<usize>, h: HostFn) -> Out<ValueView> {
    match (l, r) {
        (ValueView::Number(a), ValueView::Number(b)) => {
            let (rep, st1) = ask(st, HostRequestView::AtLeast(a, b), h);
            match rep {
                HostReplyView::Truth(t) => (Ok(ValueView::Boolean(t)), st1),
                _ => (Err(bad_reply(span)), st1),
            }
        },
        (ValueView::Str(a), ValueView::Str(b)) => (Ok(ValueView::Boolean(!text_less(a, b))), st),
        (ValueView::Boolean(a), ValueView::Boolean(b)) => (Ok(ValueView::Boolean(a || !b)), st),
        (ValueView::Nil, ValueView::Nil) => (Ok(ValueView::Boolean(true)), st),
        _ => (Ok(ValueView::Boolean(kind_rank(l) >= kind_rank(r))), st),
    }
}

/// The text that `present` writes for a value.
pub open spec fn display(st: State, v: ValueView, span: Range<usize>, h: HostFn) -> (Result<Seq<char>, ErrorView>, State) {
    match v {
        ValueView::Number(n) => {
            let (rep, st1) = ask(st, HostRequestView::NumberText(n), h);
            match rep {
                HostReplyView::Text(t) => (Ok(t), st1),
                _ => (Err(bad_reply(span)), st1),
            }
        },
        ValueView::Str(s) => (Ok(s), st),
        ValueView::Boolean(b) => (Ok(if b { "big"@ } else { "small"@ }), st),
        ValueView::Nil => (Ok("nil"@), st),
    }
}

/// `s` written `n` times.
pub open spec fn repeat(s: Seq<char>, n: nat) -> Seq<char>
    decreases n,
{
    if n == 0 {
        Seq::empty()
    } else {
        repeat(s, (n - 1) as nat) + s
    }
}

/// The name of a kind of value in error messages.
pub open spec fn kind_name(v: ValueView) -> Seq<char> {
    match v {
        ValueView::Boolean(_) => "boolean"@,
        ValueView::Number(_) => "number"@,
        ValueView::Str(_) => "string"@,
        ValueView::Nil => "nil"@,
    }
}

pub open spec fn op_verb(op: BinaryOp) -> Seq<char> {
    match op {
        BinaryOp::Add => "add"@,
        BinaryOp::Sub => "subtract"@,
        BinaryOp::Mul => "multiply"@,
        BinaryOp::Div => "divide"@,
    }
}

pub open spec fn op_preposition(op: BinaryOp) -> Seq<char> {
    match op {
        BinaryOp::Add => "to"@,
        BinaryOp::Sub => "from"@,
        BinaryOp::Mul => "by"@,
        BinaryOp::Div => "by"@,
    }
}

/// The error for an operation on values of kinds it does not take.
pub open spec fn mismatch(op: BinaryOp, lhs: ValueView, rhs: ValueView, span: Range<usize>) -> ErrorView {
    error(
        "attempted to "@ + op_verb(op) + " "@ + kind_name(rhs) + " "@ + op_preposition(op) + " "@ + kind_name(lhs),
        span,
    )
}

/// A number from the host, or the error for a wrong reply.
pub open spec fn number_reply(p: (HostReplyView, State), span: Range<usize>) -> Out<ValueView> {
    match p.0 {
        HostReplyView::Number(n) => (Ok(ValueView::Number(n)), p.1),
        _ => (Err(bad_reply(span)), p.1),
    }
}

/// `s` repeated as many times as the number `n` counts.
pub open spec fn repeat_by(st: State, s: Seq<char>, n: u64, span: Range<usize>, h: HostFn) -> Out<ValueView> {
    let (rep, st1) = ask(st, HostRequestView::RepeatCount(n), h);
    match rep {
        HostReplyView::Count(c) => {
            if s.len() == 0 {
                (Ok(ValueView::Str(Seq::empty())), st1)
            } else if utf8_len(s) * c > usize::MAX {
                (Err(error("capacity overflow"@, span)), st1)
            } else {
                (Ok(ValueView::Str(repeat(s, c as nat))), st1)
            }
        },
        _ => (Err(bad_reply(span)), st1),
    }
}

/// The result of an operation, where `lhs` is the left side and `rhs` the right.
///
/// Numbers combine as `rhs op lhs`; `smash` joins a string on the right with
/// a number, a string or a truth value on the left, in that order; `mate`
/// repeats a string by a number on either side.
pub open spec fn calculate(
    st: State,
    op: BinaryOp,
    lhs: ValueView,
    rhs: ValueView,
    span: Range<usize>,
    h: HostFn,
) -> Out<ValueView> {
    let fail = (Err(mismatch(op, lhs, rhs, span)), st);
    match op {
        BinaryOp::Add => match (rhs, lhs) {
            (ValueView::Number(a), ValueView::Number(b)) => number_reply(
                ask(st, HostRequestView::Arithmetic(op, a, b), h),
                span,
            ),
            (ValueView::Str(s1), ValueView::Number(n)) => {
                let (rep, st1) = ask(st, HostRequestView::NumberText(n), h);
                match rep {
                    HostReplyView::Text(t) => (Ok(ValueView::Str(s1 + t)), st1),
                    _ => (Err(bad_reply(span)), st1),
                }
            },
            (ValueView::Str(s1), ValueView::Str(s2)) => (Ok(ValueView::Str(s1 + s2)), st),
            (ValueView::Str(s1), ValueView::Boolean(b)) => (
                Ok(ValueView::Str(s1 + if b { "true"@ } else { "false"@ })),
                st,
            ),
            _ => fail,
        },
        BinaryOp::Sub | BinaryOp::Div => match (rhs, lhs) {
            (ValueView::Number(a), ValueView::Number(b)) => number_reply(
                ask(st, HostRequestView::Arithmetic(op, a, b), h),
                span,
            ),
            _ => fail,
        },
        BinaryOp::Mul => match (rhs, lhs) {
            (ValueView::Number(a), ValueView::Number(b)) => number_reply(
                ask(st, HostRequestView::Arithmetic(op, a, b), h),
                span,
            ),
            (ValueView::Number(n), ValueView::Str(s)) => repeat_by(st, s, n, span, h),
            (ValueView::Str(s), ValueView::Number(n)) => repeat_by(st, s, n, span, h),
            _ => fail,
        },
    }
}

// ---------------------------------------------------------------------------
// Evaluation

/// The value of an expression.
pub open spec fn eval_expr(st: State, e: SpannedExprView, h: HostFn, fuel: nat) -> Out<ValueView>
    decreases fuel, 2nat,
{
    if fuel == 0 {
        (Err(out_of_fuel(e.span)), st)
    } else {
        let f = (fuel - 1) as nat;
        match e.expr {
            ExpressionView::Number(t) => number_reply(ask(st, HostRequestView::ParseNumber(t), h), e.span),
            ExpressionView::Str(s) => (Ok(ValueView::Str(s)), st),
            ExpressionView::Boolean(b) => (Ok(ValueView::Boolean(b)), st),
            ExpressionView::Identifier(name) => match lookup(st.vars, name) {
                Some(v) => (Ok(v), st),
                None => (Err(error("unknown variable"@, e.span)), st),
            },
            ExpressionView::Group(inner) => eval_expr(st, *inner, h, f),
            ExpressionView::Weigh { left, right } => match eval_expr(st, *left, h, f) {
                (Err(x), s1) => (Err(x), s1),
                (Ok(l), s1) => match eval_expr(s1, *right, h, f) {
                    (Err(x), s2) => (Err(x), s2),
                    (Ok(r), s2) => weigh(s2, l, r, e.span, h),
                },
            },
            ExpressionView::BinaryOp { operation, lhs, rhs } => match eval_expr(st, *lhs, h, f) {
                (Err(x), s1) => (Err(x), s1),
                (Ok(l), s1) => match eval_expr(s1, *rhs, h, f) {
                    (Err(x), s2) => (Err(x), s2),
                    (Ok(r), s2) => calculate(s2, operation, l, r, e.span, h),
                },
            },
            ExpressionView::FnCall { name, args } => call(st, name, args, e.span, h, fuel),
        }
    }
}

/// A call of the function `name`: its arguments are evaluated in the
/// function's new scope, and bound to its parameters, as far as both go.
pub open spec fn call(
    st: State,
    name: Seq<char>,
    args: Seq<SpannedExprView>,
    span: Range<usize>,
    h: HostFn,
    fuel: nat,
) -> Out<ValueView>
    decreases fuel, 1nat,
{
    if fuel == 0 {
        (Err(out_of_fuel(span)), st)
    } else {
        let f = (fuel - 1) as nat;
        match lookup(st.funcs, name) {
            None => (Err(error("unknown function"@, span)), st),
            Some(func) => match bind_args(push_scope(st), func.params, args, 0, h, f) {
                (Err(x), s1) => (Err(x), s1),
                (Ok(_), s1) => match exec_block(s1, func.body, 0, ValueView::Nil, h, f) {
                    (Err(x), s2) => (Err(x), s2),
                    (Ok(flow), s2) => {
                        let s3 = pop_scope(s2);
                        match flow {
                            Flow::Return(v) => (Ok(v), s3),
                            Flow::Normal(_) => (Ok(ValueView::Nil), s3),
                            Flow::Break => (Err(error("attempted to break form function"@, span)), s3),
                        }
                    },
                },
            },
        }
    }
}

/// Binds `params[i..]` to the values of `args[i..]`, as far as both go.
pub open spec fn bind_args(
    st: State,
    params: Seq<Seq<char>>,
    args: Seq<SpannedExprView>,
    i: int,
    h: HostFn,
    fuel: nat,
) -> Out<()>
    decreases fuel, 3 + args.len() - i,
{
    if i < 0 || i >= params.len() || i >= args.len() {
        (Ok(()), st)
    } else {
        match eval_expr(st, args[i], h, fuel) {
            (Err(x), s1) => (Err(x), s1),
            (Ok(v), s1) => bind_args(define_var(s1, params[i], v), params, args, i + 1, h, fuel),
        }
    }
}

/// Runs `body[i..]`; ends at the first statement that does not end normally,
/// or with the value of the last statement (`last` where none is left).
pub open spec fn exec_block(
    st: State,
    body: Seq<SpannedStatementView>,
    i: int,
    last: ValueView,
    h: HostFn,
    fuel: nat,
) -> Out<Flow>
    decreases fuel, 1 + body.len() - i,
{
    if i < 0 || i >= body.len() {
        (Ok(Flow::Normal(last)), st)
    } else {
        match exec_stmt(st, body[i], h, fuel) {
            (Err(x), s1) => (Err(x), s1),
            (Ok(Flow::Normal(v)), s1) => exec_block(s1, body, i + 1, v, h, fuel),
            (Ok(flow), s1) => (Ok(flow), s1),
        }
    }
}

/// Runs a block in a scope of its own. The scope is left in place where the block fails.
pub open spec fn run_scoped(st: State, body: Seq<SpannedStatementView>, h: HostFn, fuel: nat) -> Out<Flow>
    decreases fuel, 2 + body.len(),
{
    match exec_block(push_scope(st), body, 0, ValueView::Nil, h, fuel) {
        (Err(x), s1) => (Err(x), s1),
        (Ok(flow), s1) => (Ok(flow), pop_scope(s1)),
    }
}

/// `roll while condition body enough`.
pub open spec fn exec_while(
    st: State,
    condition: SpannedExprView,
    body: Seq<SpannedStatementView>,
    h: HostFn,
    fuel: nat,
) -> Out<Flow>
    decreases fuel, 0nat,
{
    if fuel == 0 {
        (Err(out_of_fuel(condition.span)), st)
    } else {
        let f = (fuel - 1) as nat;
        match eval_expr(st, condition, h, f) {
            (Err(x), s1) => (Err(x), s1),
            (Ok(c), s1) => {
                if c != ValueView::Boolean(true) {
                    (Ok(Flow::Normal(ValueView::Nil)), s1)
                } else {
                    match run_scoped(s1, body, h, f) {
                        (Err(x), s2) => (Err(x), s2),
                        (Ok(Flow::Break), s2) => (Ok(Flow::Normal(ValueView::Nil)), s2),
                        (Ok(Flow::Return(v)), s2) => (Ok(Flow::Return(v)), s2),
                        (Ok(Flow::Normal(_)), s2) => exec_while(s2, condition, body, h, f),
                    }
                }
            },
        }
    }
}

/// How a statement ends, and the state after it.
pub open spec fn exec_stmt(st: State, s: SpannedStatementView, h: HostFn, fuel: nat) -> Out<Flow>
    decreases fuel, 0nat,
{
    if fuel == 0 {
        (Err(out_of_fuel(s.span)), st)
    } else {
        let f = (fuel - 1) as nat;
        match s.statement {
            StatementView::VarDef { name, value } => match eval_expr(st, *value, h, f) {
                (Err(x), s1) => (Err(x), s1),
                (Ok(v), s1) => (Ok(Flow::Normal(ValueView::Nil)), define_var(s1, name, v)),
            },
            StatementView::Print(e) => match eval_expr(st, *e, h, f) {
                (Err(x), s1) => (Err(x), s1),
                (Ok(v), s1) => match display(s1, v, e.span, h) {
                    (Err(x), s2) => (Err(x), s2),
                    (Ok(text), s2) => (Ok(Flow::Normal(ValueView::Nil)), ask(s2, HostRequestView::Print(text), h).1),
                },
            },
            StatementView::Assign { operation, variable, value } => match eval_expr(st, *value, h, f) {
                (Err(x), s1) => (Err(x), s1),
                (Ok(v), s1) => match lookup(s1.vars, variable) {
                    None => (Err(error("unknown variable"@, s.span)), s1),
                    Some(cur) => match calculate(s1, operation, cur, v, s.span, h) {
                        (Err(x), s2) => (Err(x), s2),
                        (Ok(res), s2) => (Ok(Flow::Normal(ValueView::Nil)), assign_var(s2, variable, res)),
                    },
                },
            },
            StatementView::FnDef { name, params, body } => (
                Ok(Flow::Normal(ValueView::Nil)),
                define_fn(st, name, FunctionView { params, body }),
            ),
            StatementView::Return(e) => match eval_expr(st, *e, h, f) {
                (Err(x), s1) => (Err(x), s1),
                (Ok(v), s1) => (Ok(Flow::Return(v)), s1),
            },
            StatementView::If { condition, body, else_ } => match eval_expr(st, *condition, h, f) {
                (Err(x), s1) => (Err(x), s1),
                (Ok(c), s1) => {
                    if c == ValueView::Boolean(true) {
                        run_scoped(s1, body, h, f)
                    } else {
                        match else_ {
                            Some(b) => run_scoped(s1, b, h, f),
                            None => (Ok(Flow::Normal(ValueView::Nil)), s1),
                        }
                    }
                },
            },
            StatementView::While { condition, body } => exec_while(st, *condition, body, h, f),
            StatementView::Break => (Ok(Flow::Break), st),
            StatementView::Expr(e) => match eval_expr(st, *e, h, f) {
                (Err(x), s1) => (Err(x), s1),
                (Ok(v), s1) => (Ok(Flow::Normal(v)), s1),
            },
        }
    }
}

/// The fuel of each statement at the top of a program.
pub open spec fn program_fuel() -> nat {
    0xffff_ffff_ffff_ffff
}

/// Runs `prog[i..]` at the top level: the value of the last statement, or the first error.
pub open spec fn run_program(st: State, prog: Seq<SpannedStatementView>, i: int, last: ValueView, h: HostFn) -> Out<ValueView>
    decreases prog.len() - i,
{
    if i < 0 || i >= prog.len() {
        (Ok(last), st)
    } else {
        match exec_stmt(st, prog[i], h, program_fuel()) {
            (Err(x), s1) => (Err(x), s1),
            (Ok(flow), s1) => run_program(
                s1,
                prog,
                i + 1,
                match flow {
                    Flow::Normal(v) => v,
                    Flow::Return(v) => v,
                    Flow::Break => ValueView::Nil,
                },
                h,
            ),
        }
    }
}

} // verus!
