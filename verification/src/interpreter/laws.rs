//! What holds of every run: how variables read back what was written, how
//! scopes come and go, how weighing orders values, and how runs on one
//! interpreter add up.
use std::ops::Range;
use vstd::prelude::*;
use crate::interpreter::model::{
    Flow, HostFn, HostRequestView, State, ValueView, ask, assign, assign_var, bind_args, call, calculate, define,
    define_fn, define_var, display, eval_expr, exec_block, exec_stmt, exec_while, lookup, pop_scope,
    push_scope, run_program, run_scoped, text_less, weigh,
};
use crate::interpreter::model::{ErrorView, HostReplyView, error, mismatch, number_reply, program_fuel};
use crate::text::utf8_len;
use crate::interpreter::model::repeat;
use crate::parser::expression::{BinaryOp, ExpressionView, SpannedExprView, SpannedStatementView, StatementView};

verus! {

/// A variable reads back the value that a definition gave it, and a definition
/// leaves what every other name reads as it was.
pub proof fn law_lookup_after_define(st: State, k: Seq<char>, v: ValueView, other: Seq<char>)
    requires
        st.vars.len() > 0,
    ensures
        lookup(define_var(st, k, v).vars, k) == Some(v),
        other != k ==> lookup(define_var(st, k, v).vars, other) == lookup(st.vars, other),
{
    let d = define(st.vars, k, v);
    assert(d.drop_last() =~= st.vars.drop_last());
}

/// Assigning to a bound name makes it read the new value; assigning to an
/// unbound name changes nothing; either way every other name reads as before.
pub proof fn law_lookup_after_assign<V>(scopes: Seq<Map<Seq<char>, V>>, k: Seq<char>, v: V, other: Seq<char>)
    ensures
        lookup(scopes, k) is Some ==> lookup(assign(scopes, k, v), k) == Some(v),
        lookup(scopes, k) is None ==> assign(scopes, k, v) == scopes,
        other != k ==> lookup(assign(scopes, k, v), other) == lookup(scopes, other),
    decreases scopes.len(),
{
    if scopes.len() > 0 {
        let rest = scopes.drop_last();
        if scopes.last().contains_key(k) {
            let a = assign(scopes, k, v);
            assert(a.drop_last() =~= rest);
        } else {
            law_lookup_after_assign(rest, k, v, other);
            let a = assign(scopes, k, v);
            assert(a.drop_last() =~= assign(rest, k, v));
            if lookup(scopes, k) is None {
                assert(a =~= scopes);
            }
        }
    } else {
        assert(assign(scopes, k, v) =~= scopes);
    }
}

/// Leaving a scope right after entering it gives back the state as it was.
pub proof fn law_pop_after_push(st: State)
    ensures
        pop_scope(push_scope(st)) == st,
{
    assert(pop_scope(push_scope(st)).vars =~= st.vars);
    assert(pop_scope(push_scope(st)).funcs =~= st.funcs);
}

/// A definition made in a scope is gone once the scope is left.
pub proof fn law_inner_definition_vanishes(st: State, k: Seq<char>, v: ValueView)
    ensures
        pop_scope(define_var(push_scope(st), k, v)) == st,
{
    let inner = define_var(push_scope(st), k, v);
    assert(inner.vars.drop_last() =~= st.vars);
    assert(pop_scope(inner).vars =~= st.vars);
    assert(pop_scope(inner).funcs =~= st.funcs);
}

/// No text comes before itself, and of two texts at most one comes before the other.
pub proof fn lemma_text_less_strict(a: Seq<char>, b: Seq<char>)
    ensures
        !text_less(a, a),
        !(text_less(a, b) && text_less(b, a)),
    decreases a.len(),
{
    if a.len() > 0 && b.len() > 0 {
        lemma_text_less_strict(a.drop_first(), b.drop_first());
    } else if a.len() > 0 {
        lemma_text_less_strict(a.drop_first(), a.drop_first());
    }
}

/// Weighing a value that is not a number against itself gives `big`; and where
/// not both values are numbers, of `weigh a against b` and `weigh b against a`
/// at least one gives `big`. Neither asks the host anything.
pub proof fn law_weigh_orders(st: State, a: ValueView, b: ValueView, span: Range<usize>, h: HostFn)
    requires
        !(a is Number && b is Number),
    ensures
        a !is Number ==> weigh(st, a, a, span, h) == (Ok::<ValueView, crate::interpreter::model::ErrorView>(ValueView::Boolean(true)), st),
        weigh(st, a, b, span, h).1 == st,
        weigh(st, a, b, span, h).0 == Ok::<ValueView, crate::interpreter::model::ErrorView>(ValueView::Boolean(true))
            || weigh(st, b, a, span, h).0 == Ok::<ValueView, crate::interpreter::model::ErrorView>(ValueView::Boolean(true)),
{
    match (a, b) {
        (ValueView::Str(x), ValueView::Str(y)) => {
            lemma_text_less_strict(x, y);
        },
        (ValueView::Str(x), _) => {
            lemma_text_less_strict(x, x);
        },
        _ => {},
    }
}

/// A comparison that does not fail gives `big` or `small`.
pub proof fn law_weigh_gives_truth(st: State, a: ValueView, b: ValueView, span: Range<usize>, h: HostFn)
    ensures
        weigh(st, a, b, span, h).0 matches Ok(v) ==> v is Boolean,
{
}

/// The value that a statement that ended by `flow` leaves for the program.
pub open spec fn flow_value(flow: Flow) -> ValueView {
    match flow {
        Flow::Normal(v) => v,
        Flow::Return(v) => v,
        Flow::Break => ValueView::Nil,
    }
}

proof fn lemma_run_shift(st: State, a: Seq<SpannedStatementView>, b: Seq<SpannedStatementView>, j: int, last: ValueView, h: HostFn)
    requires
        0 <= j <= b.len(),
    ensures
        run_program(st, a + b, a.len() + j, last, h) == run_program(st, b, j, last, h),
    decreases b.len() - j,
{
    if j < b.len() {
        assert((a + b)[a.len() + j] == b[j]);
        let (r, s1) = crate::interpreter::model::exec_stmt(st, b[j], h, crate::interpreter::model::program_fuel());
        if let Ok(flow) = r {
            lemma_run_shift(s1, a, b, j + 1, flow_value(flow), h);
        }
    }
}

proof fn lemma_run_joined(st: State, a: Seq<SpannedStatementView>, b: Seq<SpannedStatementView>, i: int, last: ValueView, h: HostFn)
    requires
        0 <= i <= a.len(),
    ensures
        run_program(st, a + b, i, last, h) == (match run_program(st, a, i, last, h) {
            (Err(x), s) => (Err(x), s),
            (Ok(v), s) => run_program(s, b, 0, v, h),
        }),
    decreases a.len() - i,
{
    if i < a.len() {
        assert((a + b)[i] == a[i]);
        let (r, s1) = crate::interpreter::model::exec_stmt(st, a[i], h, crate::interpreter::model::program_fuel());
        if let Ok(flow) = r {
            lemma_run_joined(s1, a, b, i + 1, flow_value(flow), h);
        }
    } else {
        lemma_run_shift(st, a, b, 0, last, h);
    }
}

proof fn lemma_run_start_value(st: State, b: Seq<SpannedStatementView>, v: ValueView, w: ValueView, h: HostFn)
    requires
        b.len() > 0,
    ensures
        run_program(st, b, 0, v, h) == run_program(st, b, 0, w, h),
{
}

/// Two programs run one after the other on one interpreter do what the two
/// joined do in one run: where the first fails, the joined run fails the same
/// way; else the second run leaves the state that the joined run leaves, and,
/// where it has a statement, gives the value that the joined run gives.
pub proof fn law_runs_add_up(st: State, a: Seq<SpannedStatementView>, b: Seq<SpannedStatementView>, h: HostFn)
    ensures
        ({
            let (ra, sa) = run_program(st, a, 0, ValueView::Nil, h);
            let joined = run_program(st, a + b, 0, ValueView::Nil, h);
            &&& ra is Err ==> joined == (ra, sa)
            &&& ra is Ok ==> joined.1 == run_program(sa, b, 0, ValueView::Nil, h).1
            &&& (ra is Ok && b.len() > 0) ==> joined == run_program(sa, b, 0, ValueView::Nil, h)
        }),
{
    lemma_run_joined(st, a, b, 0, ValueView::Nil, h);
    let (ra, sa) = run_program(st, a, 0, ValueView::Nil, h);
    if let Ok(v) = ra {
        if b.len() > 0 {
            lemma_run_start_value(sa, b, v, ValueView::Nil, h);
        } else {
            assert(run_program(sa, b, 0, v, h).1 == sa);
        }
    }
}

/// `b` has the scopes of `a`, each binding the same names, and the requests of
/// `a` to the host come first on its trace.
pub open spec fn same_scopes(a: State, b: State) -> bool {
    &&& a.vars.len() == b.vars.len()
    &&& a.funcs.len() == b.funcs.len()
    &&& forall|i: int| 0 <= i < a.vars.len() ==> (#[trigger] a.vars[i]).dom() == b.vars[i].dom()
    &&& forall|i: int| 0 <= i < a.funcs.len() ==> (#[trigger] a.funcs[i]).dom() == b.funcs[i].dom()
    &&& a.trace.is_prefix_of(b.trace)
}

/// As `same_scopes`, but that the innermost scope may bind more names.
pub open spec fn same_outer_scopes(a: State, b: State) -> bool {
    &&& a.vars.len() == b.vars.len()
    &&& a.funcs.len() == b.funcs.len()
    &&& forall|i: int| 0 <= i < a.vars.len() - 1 ==> (#[trigger] a.vars[i]).dom() == b.vars[i].dom()
    &&& forall|i: int| 0 <= i < a.funcs.len() - 1 ==> (#[trigger] a.funcs[i]).dom() == b.funcs[i].dom()
    &&& a.trace.is_prefix_of(b.trace)
}

proof fn lemma_prefix_trans(a: Seq<HostRequestView>, b: Seq<HostRequestView>, c: Seq<HostRequestView>)
    requires
        a.is_prefix_of(b),
        b.is_prefix_of(c),
    ensures
        a.is_prefix_of(c),
{
    assert(a =~= c.take(a.len() as int)) by {
        assert forall|i: int| 0 <= i < a.len() implies a[i] == c.take(a.len() as int)[i] by {
            assert(a[i] == b[i]);
            assert(b[i] == c[i]);
        }
    }
}

proof fn lemma_same_trans(a: State, b: State, c: State)
    requires
        same_scopes(a, b),
        same_scopes(b, c),
    ensures
        same_scopes(a, c),
{
    lemma_prefix_trans(a.trace, b.trace, c.trace);
    assert forall|i: int| 0 <= i < a.vars.len() implies (#[trigger] a.vars[i]).dom() == c.vars[i].dom() by {
        assert(b.vars[i].dom() == c.vars[i].dom());
    }
    assert forall|i: int| 0 <= i < a.funcs.len() implies (#[trigger] a.funcs[i]).dom() == c.funcs[i].dom() by {
        assert(b.funcs[i].dom() == c.funcs[i].dom());
    }
}

proof fn lemma_outer_trans(a: State, b: State, c: State)
    requires
        same_outer_scopes(a, b),
        same_outer_scopes(b, c),
    ensures
        same_outer_scopes(a, c),
{
    lemma_prefix_trans(a.trace, b.trace, c.trace);
    assert forall|i: int| 0 <= i < a.vars.len() - 1 implies (#[trigger] a.vars[i]).dom() == c.vars[i].dom() by {
        assert(b.vars[i].dom() == c.vars[i].dom());
    }
    assert forall|i: int| 0 <= i < a.funcs.len() - 1 implies (#[trigger] a.funcs[i]).dom() == c.funcs[i].dom() by {
        assert(b.funcs[i].dom() == c.funcs[i].dom());
    }
}

proof fn lemma_same_refl(a: State)
    ensures
        same_scopes(a, a),
{
    assert(a.trace.is_prefix_of(a.trace)) by {
        assert(a.trace =~= a.trace.take(a.trace.len() as int));
    }
}

proof fn lemma_ask_same(st: State, q: HostRequestView, h: HostFn)
    ensures
        same_scopes(st, ask(st, q, h).1),
{
    let s1 = ask(st, q, h).1;
    assert(st.trace =~= s1.trace.take(st.trace.len() as int));
}

proof fn lemma_assign_doms<V>(scopes: Seq<Map<Seq<char>, V>>, k: Seq<char>, v: V)
    ensures
        assign(scopes, k, v).len() == scopes.len(),
        forall|i: int| 0 <= i < scopes.len() ==> (#[trigger] assign(scopes, k, v)[i]).dom() == scopes[i].dom(),
    decreases scopes.len(),
{
    if scopes.len() > 0 {
        let rest = scopes.drop_last();
        lemma_assign_doms(rest, k, v);
        let a = assign(scopes, k, v);
        if scopes.last().contains_key(k) {
            assert forall|i: int| 0 <= i < scopes.len() implies (#[trigger] a[i]).dom() == scopes[i].dom() by {
                if i == scopes.len() - 1 {
                    assert(a[i].dom() =~= scopes[i].dom());
                }
            }
        } else {
            assert forall|i: int| 0 <= i < scopes.len() implies (#[trigger] a[i]).dom() == scopes[i].dom() by {
                if i < scopes.len() - 1 {
                    assert(a[i] == assign(rest, k, v)[i]);
                }
            }
        }
    }
}

proof fn lemma_assign_var_same(st: State, k: Seq<char>, v: ValueView)
    ensures
        same_scopes(st, assign_var(st, k, v)),
{
    lemma_assign_doms(st.vars, k, v);
    lemma_same_refl(st);
}

proof fn lemma_define_outer<V>(scopes: Seq<Map<Seq<char>, V>>, k: Seq<char>, v: V)
    ensures
        define(scopes, k, v).len() == scopes.len(),
        forall|i: int| 0 <= i < scopes.len() - 1 ==> (#[trigger] define(scopes, k, v)[i]) == scopes[i],
{
}

proof fn lemma_define_var_outer(st: State, k: Seq<char>, v: ValueView)
    ensures
        same_outer_scopes(st, define_var(st, k, v)),
{
    lemma_define_outer(st.vars, k, v);
    lemma_same_refl(st);
}

proof fn lemma_define_fn_outer(st: State, k: Seq<char>, f: crate::interpreter::model::FunctionView)
    ensures
        same_outer_scopes(st, define_fn(st, k, f)),
{
    lemma_define_outer(st.funcs, k, f);
    lemma_same_refl(st);
}

proof fn lemma_weigh_same(st: State, l: ValueView, r: ValueView, span: Range<usize>, h: HostFn)
    ensures
        same_scopes(st, weigh(st, l, r, span, h).1),
{
    lemma_same_refl(st);
    if let (ValueView::Number(a), ValueView::Number(b)) = (l, r) {
        lemma_ask_same(st, HostRequestView::AtLeast(a, b), h);
    }
}

proof fn lemma_display_same(st: State, v: ValueView, span: Range<usize>, h: HostFn)
    ensures
        same_scopes(st, display(st, v, span, h).1),
{
    lemma_same_refl(st);
    if let ValueView::Number(n) = v {
        lemma_ask_same(st, HostRequestView::NumberText(n), h);
    }
}

proof fn lemma_calculate_same(st: State, op: crate::parser::expression::BinaryOp, l: ValueView, r: ValueView, span: Range<usize>, h: HostFn)
    ensures
        same_scopes(st, calculate(st, op, l, r, span, h).1),
{
    lemma_same_refl(st);
    match (r, l) {
        (ValueView::Number(a), ValueView::Number(b)) => {
            lemma_ask_same(st, HostRequestView::Arithmetic(op, a, b), h);
        },
        (ValueView::Str(_), ValueView::Number(n)) => {
            lemma_ask_same(st, HostRequestView::NumberText(n), h);
            lemma_ask_same(st, HostRequestView::RepeatCount(n), h);
        },
        (ValueView::Number(n), ValueView::Str(_)) => {
            lemma_ask_same(st, HostRequestView::RepeatCount(n), h);
        },
        _ => {},
    }
}

proof fn lemma_push_pop_same(st: State, s1: State)
    requires
        same_outer_scopes(push_scope(st), s1),
    ensures
        same_scopes(st, pop_scope(s1)),
{
    let p = push_scope(st);
    let s2 = pop_scope(s1);
    assert forall|i: int| 0 <= i < st.vars.len() implies (#[trigger] st.vars[i]).dom() == s2.vars[i].dom() by {
        assert(p.vars[i] == st.vars[i]);
    }
    assert forall|i: int| 0 <= i < st.funcs.len() implies (#[trigger] st.funcs[i]).dom() == s2.funcs[i].dom() by {
        assert(p.funcs[i] == st.funcs[i]);
    }
}

/// An expression that is evaluated to its end leaves the scopes as they were,
/// each binding the same names, and only adds requests to the trace.
pub proof fn law_expression_keeps_scopes(st: State, e: SpannedExprView, h: HostFn, fuel: nat)
    ensures
        eval_expr(st, e, h, fuel).0 is Ok ==> same_scopes(st, eval_expr(st, e, h, fuel).1),
    decreases fuel, 2nat,
{
    lemma_same_refl(st);
    if fuel > 0 {
        let f = (fuel - 1) as nat;
        match e.expr {
            ExpressionView::Number(t) => {
                lemma_ask_same(st, HostRequestView::ParseNumber(t), h);
            },
            ExpressionView::Group(inner) => {
                law_expression_keeps_scopes(st, *inner, h, f);
            },
            ExpressionView::Weigh { left, right } => {
                law_expression_keeps_scopes(st, *left, h, f);
                let (r1, s1) = eval_expr(st, *left, h, f);
                if let Ok(l) = r1 {
                    law_expression_keeps_scopes(s1, *right, h, f);
                    let (r2, s2) = eval_expr(s1, *right, h, f);
                    if let Ok(r) = r2 {
                        lemma_weigh_same(s2, l, r, e.span, h);
                        lemma_same_trans(s1, s2, weigh(s2, l, r, e.span, h).1);
                        lemma_same_trans(st, s1, weigh(s2, l, r, e.span, h).1);
                    }
                }
            },
            ExpressionView::BinaryOp { operation, lhs, rhs } => {
                law_expression_keeps_scopes(st, *lhs, h, f);
                let (r1, s1) = eval_expr(st, *lhs, h, f);
                if let Ok(l) = r1 {
                    law_expression_keeps_scopes(s1, *rhs, h, f);
                    let (r2, s2) = eval_expr(s1, *rhs, h, f);
                    if let Ok(r) = r2 {
                        lemma_calculate_same(s2, operation, l, r, e.span, h);
                        lemma_same_trans(s1, s2, calculate(s2, operation, l, r, e.span, h).1);
                        lemma_same_trans(st, s1, calculate(s2, operation, l, r, e.span, h).1);
                    }
                }
            },
            ExpressionView::FnCall { name, args } => {
                law_call_keeps_scopes(st, name, args, e.span, h, fuel);
            },
            _ => {},
        }
    }
}

/// A function call that returns leaves the scopes as they were, each binding
/// the same names: the parameters and everything the body defined are gone.
pub proof fn law_call_keeps_scopes(
    st: State,
    name: Seq<char>,
    args: Seq<SpannedExprView>,
    span: Range<usize>,
    h: HostFn,
    fuel: nat,
)
    ensures
        call(st, name, args, span, h, fuel).0 is Ok ==> same_scopes(st, call(st, name, args, span, h, fuel).1),
    decreases fuel, 1nat,
{
    if fuel > 0 {
        let f = (fuel - 1) as nat;
        if let Some(func) = lookup(st.funcs, name) {
            let p = push_scope(st);
            lemma_bind_args_outer(p, func.params, args, 0, h, f);
            let (r1, s1) = bind_args(p, func.params, args, 0, h, f);
            if r1 is Ok {
                lemma_block_outer(s1, func.body, 0, ValueView::Nil, h, f);
                let (r2, s2) = exec_block(s1, func.body, 0, ValueView::Nil, h, f);
                if r2 is Ok {
                    lemma_outer_trans(p, s1, s2);
                    lemma_push_pop_same(st, s2);
                }
            }
        }
    }
}

proof fn lemma_bind_args_outer(
    st: State,
    params: Seq<Seq<char>>,
    args: Seq<SpannedExprView>,
    i: int,
    h: HostFn,
    fuel: nat,
)
    ensures
        bind_args(st, params, args, i, h, fuel).0 is Ok ==> same_outer_scopes(st, bind_args(st, params, args, i, h, fuel).1),
    decreases fuel, 3 + args.len() - i,
{
    lemma_same_refl(st);
    if 0 <= i < params.len() && i < args.len() {
        law_expression_keeps_scopes(st, args[i], h, fuel);
        let (r1, s1) = eval_expr(st, args[i], h, fuel);
        if let Ok(v) = r1 {
            let s2 = define_var(s1, params[i], v);
            lemma_define_var_outer(s1, params[i], v);
            lemma_bind_args_outer(s2, params, args, i + 1, h, fuel);
            lemma_outer_trans(st, s1, s2);
            if bind_args(s2, params, args, i + 1, h, fuel).0 is Ok {
                lemma_outer_trans(st, s2, bind_args(s2, params, args, i + 1, h, fuel).1);
            }
        }
    }
}

proof fn lemma_block_outer(st: State, body: Seq<SpannedStatementView>, i: int, last: ValueView, h: HostFn, fuel: nat)
    ensures
        exec_block(st, body, i, last, h, fuel).0 is Ok ==> same_outer_scopes(st, exec_block(st, body, i, last, h, fuel).1),
    decreases fuel, 1 + body.len() - i,
{
    lemma_same_refl(st);
    if 0 <= i < body.len() {
        law_statement_keeps_outer_scopes(st, body[i], h, fuel);
        let (r1, s1) = exec_stmt(st, body[i], h, fuel);
        if let Ok(Flow::Normal(v)) = r1 {
            lemma_block_outer(s1, body, i + 1, v, h, fuel);
            if exec_block(s1, body, i + 1, v, h, fuel).0 is Ok {
                lemma_outer_trans(st, s1, exec_block(s1, body, i + 1, v, h, fuel).1);
            }
        }
    }
}

/// A block that runs to its end in a scope of its own (the body of an
/// `inspect`, a `refine` or a `roll while`) leaves the scopes as they were.
pub proof fn law_block_keeps_scopes(st: State, body: Seq<SpannedStatementView>, h: HostFn, fuel: nat)
    ensures
        run_scoped(st, body, h, fuel).0 is Ok ==> same_scopes(st, run_scoped(st, body, h, fuel).1),
    decreases fuel, 2 + body.len(),
{
    let p = push_scope(st);
    lemma_block_outer(p, body, 0, ValueView::Nil, h, fuel);
    let (r1, s1) = exec_block(p, body, 0, ValueView::Nil, h, fuel);
    if r1 is Ok {
        lemma_push_pop_same(st, s1);
    }
}

/// A loop that ends without failing leaves the scopes as they were, each binding
/// the same names: every round's scope is gone.
pub proof fn law_loop_keeps_scopes(st: State, condition: SpannedExprView, body: Seq<SpannedStatementView>, h: HostFn, fuel: nat)
    ensures
        exec_while(st, condition, body, h, fuel).0 is Ok ==> same_scopes(st, exec_while(st, condition, body, h, fuel).1),
    decreases fuel, 0nat,
{
    lemma_same_refl(st);
    if fuel > 0 {
        let f = (fuel - 1) as nat;
        law_expression_keeps_scopes(st, condition, h, f);
        let (r1, s1) = eval_expr(st, condition, h, f);
        if let Ok(c) = r1 {
            if c == ValueView::Boolean(true) {
                law_block_keeps_scopes(s1, body, h, f);
                let (r2, s2) = run_scoped(s1, body, h, f);
                if r2 is Ok {
                    lemma_same_trans(st, s1, s2);
                    law_loop_keeps_scopes(s2, condition, body, h, f);
                    if r2 matches Ok(Flow::Normal(_)) {
                        if exec_while(s2, condition, body, h, f).0 is Ok {
                            lemma_same_trans(st, s2, exec_while(s2, condition, body, h, f).1);
                        }
                    }
                }
            }
        }
    }
}

/// A statement that runs to its end leaves the scopes as they were, each
/// binding the same names, but that the innermost may bind more: what a
/// definition at this level adds.
pub proof fn law_statement_keeps_outer_scopes(st: State, s: SpannedStatementView, h: HostFn, fuel: nat)
    ensures
        exec_stmt(st, s, h, fuel).0 is Ok ==> same_outer_scopes(st, exec_stmt(st, s, h, fuel).1),
    decreases fuel, 0nat,
{
    lemma_same_refl(st);
    if fuel > 0 {
        let f = (fuel - 1) as nat;
        match s.statement {
            StatementView::VarDef { name, value } => {
                law_expression_keeps_scopes(st, *value, h, f);
                let (r1, s1) = eval_expr(st, *value, h, f);
                if let Ok(v) = r1 {
                    lemma_define_var_outer(s1, name, v);
                    lemma_outer_trans(st, s1, define_var(s1, name, v));
                }
            },
            StatementView::Print(e) => {
                law_expression_keeps_scopes(st, *e, h, f);
                let (r1, s1) = eval_expr(st, *e, h, f);
                if let Ok(v) = r1 {
                    lemma_display_same(s1, v, e.span, h);
                    let (r2, s2) = display(s1, v, e.span, h);
                    if let Ok(text) = r2 {
                        lemma_ask_same(s2, HostRequestView::Print(text), h);
                        lemma_same_trans(s1, s2, ask(s2, HostRequestView::Print(text), h).1);
                        lemma_same_trans(st, s1, ask(s2, HostRequestView::Print(text), h).1);
                    }
                }
            },
            StatementView::Assign { operation, variable, value } => {
                law_expression_keeps_scopes(st, *value, h, f);
                let (r1, s1) = eval_expr(st, *value, h, f);
                if let Ok(v) = r1 {
                    if let Some(cur) = lookup(s1.vars, variable) {
                        lemma_calculate_same(s1, operation, cur, v, s.span, h);
                        let (r2, s2) = calculate(s1, operation, cur, v, s.span, h);
                        if let Ok(res) = r2 {
                            lemma_assign_var_same(s2, variable, res);
                            lemma_same_trans(s1, s2, assign_var(s2, variable, res));
                            lemma_same_trans(st, s1, assign_var(s2, variable, res));
                        }
                    }
                }
            },
            StatementView::FnDef { name, params, body } => {
                lemma_define_fn_outer(st, name, crate::interpreter::model::FunctionView { params, body });
            },
            StatementView::Return(e) => {
                law_expression_keeps_scopes(st, *e, h, f);
            },
            StatementView::If { condition, body, else_ } => {
                law_expression_keeps_scopes(st, *condition, h, f);
                let (r1, s1) = eval_expr(st, *condition, h, f);
                if let Ok(c) = r1 {
                    if c == ValueView::Boolean(true) {
                        law_block_keeps_scopes(s1, body, h, f);
                        if run_scoped(s1, body, h, f).0 is Ok {
                            lemma_same_trans(st, s1, run_scoped(s1, body, h, f).1);
                        }
                    } else if let Some(b) = else_ {
                        law_block_keeps_scopes(s1, b, h, f);
                        if run_scoped(s1, b, h, f).0 is Ok {
                            lemma_same_trans(st, s1, run_scoped(s1, b, h, f).1);
                        }
                    }
                }
            },
            StatementView::While { condition, body } => {
                law_loop_keeps_scopes(st, *condition, body, h, f);
            },
            StatementView::Break => {},
            StatementView::Expr(e) => {
                law_expression_keeps_scopes(st, *e, h, f);
            },
        }
    }
}

/// A name reads the binding of the innermost scope that binds it: inner
/// bindings shadow outer ones, and a name that no scope binds reads nothing.
pub proof fn law_lookup_innermost<V>(scopes: Seq<Map<Seq<char>, V>>, k: Seq<char>, j: int)
    ensures
        (0 <= j < scopes.len() && scopes[j].contains_key(k) && forall|i: int|
            j < i < scopes.len() ==> !(#[trigger] scopes[i]).contains_key(k)) ==> lookup(scopes, k) == Some(scopes[j][k]),
        (forall|i: int| 0 <= i < scopes.len() ==> !(#[trigger] scopes[i]).contains_key(k)) ==> lookup(scopes, k) is None,
    decreases scopes.len(),
{
    if scopes.len() > 0 {
        let rest = scopes.drop_last();
        law_lookup_innermost(rest, k, j);
        assert forall|i: int| 0 <= i < rest.len() implies #[trigger] rest[i] == scopes[i] by {}
    }
}

/// An identifier reads its innermost binding and changes nothing; a name that no
/// scope binds is the error "unknown variable" at the identifier.
pub proof fn law_identifier_reads_binding(st: State, e: SpannedExprView, h: HostFn, fuel: nat)
    requires
        fuel > 0,
        e.expr is Identifier,
    ensures
        eval_expr(st, e, h, fuel) == (match lookup(st.vars, e.expr->Identifier_0) {
            Some(v) => Ok(v),
            None => Err(error("unknown variable"@, e.span)),
        }, st),
{
}

/// Calling a function that no scope binds is the error "unknown function" at the
/// call, before any argument is evaluated: the state is unchanged.
pub proof fn law_unknown_function(
    st: State,
    name: Seq<char>,
    args: Seq<SpannedExprView>,
    span: Range<usize>,
    h: HostFn,
    fuel: nat,
)
    requires
        fuel > 0,
        lookup(st.funcs, name) is None,
    ensures
        call(st, name, args, span, h, fuel) == (Err::<ValueView, ErrorView>(error("unknown function"@, span)), st),
{
}

/// The operations that take two values of the given kinds (`rhs op lhs`).
pub open spec fn accepts(op: BinaryOp, lhs: ValueView, rhs: ValueView) -> bool {
    match op {
        BinaryOp::Add => (rhs is Number && lhs is Number) || (rhs is Str && (lhs is Number || lhs is Str || lhs is Boolean)),
        BinaryOp::Sub | BinaryOp::Div => rhs is Number && lhs is Number,
        BinaryOp::Mul => (rhs is Number && lhs is Number) || (rhs is Number && lhs is Str) || (rhs is Str && lhs is Number),
    }
}

/// An operation on values of kinds it does not take fails, naming both kinds,
/// and asks the host nothing; one that succeeds had values of kinds it takes.
pub proof fn law_calculate_kinds(st: State, op: BinaryOp, lhs: ValueView, rhs: ValueView, span: Range<usize>, h: HostFn)
    ensures
        !accepts(op, lhs, rhs) ==> calculate(st, op, lhs, rhs, span, h) == (Err::<ValueView, ErrorView>(
            mismatch(op, lhs, rhs, span),
        ), st),
        calculate(st, op, lhs, rhs, span, h).0 is Ok ==> accepts(op, lhs, rhs),
{
}

/// On two numbers every operation gives what the host answers for `rhs op lhs`
/// (division by zero included), or the error for a reply that is no number.
pub proof fn law_calculate_numbers(st: State, op: BinaryOp, a: u64, b: u64, span: Range<usize>, h: HostFn)
    ensures
        calculate(st, op, ValueView::Number(a), ValueView::Number(b), span, h) == number_reply(
            ask(st, HostRequestView::Arithmetic(op, b, a), h),
            span,
        ),
{
}

/// `smash` on a string puts the text of the other value after the string:
/// another string as it is, a truth value as `true` or `false`, a number as the
/// host writes it.
pub proof fn law_calculate_joins_text(st: State, s: Seq<char>, lhs: ValueView, span: Range<usize>, h: HostFn)
    ensures
        lhs matches ValueView::Str(t) ==> calculate(st, BinaryOp::Add, lhs, ValueView::Str(s), span, h) == (Ok::<
            ValueView,
            ErrorView,
        >(ValueView::Str(s + t)), st),
        lhs matches ValueView::Boolean(b) ==> calculate(st, BinaryOp::Add, lhs, ValueView::Str(s), span, h) == (Ok::<
            ValueView,
            ErrorView,
        >(ValueView::Str(s + if b { "true"@ } else { "false"@ })), st),
        lhs matches ValueView::Number(n) ==> ({
            let (rep, s1) = ask(st, HostRequestView::NumberText(n), h);
            calculate(st, BinaryOp::Add, lhs, ValueView::Str(s), span, h) == match rep {
                HostReplyView::Text(t) => (Ok::<ValueView, ErrorView>(ValueView::Str(s + t)), s1),
                _ => (Err::<ValueView, ErrorView>(crate::interpreter::model::bad_reply(span)), s1),
            }
        }),
{
}

/// A run stops at the first statement that fails: its error is the run's, and
/// no later statement runs.
pub proof fn law_run_stops_at_error(
    st: State,
    a: Seq<SpannedStatementView>,
    s: SpannedStatementView,
    b: Seq<SpannedStatementView>,
    h: HostFn,
)
    ensures
        ({
            let (ra, sa) = run_program(st, a, 0, ValueView::Nil, h);
            let (rs, ss) = exec_stmt(sa, s, h, program_fuel());
            (ra is Ok && rs is Err) ==> run_program(st, a + seq![s] + b, 0, ValueView::Nil, h) == (Err::<ValueView, ErrorView>(
                rs->Err_0,
            ), ss)
        }),
{
    let rest = seq![s] + b;
    assert(a + seq![s] + b =~= a + rest);
    lemma_run_joined(st, a, rest, 0, ValueView::Nil, h);
    assert(rest[0] == s);
}

/// A loop that ends without failing ends normally with no value, or passes on
/// the value of an `engrave` in its body.
pub proof fn law_while_ends(st: State, condition: SpannedExprView, body: Seq<SpannedStatementView>, h: HostFn, fuel: nat)
    ensures
        exec_while(st, condition, body, h, fuel).0 matches Ok(f) ==> f == Flow::Normal(ValueView::Nil) || f is Return,
    decreases fuel,
{
    if fuel > 0 {
        let f = (fuel - 1) as nat;
        let (r1, s1) = eval_expr(st, condition, h, f);
        if let Ok(c) = r1 {
            if c == ValueView::Boolean(true) {
                let (r2, s2) = run_scoped(s1, body, h, f);
                if r2 matches Ok(Flow::Normal(_)) {
                    law_while_ends(s2, condition, body, h, f);
                }
            }
        }
    }
}

/// The host gives `n`, as a count, a count that `s` can be repeated by within
/// the memory that can be addressed.
pub open spec fn repeat_fits(s: Seq<char>, n: u64, h: HostFn) -> bool {
    h(HostRequestView::RepeatCount(n)) matches HostReplyView::Count(c) && (s.len() == 0 || utf8_len(s) * c <= usize::MAX)
}

/// The host answers each request that `rhs op lhs` makes with a reply of the
/// kind the operation needs, and a repeated text fits.
pub open spec fn host_serves(op: BinaryOp, lhs: ValueView, rhs: ValueView, h: HostFn) -> bool {
    match (rhs, lhs) {
        (ValueView::Number(a), ValueView::Number(b)) => h(HostRequestView::Arithmetic(op, a, b)) is Number,
        (ValueView::Str(s), ValueView::Number(n)) => if op is Add {
            h(HostRequestView::NumberText(n)) is Text
        } else {
            repeat_fits(s, n, h)
        },
        (ValueView::Number(n), ValueView::Str(s)) => repeat_fits(s, n, h),
        _ => true,
    }
}

/// An operation on values of kinds it takes succeeds where the host answers as
/// the operation needs and a repeated text fits in memory.
pub proof fn law_calculate_succeeds(st: State, op: BinaryOp, lhs: ValueView, rhs: ValueView, span: Range<usize>, h: HostFn)
    requires
        accepts(op, lhs, rhs),
        host_serves(op, lhs, rhs, h),
    ensures
        calculate(st, op, lhs, rhs, span, h).0 is Ok,
{
}

/// An `inspect` that runs to its end leaves the scopes as they were, each
/// binding the same names: the branch's scope is gone.
pub proof fn law_conditional_keeps_scopes(st: State, s: SpannedStatementView, h: HostFn, fuel: nat)
    requires
        s.statement is If,
    ensures
        exec_stmt(st, s, h, fuel).0 is Ok ==> same_scopes(st, exec_stmt(st, s, h, fuel).1),
{
    lemma_same_refl(st);
    if fuel > 0 {
        let f = (fuel - 1) as nat;
        if let StatementView::If { condition, body, else_ } = s.statement {
            law_expression_keeps_scopes(st, *condition, h, f);
            let (r1, s1) = eval_expr(st, *condition, h, f);
            if let Ok(c) = r1 {
                if c == ValueView::Boolean(true) {
                    law_block_keeps_scopes(s1, body, h, f);
                    if run_scoped(s1, body, h, f).0 is Ok {
                        lemma_same_trans(st, s1, run_scoped(s1, body, h, f).1);
                    }
                } else if let Some(b) = else_ {
                    law_block_keeps_scopes(s1, b, h, f);
                    if run_scoped(s1, b, h, f).0 is Ok {
                        lemma_same_trans(st, s1, run_scoped(s1, b, h, f).1);
                    }
                }
            }
        }
    }
}

/// A `roll while` statement that runs to its end leaves the scopes as they were.
pub proof fn law_loop_statement_keeps_scopes(st: State, s: SpannedStatementView, h: HostFn, fuel: nat)
    requires
        s.statement is While,
    ensures
        exec_stmt(st, s, h, fuel).0 is Ok ==> same_scopes(st, exec_stmt(st, s, h, fuel).1),
{
    if fuel > 0 {
        if let StatementView::While { condition, body } = s.statement {
            law_loop_keeps_scopes(st, *condition, body, h, (fuel - 1) as nat);
        }
    }
}

/// A definition binds the name in the innermost scope and leaves every other
/// scope, and the functions, as the value's evaluation left them: an outer
/// binding of the name is shadowed, not overwritten. A literal value leaves
/// every binding as it was before the statement.
pub proof fn law_definition_binds_innermost(st: State, s: SpannedStatementView, h: HostFn, fuel: nat)
    requires
        s.statement is VarDef,
        st.vars.len() > 0,
        fuel > 0,
    ensures
        ({
            let name = s.statement->VarDef_name;
            let value = s.statement->VarDef_value;
            let (r1, s1) = eval_expr(st, *value, h, (fuel - 1) as nat);
            let (r, s2) = exec_stmt(st, s, h, fuel);
            r1 matches Ok(v) ==> {
                &&& r == Ok::<Flow, ErrorView>(Flow::Normal(ValueView::Nil))
                &&& s2.vars.len() == s1.vars.len()
                &&& s2.vars.last() == s1.vars.last().insert(name, v)
                &&& forall|i: int| 0 <= i < s2.vars.len() - 1 ==> #[trigger] s2.vars[i] == s1.vars[i]
                &&& s2.funcs == s1.funcs
                &&& (value.expr is Str || value.expr is Boolean || value.expr is Number) ==> s1.vars == st.vars && s1.funcs == st.funcs
            }
        }),
{
    let name = s.statement->VarDef_name;
    let value = s.statement->VarDef_value;
    let f = (fuel - 1) as nat;
    law_expression_keeps_scopes(st, *value, h, f);
    let (r1, s1) = eval_expr(st, *value, h, f);
    if let Ok(v) = r1 {
        assert(s1.vars.len() > 0);
        lemma_define_outer(s1.vars, name, v);
    }
}

/// `s` written `n` times has `n` times the characters of `s`, each position
/// holding the character of `s` at that position counted round `s`.
pub proof fn lemma_repeat_chars(s: Seq<char>, n: nat)
    ensures
        repeat(s, n).len() == s.len() * n,
        forall|i: int| 0 <= i < repeat(s, n).len() ==> #[trigger] repeat(s, n)[i] == s[i % (s.len() as int)],
    decreases n,
{
    if n > 0 {
        let m = (n - 1) as nat;
        lemma_repeat_chars(s, m);
        let prev = repeat(s, m);
        let l = s.len() as int;
        assert(repeat(s, n) == prev + s);
        assert(prev.len() + s.len() == s.len() * n) by (nonlinear_arith)
            requires
                prev.len() == s.len() * m,
                n == m + 1,
        ;
        assert forall|i: int| 0 <= i < repeat(s, n).len() implies #[trigger] repeat(s, n)[i] == s[i % l] by {
            if i < prev.len() {
                assert(repeat(s, n)[i] == prev[i]);
            } else {
                let r = i - prev.len();
                assert(0 <= r < l);
                assert(i == m * l + r) by (nonlinear_arith)
                    requires
                        prev.len() == s.len() * m,
                        l == s.len(),
                        r == i - prev.len(),
                ;
                vstd::arithmetic::div_mod::lemma_fundamental_div_mod_converse(i, l, m as int, r);
            }
        }
    } else {
        assert(s.len() * n == 0) by (nonlinear_arith)
            requires
                n == 0,
        ;
    }
}

/// `mate` repeats a string by a number whichever side each stands on: both
/// orders give the same. Where the host gives `n` as a count `c` that fits,
/// the result is the string written `c` times: `c` times as long, each
/// character that of the string at its position counted round the string.
pub proof fn law_mate_repeats_text(st: State, s: Seq<char>, n: u64, span: Range<usize>, h: HostFn)
    ensures
        calculate(st, BinaryOp::Mul, ValueView::Number(n), ValueView::Str(s), span, h) == calculate(
            st,
            BinaryOp::Mul,
            ValueView::Str(s),
            ValueView::Number(n),
            span,
            h,
        ),
        repeat_fits(s, n, h) ==> ({
            let c = h(HostRequestView::RepeatCount(n))->Count_0;
            let (r, s1) = calculate(st, BinaryOp::Mul, ValueView::Number(n), ValueView::Str(s), span, h);
            &&& s1 == ask(st, HostRequestView::RepeatCount(n), h).1
            &&& r matches Ok(ValueView::Str(t)) && t.len() == s.len() * c && forall|i: int|
                0 <= i < t.len() ==> #[trigger] t[i] == s[i % (s.len() as int)]
        }),
{
    if repeat_fits(s, n, h) {
        let c = h(HostRequestView::RepeatCount(n))->Count_0;
        lemma_repeat_chars(s, c as nat);
        if s.len() == 0 {
            assert(s.len() * c == 0) by (nonlinear_arith)
                requires
                    s.len() == 0,
            ;
        }
    }
}

/// A call whose body ends without `engrave` gives nil, whatever the last
/// statement's value; one whose body ends by `engrave v` gives `v`. Either way
/// the call's scope is left.
pub proof fn law_call_value(
    st: State,
    name: Seq<char>,
    args: Seq<SpannedExprView>,
    span: Range<usize>,
    h: HostFn,
    fuel: nat,
)
    requires
        fuel > 0,
        lookup(st.funcs, name) is Some,
    ensures
        ({
            let func = lookup(st.funcs, name)->Some_0;
            let f = (fuel - 1) as nat;
            let (rb, s1) = bind_args(push_scope(st), func.params, args, 0, h, f);
            let (re, s2) = exec_block(s1, func.body, 0, ValueView::Nil, h, f);
            rb is Ok ==> {
                &&& re matches Ok(Flow::Normal(_)) ==> call(st, name, args, span, h, fuel) == (Ok::<ValueView, ErrorView>(
                    ValueView::Nil,
                ), pop_scope(s2))
                &&& re matches Ok(Flow::Return(v)) ==> call(st, name, args, span, h, fuel) == (Ok::<ValueView, ErrorView>(v), pop_scope(s2))
            }
        }),
{
}

/// `engrave` inside a loop leaves the loop and passes its value on; `destroy`
/// ends the loop with no value.
pub proof fn law_loop_passes_engrave(
    st: State,
    condition: SpannedExprView,
    body: Seq<SpannedStatementView>,
    h: HostFn,
    fuel: nat,
)
    requires
        fuel > 0,
    ensures
        ({
            let f = (fuel - 1) as nat;
            let (rc, s1) = eval_expr(st, condition, h, f);
            let (rb, s2) = run_scoped(s1, body, h, f);
            rc == Ok::<ValueView, ErrorView>(ValueView::Boolean(true)) ==> {
                &&& rb matches Ok(Flow::Return(v)) ==> exec_while(st, condition, body, h, fuel) == (Ok::<Flow, ErrorView>(Flow::Return(v)), s2)
                &&& rb matches Ok(Flow::Break) ==> exec_while(st, condition, body, h, fuel) == (Ok::<Flow, ErrorView>(
                    Flow::Normal(ValueView::Nil),
                ), s2)
            }
        }),
{
}

/// Texts are weighed in dictionary order of their characters: where two texts
/// first differ, the one with the greater character weighs more; a text that
/// begins another and is shorter weighs less; equal texts weigh the same.
pub proof fn law_weigh_texts(st: State, a: Seq<char>, b: Seq<char>, i: int, span: Range<usize>, h: HostFn)
    ensures
        weigh(st, ValueView::Str(a), ValueView::Str(a), span, h).0 == Ok::<ValueView, ErrorView>(ValueView::Boolean(true)),
        (0 <= i < a.len() && i < b.len() && a.take(i) == b.take(i) && a[i] != b[i]) ==> weigh(
            st,
            ValueView::Str(a),
            ValueView::Str(b),
            span,
            h,
        ).0 == Ok::<ValueView, ErrorView>(ValueView::Boolean(!((a[i] as u32) < (b[i] as u32)))),
        (a.len() < b.len() && a == b.take(a.len() as int)) ==> {
            &&& weigh(st, ValueView::Str(a), ValueView::Str(b), span, h).0 == Ok::<ValueView, ErrorView>(ValueView::Boolean(false))
            &&& weigh(st, ValueView::Str(b), ValueView::Str(a), span, h).0 == Ok::<ValueView, ErrorView>(ValueView::Boolean(true))
        },
{
    lemma_text_less_strict(a, a);
    if 0 <= i < a.len() && i < b.len() && a.take(i) == b.take(i) && a[i] != b[i] {
        lemma_text_first_difference(a, b, i);
    }
    if a.len() < b.len() && a == b.take(a.len() as int) {
        lemma_text_prefix(a, b);
        lemma_text_less_strict(a, b);
    }
}

proof fn lemma_text_first_difference(a: Seq<char>, b: Seq<char>, i: int)
    requires
        0 <= i < a.len(),
        i < b.len(),
        a.take(i) == b.take(i),
        a[i] != b[i],
    ensures
        text_less(a, b) == ((a[i] as u32) < (b[i] as u32)),
    decreases i,
{
    if i > 0 {
        assert(a[0] == a.take(i)[0] && b[0] == b.take(i)[0]);
        let a1 = a.drop_first();
        let b1 = b.drop_first();
        assert(a1.take(i - 1) =~= a.take(i).drop_first());
        assert(b1.take(i - 1) =~= b.take(i).drop_first());
        assert(a1[i - 1] == a[i] && b1[i - 1] == b[i]);
        lemma_text_first_difference(a1, b1, i - 1);
    }
}

proof fn lemma_text_prefix(a: Seq<char>, b: Seq<char>)
    requires
        a.len() < b.len(),
        a == b.take(a.len() as int),
    ensures
        text_less(a, b),
    decreases a.len(),
{
    if a.len() > 0 {
        assert(a[0] == b[0]);
        let a1 = a.drop_first();
        let b1 = b.drop_first();
        assert(a1 =~= b1.take(a1.len() as int));
        lemma_text_prefix(a1, b1);
    }
}

/// Two numbers are weighed by asking the host whether the left is at least
/// the right; truth values by `big` weighing at least `small`.
pub proof fn law_weigh_numbers_and_truths(st: State, x: u64, y: u64, p: bool, q: bool, span: Range<usize>, h: HostFn)
    ensures
        ({
            let (rep, s1) = ask(st, HostRequestView::AtLeast(x, y), h);
            weigh(st, ValueView::Number(x), ValueView::Number(y), span, h) == match rep {
                HostReplyView::Truth(t) => (Ok::<ValueView, ErrorView>(ValueView::Boolean(t)), s1),
                _ => (Err::<ValueView, ErrorView>(crate::interpreter::model::bad_reply(span)), s1),
            }
        }),
        weigh(st, ValueView::Boolean(p), ValueView::Boolean(q), span, h) == (Ok::<ValueView, ErrorView>(
            ValueView::Boolean(!(!p && q)),
        ), st),
{
}

/// What `present` writes: `big` and `small` for truth values, `nil` for nil, a
/// text as it is, and a number as the host writes it.
pub proof fn law_display_text(st: State, v: ValueView, span: Range<usize>, h: HostFn)
    ensures
        v == ValueView::Boolean(true) ==> display(st, v, span, h) == (Ok::<Seq<char>, ErrorView>("big"@), st),
        v == ValueView::Boolean(false) ==> display(st, v, span, h) == (Ok::<Seq<char>, ErrorView>("small"@), st),
        v == ValueView::Nil ==> display(st, v, span, h) == (Ok::<Seq<char>, ErrorView>("nil"@), st),
        v matches ValueView::Str(t) ==> display(st, v, span, h) == (Ok::<Seq<char>, ErrorView>(t), st),
        v matches ValueView::Number(n) ==> ({
            let (rep, s1) = ask(st, HostRequestView::NumberText(n), h);
            display(st, v, span, h) == match rep {
                HostReplyView::Text(t) => (Ok::<Seq<char>, ErrorView>(t), s1),
                _ => (Err::<Seq<char>, ErrorView>(crate::interpreter::model::bad_reply(span)), s1),
            }
        }),
{
}

/// `inspect` runs its body where the condition is `big`, and else its
/// `refine` part, if it has one; the condition is evaluated first.
pub proof fn law_conditional_branch(st: State, s: SpannedStatementView, h: HostFn, fuel: nat)
    requires
        s.statement is If,
        fuel > 0,
    ensures
        ({
            let f = (fuel - 1) as nat;
            let (rc, s1) = eval_expr(st, *s.statement->If_condition, h, f);
            &&& rc is Err ==> exec_stmt(st, s, h, fuel) == (Err::<Flow, ErrorView>(rc->Err_0), s1)
            &&& rc == Ok::<ValueView, ErrorView>(ValueView::Boolean(true)) ==> exec_stmt(st, s, h, fuel) == run_scoped(
                s1,
                s.statement->If_body,
                h,
                f,
            )
            &&& (rc is Ok && rc != Ok::<ValueView, ErrorView>(ValueView::Boolean(true))) ==> exec_stmt(st, s, h, fuel) == match s.statement->If_else_ {
                Some(b) => run_scoped(s1, b, h, f),
                None => (Ok::<Flow, ErrorView>(Flow::Normal(ValueView::Nil)), s1),
            }
        }),
{
}

/// `op value into name` takes the variable's current value as the left side and
/// the value as the right, and afterwards the variable reads the result.
pub proof fn law_assignment(st: State, s: SpannedStatementView, h: HostFn, fuel: nat)
    requires
        s.statement is Assign,
        fuel > 0,
    ensures
        ({
            let f = (fuel - 1) as nat;
            let op = s.statement->Assign_operation;
            let name = s.statement->Assign_variable;
            let (rv, s1) = eval_expr(st, *s.statement->Assign_value, h, f);
            rv matches Ok(v) ==> (lookup(s1.vars, name) matches Some(cur) ==> ({
                let (rc, s2) = calculate(s1, op, cur, v, s.span, h);
                rc matches Ok(res) ==> {
                    &&& exec_stmt(st, s, h, fuel).0 == Ok::<Flow, ErrorView>(Flow::Normal(ValueView::Nil))
                    &&& lookup(exec_stmt(st, s, h, fuel).1.vars, name) == Some(res)
                }
            }))
        }),
{
    let f = (fuel - 1) as nat;
    let op = s.statement->Assign_operation;
    let name = s.statement->Assign_variable;
    let (rv, s1) = eval_expr(st, *s.statement->Assign_value, h, f);
    if let Ok(v) = rv {
        if let Some(cur) = lookup(s1.vars, name) {
            let (rc, s2) = calculate(s1, op, cur, v, s.span, h);
            lemma_calculate_same(s1, op, cur, v, s.span, h);
            if let Ok(res) = rc {
                law_lookup_after_assign(s2.vars, name, res, name);
            }
        }
    }
}

/// A run gives the value of its last statement: where a program runs without
/// failing up to its last statement, and that statement ends normally with a
/// value, the run gives that value.
pub proof fn law_run_gives_last_value(st: State, a: Seq<SpannedStatementView>, s: SpannedStatementView, h: HostFn)
    ensures
        ({
            let (ra, sa) = run_program(st, a, 0, ValueView::Nil, h);
            let (rs, ss) = exec_stmt(sa, s, h, program_fuel());
            ra is Ok ==> (rs matches Ok(Flow::Normal(v)) ==> run_program(st, a + seq![s], 0, ValueView::Nil, h) == (Ok::<
                ValueView,
                ErrorView,
            >(v), ss))
        }),
{
    lemma_run_joined(st, a, seq![s], 0, ValueView::Nil, h);
    assert(seq![s][0] == s);
    let (ra, sa) = run_program(st, a, 0, ValueView::Nil, h);
    let (rs, ss) = exec_stmt(sa, s, h, program_fuel());
    if let Ok(va) = ra {
        if let Ok(Flow::Normal(v)) = rs {
            assert(run_program(ss, seq![s], 1, v, h) == (Ok::<ValueView, ErrorView>(v), ss));
        }
    }
}

} // verus!
