//! The interpreter: runs statements against scopes of variables and functions.
//!
//! Everything that needs the value of a number goes to the host, a function
//! that the caller passes in (see `model`); so does writing output. Each
//! evaluation function does what its namesake in `model` says, for every host
//! that answers as a function does.
use std::ops::Range;
use std::rc::Rc;
use vstd::prelude::*;
use crate::error::RuntimeError;
use crate::interpreter::env::Scope;
use crate::interpreter::model::{
    ErrorView, Flow, FunctionView, HostFn, HostReplyView, HostRequestView, State, ValueView,
};
use crate::parser::expression::{
    BinaryOp, Expression, SpannedExpr, SpannedStatement, Statement, clone_names, clone_stmts,
    exprs_view, lemma_exprs_view, lemma_stmts_view, names_view, stmts_view,
};
use crate::text::string_of;

pub mod env;
pub mod model;
pub mod arithmetic;
pub mod laws;

verus! {

/// A value of the language. A number is held by the bits of its IEEE-754 double.
#[derive(Debug, PartialEq)]
pub enum Value {
    Number(u64),
    String(String),
    Boolean(bool),
    Nil,
}

impl Clone for Value {
    fn clone(&self) -> (r: Self)
        ensures
            r == *self,
    {
        match self {
            Value::Number(n) => Value::Number(*n),
            Value::String(s) => Value::String(s.clone()),
            Value::Boolean(b) => Value::Boolean(*b),
            Value::Nil => Value::Nil,
        }
    }
}

impl View for Value {
    type V = ValueView;

    open spec fn view(&self) -> ValueView {
        match self {
            Value::Number(n) => ValueView::Number(*n),
            Value::String(s) => ValueView::Str(s@),
            Value::Boolean(b) => ValueView::Boolean(*b),
            Value::Nil => ValueView::Nil,
        }
    }
}

/// A function that a program defined.
#[derive(Debug)]
pub struct Function {
    pub params: Vec<String>,
    pub body: Vec<SpannedStatement>,
}

impl View for Function {
    type V = FunctionView;

    open spec fn view(&self) -> FunctionView {
        FunctionView { params: names_view(self.params@), body: stmts_view(self.body@) }
    }
}

/// What the lexer and the interpreter ask of their host.
#[derive(Debug)]
pub enum HostRequest {
    /// The number that a literal's text stands for.
    ParseNumber(String),
    /// The `{:?}` text of the number that a literal's digits stand for.
    NumberDebug(String),
    /// `first op second` on two numbers.
    Arithmetic(BinaryOp, u64, u64),
    /// A number written as text.
    NumberText(u64),
    /// Whether `first >= second` for two numbers.
    AtLeast(u64, u64),
    /// A number used as a count of repetitions.
    RepeatCount(u64),
    /// Write a line of output.
    Print(String),
}

/// What the host answers.
#[derive(Debug)]
pub enum HostReply {
    Number(u64),
    Text(String),
    Truth(bool),
    Count(usize),
    Done,
}

impl View for HostRequest {
    type V = HostRequestView;

    open spec fn view(&self) -> HostRequestView {
        match self {
            HostRequest::ParseNumber(s) => HostRequestView::ParseNumber(s@),
            HostRequest::NumberDebug(s) => HostRequestView::NumberDebug(s@),
            HostRequest::Arithmetic(op, a, b) => HostRequestView::Arithmetic(*op, *a, *b),
            HostRequest::NumberText(n) => HostRequestView::NumberText(*n),
            HostRequest::AtLeast(a, b) => HostRequestView::AtLeast(*a, *b),
            HostRequest::RepeatCount(n) => HostRequestView::RepeatCount(*n),
            HostRequest::Print(s) => HostRequestView::Print(s@),
        }
    }
}

impl View for HostReply {
    type V = HostReplyView;

    open spec fn view(&self) -> HostReplyView {
        match self {
            HostReply::Number(n) => HostReplyView::Number(*n),
            HostReply::Text(s) => HostReplyView::Text(s@),
            HostReply::Truth(b) => HostReplyView::Truth(*b),
            HostReply::Count(c) => HostReplyView::Count(*c),
            HostReply::Done => HostReplyView::Done,
        }
    }
}

/// The host answers as the function `h` does.
pub open spec fn host_is<H: Fn(HostRequest) -> HostReply>(host: H, h: HostFn) -> bool {
    forall|q: HostRequest, r: HostReply| #[trigger] call_ensures(host, (q,), r) ==> r@ == h(q@)
}

/// The host takes every request.
pub open spec fn host_ready<H: Fn(HostRequest) -> HostReply>(host: H) -> bool {
    forall|q: HostRequest| call_requires(host, (q,))
}

/// How a statement ends.
pub enum ControlFlow {
    Normal(Value),
    Break,
    Return(Value),
}

pub open spec fn flow_view(f: ControlFlow) -> Flow {
    match f {
        ControlFlow::Normal(v) => Flow::Normal(v@),
        ControlFlow::Break => Flow::Break,
        ControlFlow::Return(v) => Flow::Return(v@),
    }
}

pub open spec fn error_view(e: RuntimeError) -> ErrorView {
    ErrorView { desc: e.desc@, span: e.span }
}

pub open spec fn value_result(r: Result<Value, RuntimeError>) -> Result<ValueView, ErrorView> {
    match r {
        Ok(v) => Ok(v@),
        Err(e) => Err(error_view(e)),
    }
}

pub open spec fn flow_result(r: Result<ControlFlow, RuntimeError>) -> Result<Flow, ErrorView> {
    match r {
        Ok(f) => Ok(flow_view(f)),
        Err(e) => Err(error_view(e)),
    }
}

pub open spec fn unit_result(r: Result<(), RuntimeError>) -> Result<(), ErrorView> {
    match r {
        Ok(_) => Ok(()),
        Err(e) => Err(error_view(e)),
    }
}

/// The state has a scope of variables and a scope of functions to define names in.
pub open spec fn has_scopes(st: State) -> bool {
    st.vars.len() > 0 && st.funcs.len() > 0
}

/// `b` has at least as many scopes of each kind as `a`.
pub open spec fn no_fewer_scopes(a: State, b: State) -> bool {
    b.vars.len() >= a.vars.len() && b.funcs.len() >= a.funcs.len()
}

/// `a` and `b` bind the same names to the same things; only the requests may differ.
pub open spec fn same_bindings(a: State, b: State) -> bool {
    a.vars == b.vars && a.funcs == b.funcs
}

/// Runs programs, keeping variables and functions from one run to the next.
pub struct Interpreter {
    variables: Vec<Scope<Value>>,
    functions: Vec<Scope<Rc<Function>>>,
    trace: Ghost<Seq<HostRequestView>>,
}

impl View for Interpreter {
    type V = State;

    closed spec fn view(&self) -> State {
        State {
            vars: self.variables@.map_values(|s: Scope<Value>| s@),
            funcs: self.functions@.map_values(|s: Scope<Rc<Function>>| s@),
            trace: self.trace@,
        }
    }
}

/// Fails with a runtime error that carries `msg` and `span`.
pub fn throw<T>(msg: &str, span: &Range<usize>) -> (r: Result<T, RuntimeError>)
    ensures
        r matches Err(e) && error_view(e) == model::error(msg@, *span),
{
    Err(RuntimeError { desc: string_of(msg), span: Range { start: span.start, end: span.end } })
}

/// The error for a reply of the wrong kind.
pub fn bad_reply(span: &Range<usize>) -> (r: RuntimeError)
    ensures
        error_view(r) == model::bad_reply(*span),
{
    RuntimeError { desc: string_of("the host gave an unexpected reply"), span: Range { start: span.start, end: span.end } }
}

pub fn out_of_fuel(span: &Range<usize>) -> (r: RuntimeError)
    ensures
        error_view(r) == model::out_of_fuel(*span),
{
    RuntimeError { desc: string_of("evaluation ran out of fuel"), span: Range { start: span.start, end: span.end } }
}

/// The fuel that each top-level statement of a run gets.
pub const PROGRAM_FUEL: u64 = 0xffff_ffff_ffff_ffff;

impl Interpreter {
    /// Every scope binds each name at most once.
    pub closed spec fn wf(&self) -> bool {
        &&& forall|i: int| 0 <= i < self.variables@.len() ==> (#[trigger] self.variables@[i]).wf()
        &&& forall|i: int| 0 <= i < self.functions@.len() ==> (#[trigger] self.functions@[i]).wf()
    }

    /// An interpreter with one empty scope and nothing asked of the host.
    pub fn new() -> (r: Interpreter)
        ensures
            r.wf(),
            r@.vars == seq![Map::<Seq<char>, ValueView>::empty()],
            r@.funcs == seq![Map::<Seq<char>, FunctionView>::empty()],
            r@.trace == Seq::<HostRequestView>::empty(),
    {
        let mut interpreter = Interpreter { variables: Vec::new(), functions: Vec::new(), trace: Ghost(Seq::empty()) };
        interpreter.push_scope();
        proof {
            assert(interpreter@.vars =~= seq![Map::<Seq<char>, ValueView>::empty()]);
            assert(interpreter@.funcs =~= seq![Map::<Seq<char>, FunctionView>::empty()]);
        }
        interpreter
    }

    /// Asks the host, and records the request.
    pub fn ask<H: Fn(HostRequest) -> HostReply>(&mut self, host: &H, q: HostRequest) -> (r: HostReply)
        requires
            old(self).wf(),
            host_ready(*host),
        ensures
            final(self).wf(),
            same_bindings(old(self)@, final(self)@),
            forall|h: HostFn| #[trigger] host_is(*host, h) ==> (r@, final(self)@) == model::ask(old(self)@, q@, h),
    {
        let ghost qv = q@;
        let r = host(q);
        self.trace = Ghost(self.trace@.push(qv));
        r
    }

    pub fn push_scope(&mut self)
        requires
            old(self).wf(),
        ensures
            final(self).wf(),
            final(self)@ == model::push_scope(old(self)@),
    {
        let ghost v0 = self.variables@;
        let ghost f0 = self.functions@;
        self.variables.push(Scope::new());
        self.functions.push(Scope::new());
        proof {
            assert(self@.vars =~= v0.map_values(|s: Scope<Value>| s@).push(Map::empty()));
            assert(self@.funcs =~= f0.map_values(|s: Scope<Rc<Function>>| s@).push(Map::empty()));
        }
    }

    pub fn pop_scope(&mut self)
        requires
            old(self).wf(),
        ensures
            final(self).wf(),
            final(self)@ == model::pop_scope(old(self)@),
    {
        let ghost v0 = self.variables@;
        let ghost f0 = self.functions@;
        if self.variables.len() > 0 {
            self.variables.pop();
            proof {
                assert(self@.vars =~= v0.map_values(|s: Scope<Value>| s@).drop_last());
            }
        }
        if self.functions.len() > 0 {
            self.functions.pop();
            proof {
                assert(self@.funcs =~= f0.map_values(|s: Scope<Rc<Function>>| s@).drop_last());
            }
        }
    }

    /// The position of the innermost scope that binds the variable `name`.
    fn variable_scope(&self, name: &String) -> (r: Option<usize>)
        requires
            self.wf(),
        ensures
            match r {
                Some(j) => env::innermost(self@.vars, name@, self@.vars.len() as int) == Some(j as int),
                None => env::innermost(self@.vars, name@, self@.vars.len() as int) is None,
            },
    {
        let mut i = self.variables.len();
        while i > 0
            invariant
                i <= self.variables@.len(),
                self.wf(),
                env::innermost(self@.vars, name@, self@.vars.len() as int) == env::innermost(
                    self@.vars,
                    name@,
                    i as int,
                ),
            decreases i,
        {
            let found = match self.variables[i - 1].get(name) {
                Some(_) => true,
                None => false,
            };
            if found {
                return Some(i - 1);
            }
            i -= 1;
        }
        None
    }

    /// The position of the innermost scope that binds the function `name`.
    fn function_scope(&self, name: &String) -> (r: Option<usize>)
        requires
            self.wf(),
        ensures
            match r {
                Some(j) => env::innermost(self@.funcs, name@, self@.funcs.len() as int) == Some(j as int),
                None => env::innermost(self@.funcs, name@, self@.funcs.len() as int) is None,
            },
    {
        let mut i = self.functions.len();
        while i > 0
            invariant
                i <= self.functions@.len(),
                self.wf(),
                env::innermost(self@.funcs, name@, self@.funcs.len() as int) == env::innermost(
                    self@.funcs,
                    name@,
                    i as int,
                ),
            decreases i,
        {
            let found = match self.functions[i - 1].get(name) {
                Some(_) => true,
                None => false,
            };
            if found {
                return Some(i - 1);
            }
            i -= 1;
        }
        None
    }

    /// The value of the variable `name` in the innermost scope that binds it.
    pub fn get_variable(&self, name: &String) -> (r: Option<Value>)
        requires
            self.wf(),
        ensures
            match r {
                Some(v) => model::lookup(self@.vars, name@) == Some(v@),
                None => model::lookup(self@.vars, name@) is None,
            },
    {
        proof {
            env::lemma_lookup_innermost(self@.vars, name@);
        }
        match self.variable_scope(name) {
            Some(j) => match self.variables[j].get(name) {
                Some(v) => Some(v.clone()),
                None => None,
            },
            None => None,
        }
    }

    /// The function `name` of the innermost scope that binds it.
    pub fn get_function(&self, name: &String) -> (r: Option<Rc<Function>>)
        requires
            self.wf(),
        ensures
            match r {
                Some(f) => model::lookup(self@.funcs, name@) == Some((*f)@),
                None => model::lookup(self@.funcs, name@) is None,
            },
    {
        proof {
            env::lemma_lookup_innermost(self@.funcs, name@);
        }
        match self.function_scope(name) {
            Some(j) => match self.functions[j].get(name) {
                Some(f) => Some(Rc::clone(f)),
                None => None,
            },
            None => None,
        }
    }

    /// Binds the variable `name` in the innermost scope.
    pub fn insert_variable(&mut self, name: &String, value: Value)
        requires
            old(self).wf(),
            old(self)@.vars.len() > 0,
        ensures
            final(self).wf(),
            final(self)@ == model::define_var(old(self)@, name@, value@),
    {
        let n = self.variables.len();
        if n > 0 {
            let ghost v0 = self.variables@;
            self.variables[n - 1].insert(name.clone(), value);
            proof {
                assert(self@.vars =~= model::define(v0.map_values(|s: Scope<Value>| s@), name@, value@));
            }
        }
    }

    /// Rebinds the variable `name` in the innermost scope that binds it.
    pub fn assign_variable(&mut self, name: &String, value: Value)
        requires
            old(self).wf(),
        ensures
            final(self).wf(),
            final(self)@ == model::assign_var(old(self)@, name@, value@),
            final(self)@.vars.len() == old(self)@.vars.len(),
    {
        proof {
            env::lemma_lookup_innermost(self@.vars, name@);
        }
        match self.variable_scope(name) {
            Some(j) => {
                let ghost v0 = self.variables@;
                self.variables[j].insert(name.clone(), value);
                proof {
                    assert(self@.vars =~= v0.map_values(|s: Scope<Value>| s@).update(
                        j as int,
                        v0[j as int]@.insert(name@, value@),
                    ));
                }
            },
            None => {},
        }
    }

    /// Binds the function `name` in the innermost scope.
    pub fn insert_function(&mut self, name: &String, function: Function)
        requires
            old(self).wf(),
            old(self)@.funcs.len() > 0,
        ensures
            final(self).wf(),
            final(self)@ == model::define_fn(old(self)@, name@, function@),
    {
        let n = self.functions.len();
        if n > 0 {
            let ghost f0 = self.functions@;
            self.functions[n - 1].insert(name.clone(), Rc::new(function));
            proof {
                assert(self@.funcs =~= model::define(f0.map_values(|s: Scope<Rc<Function>>| s@), name@, function@));
            }
        }
    }

    /// Defines a function with a copy of the parameters and the body.
    pub fn define_function(&mut self, name: &String, params: &Vec<String>, body: &Vec<SpannedStatement>)
        requires
            old(self).wf(),
            old(self)@.funcs.len() > 0,
        ensures
            final(self).wf(),
            final(self)@ == model::define_fn(
                old(self)@,
                name@,
                FunctionView { params: names_view(params@), body: stmts_view(body@) },
            ),
    {
        let function = Function { params: clone_names(params), body: clone_stmts(body) };
        self.insert_function(name, function);
    }
    /// Runs `program`: the value of its last statement, or the first error.
    ///
    /// A statement that ends by `engrave` gives its value; one that ends by
    /// `destroy` gives no value. Variables and functions stay for the next run.
    pub fn run<H: Fn(HostRequest) -> HostReply>(&mut self, program: Vec<SpannedStatement>, host: &H) -> (r: Result<
        Value,
        RuntimeError,
    >)
        requires
            old(self).wf(),
            host_ready(*host),
            has_scopes(old(self)@),
        ensures
            final(self).wf(),
            no_fewer_scopes(old(self)@, final(self)@),
            forall|h: HostFn| #[trigger] host_is(*host, h) ==> (value_result(r), final(self)@) == model::run_program(
                old(self)@,
                stmts_view(program@),
                0,
                ValueView::Nil,
                h,
            ),
    {
        let ghost prog = stmts_view(program@);
        proof {
            lemma_stmts_view(program@);
        }
        let mut last = Value::Nil;
        let mut i: usize = 0;
        while i < program.len()
            invariant
                self.wf(),
                host_ready(*host),
                has_scopes(self@),
                no_fewer_scopes(old(self)@, self@),
                i <= program@.len(),
                prog == stmts_view(program@),
                prog.len() == program@.len(),
                forall|k: int| 0 <= k < program@.len() ==> #[trigger] prog[k] == program@[k]@,
                forall|h: HostFn| #[trigger] host_is(*host, h) ==> model::run_program(old(self)@, prog, 0, ValueView::Nil, h)
                    == model::run_program(self@, prog, i as int, last@, h),
            decreases program@.len() - i,
        {
            match self.eval_statement(&program[i], host, PROGRAM_FUEL) {
                Ok(flow) => {
                    last = match flow {
                        ControlFlow::Normal(v) => v,
                        ControlFlow::Return(v) => v,
                        ControlFlow::Break => Value::Nil,
                    };
                },
                Err(e) => {
                    return Err(e);
                },
            }
            i += 1;
        }
        Ok(last)
    }

    /// How a statement ends, as `model::exec_stmt` says.
    pub fn eval_statement<H: Fn(HostRequest) -> HostReply>(
        &mut self,
        statement: &SpannedStatement,
        host: &H,
        fuel: u64,
    ) -> (r: Result<ControlFlow, RuntimeError>)
        requires
            old(self).wf(),
            host_ready(*host),
            has_scopes(old(self)@),
        ensures
            final(self).wf(),
            no_fewer_scopes(old(self)@, final(self)@),
            forall|h: HostFn| #[trigger] host_is(*host, h) ==> (flow_result(r), final(self)@) == model::exec_stmt(
                old(self)@,
                statement@,
                h,
                fuel as nat,
            ),
        decreases fuel, 0nat,
    {
        if fuel == 0 {
            return Err(out_of_fuel(&statement.span));
        }
        let f = fuel - 1;
        match &statement.statement {
            Statement::VarDef { name, value } => {
                let evaluated = match self.eval_expression(value, host, f) {
                    Ok(v) => v,
                    Err(e) => {
                        return Err(e);
                    },
                };
                self.insert_variable(name, evaluated);
                Ok(ControlFlow::Normal(Value::Nil))
            },
            Statement::Print(value) => {
                let evaluated = match self.eval_expression(value, host, f) {
                    Ok(v) => v,
                    Err(e) => {
                        return Err(e);
                    },
                };
                let text = match self.display(&evaluated, &value.span, host) {
                    Ok(t) => t,
                    Err(e) => {
                        return Err(e);
                    },
                };
                let _ = self.ask(host, HostRequest::Print(text));
                Ok(ControlFlow::Normal(Value::Nil))
            },
            Statement::Assign { operation, variable, value } => {
                match self.eval_assign(*operation, variable, value, &statement.span, host, f) {
                    Ok(()) => Ok(ControlFlow::Normal(Value::Nil)),
                    Err(e) => Err(e),
                }
            },
            Statement::FnDef { name, params, body } => {
                self.define_function(name, params, body);
                Ok(ControlFlow::Normal(Value::Nil))
            },
            Statement::Return(e) => match self.eval_expression(e, host, f) {
                Ok(v) => Ok(ControlFlow::Return(v)),
                Err(x) => Err(x),
            },
            Statement::If { condition, body, else_ } => self.eval_if(condition, body, else_, host, f),
            Statement::While { condition, body } => self.eval_while(condition, body, host, f),
            Statement::Break => Ok(ControlFlow::Break),
            Statement::Expr(e) => match self.eval_expression(e, host, f) {
                Ok(v) => Ok(ControlFlow::Normal(v)),
                Err(x) => Err(x),
            },
        }
    }

    /// `operation value into variable`: rebinds the variable to the result.
    fn eval_assign<H: Fn(HostRequest) -> HostReply>(
        &mut self,
        operation: BinaryOp,
        variable: &String,
        value: &SpannedExpr,
        span: &Range<usize>,
        host: &H,
        fuel: u64,
    ) -> (r: Result<(), RuntimeError>)
        requires
            old(self).wf(),
            host_ready(*host),
            has_scopes(old(self)@),
        ensures
            final(self).wf(),
            no_fewer_scopes(old(self)@, final(self)@),
            forall|h: HostFn| #[trigger] host_is(*host, h) ==> ({
                let (x, st) = match model::eval_expr(old(self)@, value@, h, fuel as nat) {
                    (Err(x), s1) => (Err(x), s1),
                    (Ok(v), s1) => match model::lookup(s1.vars, variable@) {
                        None => (Err(model::error("unknown variable"@, *span)), s1),
                        Some(cur) => match model::calculate(s1, operation, cur, v, *span, h) {
                            (Err(x), s2) => (Err(x), s2),
                            (Ok(res), s2) => (Ok(()), model::assign_var(s2, variable@, res)),
                        },
                    },
                };
                (unit_result(r), final(self)@) == (x, st)
            }),
        decreases fuel, 3nat,
    {
        let evaluated = match self.eval_expression(value, host, fuel) {
            Ok(v) => v,
            Err(e) => {
                return Err(e);
            },
        };
        let var_val = match self.get_variable(variable) {
            Some(v) => v,
            None => {
                return throw("unknown variable", span);
            },
        };
        let result = match self.calculate(operation, var_val, evaluated, span, host) {
            Ok(v) => v,
            Err(e) => {
                return Err(e);
            },
        };
        self.assign_variable(variable, result);
        Ok(())
    }

    /// Runs a block in a scope of its own, as `model::run_scoped` says.
    fn eval_scoped<H: Fn(HostRequest) -> HostReply>(
        &mut self,
        body: &Vec<SpannedStatement>,
        host: &H,
        fuel: u64,
    ) -> (r: Result<ControlFlow, RuntimeError>)
        requires
            old(self).wf(),
            host_ready(*host),
            has_scopes(old(self)@),
        ensures
            final(self).wf(),
            no_fewer_scopes(old(self)@, final(self)@),
            forall|h: HostFn| #[trigger] host_is(*host, h) ==> (flow_result(r), final(self)@) == model::run_scoped(
                old(self)@,
                stmts_view(body@),
                h,
                fuel as nat,
            ),
        decreases fuel, 2 + body@.len(),
    {
        self.push_scope();
        let result = match self.eval_block(body, host, fuel) {
            Ok(f) => f,
            Err(e) => {
                return Err(e);
            },
        };
        self.pop_scope();
        Ok(result)
    }

    /// Runs the statements of a block, as `model::exec_block` says.
    fn eval_block<H: Fn(HostRequest) -> HostReply>(
        &mut self,
        body: &Vec<SpannedStatement>,
        host: &H,
        fuel: u64,
    ) -> (r: Result<ControlFlow, RuntimeError>)
        requires
            old(self).wf(),
            host_ready(*host),
            has_scopes(old(self)@),
        ensures
            final(self).wf(),
            no_fewer_scopes(old(self)@, final(self)@),
            forall|h: HostFn| #[trigger] host_is(*host, h) ==> (flow_result(r), final(self)@) == model::exec_block(
                old(self)@,
                stmts_view(body@),
                0,
                ValueView::Nil,
                h,
                fuel as nat,
            ),
        decreases fuel, 1 + body@.len(),
    {
        let ghost b = stmts_view(body@);
        proof {
            lemma_stmts_view(body@);
        }
        let mut last = Value::Nil;
        let mut i: usize = 0;
        while i < body.len()
            invariant
                self.wf(),
                host_ready(*host),
                has_scopes(self@),
                no_fewer_scopes(old(self)@, self@),
                i <= body@.len(),
                b == stmts_view(body@),
                b.len() == body@.len(),
                forall|k: int| 0 <= k < body@.len() ==> #[trigger] b[k] == body@[k]@,
                forall|h: HostFn| #[trigger] host_is(*host, h) ==> model::exec_block(
                    old(self)@,
                    b,
                    0,
                    ValueView::Nil,
                    h,
                    fuel as nat,
                ) == model::exec_block(self@, b, i as int, last@, h, fuel as nat),
            decreases body@.len() - i,
        {
            match self.eval_statement(&body[i], host, fuel) {
                Ok(ControlFlow::Normal(v)) => {
                    last = v;
                },
                Ok(other) => {
                    return Ok(other);
                },
                Err(e) => {
                    return Err(e);
                },
            }
            i += 1;
        }
        Ok(ControlFlow::Normal(last))
    }

    /// `inspect condition body (refine else) enough`.
    fn eval_if<H: Fn(HostRequest) -> HostReply>(
        &mut self,
        condition: &SpannedExpr,
        body: &Vec<SpannedStatement>,
        else_: &Option<Vec<SpannedStatement>>,
        host: &H,
        fuel: u64,
    ) -> (r: Result<ControlFlow, RuntimeError>)
        requires
            old(self).wf(),
            host_ready(*host),
            has_scopes(old(self)@),
        ensures
            final(self).wf(),
            no_fewer_scopes(old(self)@, final(self)@),
            forall|h: HostFn| #[trigger] host_is(*host, h) ==> (flow_result(r), final(self)@) == match model::eval_expr(
                old(self)@,
                condition@,
                h,
                fuel as nat,
            ) {
                (Err(x), s1) => (Err(x), s1),
                (Ok(c), s1) => {
                    if c == ValueView::Boolean(true) {
                        model::run_scoped(s1, stmts_view(body@), h, fuel as nat)
                    } else {
                        match else_ {
                            Some(b) => model::run_scoped(s1, stmts_view(b@), h, fuel as nat),
                            None => (Ok(Flow::Normal(ValueView::Nil)), s1),
                        }
                    }
                },
            },
        decreases fuel, 3 + body@.len() + match else_ {
            Some(v) => v@.len(),
            None => 0,
        },
    {
        let cond_val = match self.eval_expression(condition, host, fuel) {
            Ok(v) => v,
            Err(e) => {
                return Err(e);
            },
        };
        let is_true = match cond_val {
            Value::Boolean(true) => true,
            _ => false,
        };
        if is_true {
            self.eval_scoped(body, host, fuel)
        } else {
            match else_ {
                Some(v) => self.eval_scoped(v, host, fuel),
                None => Ok(ControlFlow::Normal(Value::Nil)),
            }
        }
    }

    /// `roll while condition body enough`, as `model::exec_while` says.
    fn eval_while<H: Fn(HostRequest) -> HostReply>(
        &mut self,
        condition: &SpannedExpr,
        body: &Vec<SpannedStatement>,
        host: &H,
        fuel: u64,
    ) -> (r: Result<ControlFlow, RuntimeError>)
        requires
            old(self).wf(),
            host_ready(*host),
            has_scopes(old(self)@),
        ensures
            final(self).wf(),
            no_fewer_scopes(old(self)@, final(self)@),
            forall|h: HostFn| #[trigger] host_is(*host, h) ==> (flow_result(r), final(self)@) == model::exec_while(
                old(self)@,
                condition@,
                stmts_view(body@),
                h,
                fuel as nat,
            ),
        decreases fuel, 0nat,
    {
        let mut left = fuel;
        loop
            invariant
                self.wf(),
                host_ready(*host),
                has_scopes(self@),
                no_fewer_scopes(old(self)@, self@),
                left <= fuel,
                forall|h: HostFn| #[trigger] host_is(*host, h) ==> model::exec_while(
                    old(self)@,
                    condition@,
                    stmts_view(body@),
                    h,
                    fuel as nat,
                ) == model::exec_while(self@, condition@, stmts_view(body@), h, left as nat),
            decreases left,
        {
            if left == 0 {
                return Err(out_of_fuel(&condition.span));
            }
            left = left - 1;
            let cond_val = match self.eval_expression(condition, host, left) {
                Ok(v) => v,
                Err(e) => {
                    return Err(e);
                },
            };
            let is_true = match cond_val {
                Value::Boolean(true) => true,
                _ => false,
            };
            if !is_true {
                return Ok(ControlFlow::Normal(Value::Nil));
            }
            match self.eval_scoped(body, host, left) {
                Ok(ControlFlow::Break) => {
                    return Ok(ControlFlow::Normal(Value::Nil));
                },
                Ok(ControlFlow::Return(v)) => {
                    return Ok(ControlFlow::Return(v));
                },
                Ok(ControlFlow::Normal(_)) => {},
                Err(e) => {
                    return Err(e);
                },
            }
        }
    }

    /// The value of an expression, as `model::eval_expr` says.
    pub fn eval_expression<H: Fn(HostRequest) -> HostReply>(
        &mut self,
        expr: &SpannedExpr,
        host: &H,
        fuel: u64,
    ) -> (r: Result<Value, RuntimeError>)
        requires
            old(self).wf(),
            host_ready(*host),
            has_scopes(old(self)@),
        ensures
            final(self).wf(),
            no_fewer_scopes(old(self)@, final(self)@),
            forall|h: HostFn| #[trigger] host_is(*host, h) ==> (value_result(r), final(self)@) == model::eval_expr(
                old(self)@,
                expr@,
                h,
                fuel as nat,
            ),
        decreases fuel, 2nat,
    {
        if fuel == 0 {
            return Err(out_of_fuel(&expr.span));
        }
        let f = fuel - 1;
        match &expr.expr {
            Expression::FnCall { name, args } => self.eval_fncall(name, args, &expr.span, host, fuel),
            Expression::Number(t) => {
                let reply = self.ask(host, HostRequest::ParseNumber(t.clone()));
                match reply {
                    HostReply::Number(n) => Ok(Value::Number(n)),
                    _ => Err(bad_reply(&expr.span)),
                }
            },
            Expression::Str(s) => Ok(Value::String(s.clone())),
            Expression::Boolean(b) => Ok(Value::Boolean(*b)),
            Expression::Identifier(s) => match self.get_variable(s) {
                Some(v) => Ok(v),
                None => throw("unknown variable", &expr.span),
            },
            Expression::Group(e) => self.eval_expression(e, host, f),
            Expression::Weigh { left, right } => {
                let left_value = match self.eval_expression(left, host, f) {
                    Ok(v) => v,
                    Err(e) => {
                        return Err(e);
                    },
                };
                let right_value = match self.eval_expression(right, host, f) {
                    Ok(v) => v,
                    Err(e) => {
                        return Err(e);
                    },
                };
                self.weigh(left_value, right_value, &expr.span, host)
            },
            Expression::BinaryOp { operation, lhs, rhs } => self.eval_binaryop(*operation, lhs, rhs, &expr.span, host, f),
        }
    }

    /// `lhs operation rhs`: both sides in order, then the operation.
    fn eval_binaryop<H: Fn(HostRequest) -> HostReply>(
        &mut self,
        operation: BinaryOp,
        v1: &SpannedExpr,
        v2: &SpannedExpr,
        span: &Range<usize>,
        host: &H,
        fuel: u64,
    ) -> (r: Result<Value, RuntimeError>)
        requires
            old(self).wf(),
            host_ready(*host),
            has_scopes(old(self)@),
        ensures
            final(self).wf(),
            no_fewer_scopes(old(self)@, final(self)@),
            forall|h: HostFn| #[trigger] host_is(*host, h) ==> (value_result(r), final(self)@) == match model::eval_expr(
                old(self)@,
                v1@,
                h,
                fuel as nat,
            ) {
                (Err(x), s1) => (Err(x), s1),
                (Ok(l), s1) => match model::eval_expr(s1, v2@, h, fuel as nat) {
                    (Err(x), s2) => (Err(x), s2),
                    (Ok(r), s2) => model::calculate(s2, operation, l, r, *span, h),
                },
            },
        decreases fuel, 3nat,
    {
        let lhs = match self.eval_expression(v1, host, fuel) {
            Ok(v) => v,
            Err(e) => {
                return Err(e);
            },
        };
        let rhs = match self.eval_expression(v2, host, fuel) {
            Ok(v) => v,
            Err(e) => {
                return Err(e);
            },
        };
        self.calculate(operation, lhs, rhs, span, host)
    }

    /// A call of the function `name`, as `model::call` says.
    fn eval_fncall<H: Fn(HostRequest) -> HostReply>(
        &mut self,
        name: &String,
        args: &Vec<SpannedExpr>,
        span: &Range<usize>,
        host: &H,
        fuel: u64,
    ) -> (r: Result<Value, RuntimeError>)
        requires
            old(self).wf(),
            host_ready(*host),
            has_scopes(old(self)@),
        ensures
            final(self).wf(),
            no_fewer_scopes(old(self)@, final(self)@),
            forall|h: HostFn| #[trigger] host_is(*host, h) ==> (value_result(r), final(self)@) == model::call(
                old(self)@,
                name@,
                exprs_view(args@),
                *span,
                h,
                fuel as nat,
            ),
        decreases fuel, 1nat,
    {
        if fuel == 0 {
            return Err(out_of_fuel(span));
        }
        let f = fuel - 1;
        let func = match self.get_function(name) {
            Some(func) => func,
            None => {
                return throw("unknown function", span);
            },
        };
        self.push_scope();
        match self.bind_args(&func.params, args, host, f) {
            Ok(()) => {},
            Err(e) => {
                return Err(e);
            },
        }
        let result = match self.eval_block(&func.body, host, f) {
            Ok(r) => r,
            Err(e) => {
                return Err(e);
            },
        };
        self.pop_scope();
        match result {
            ControlFlow::Return(v) => Ok(v),
            ControlFlow::Normal(_) => Ok(Value::Nil),
            ControlFlow::Break => throw("attempted to break form function", span),
        }
    }

    /// Binds each parameter to the value of its argument, as `model::bind_args` says.
    fn bind_args<H: Fn(HostRequest) -> HostReply>(
        &mut self,
        params: &Vec<String>,
        args: &Vec<SpannedExpr>,
        host: &H,
        fuel: u64,
    ) -> (r: Result<(), RuntimeError>)
        requires
            old(self).wf(),
            host_ready(*host),
            has_scopes(old(self)@),
        ensures
            final(self).wf(),
            no_fewer_scopes(old(self)@, final(self)@),
            forall|h: HostFn| #[trigger] host_is(*host, h) ==> (unit_result(r), final(self)@) == model::bind_args(
                old(self)@,
                names_view(params@),
                exprs_view(args@),
                0,
                h,
                fuel as nat,
            ),
        decreases fuel, 3 + args@.len(),
    {
        let ghost ps = names_view(params@);
        let ghost xs = exprs_view(args@);
        proof {
            lemma_exprs_view(args@);
        }
        let mut i: usize = 0;
        while i < params.len() && i < args.len()
            invariant
                self.wf(),
                host_ready(*host),
                has_scopes(self@),
                no_fewer_scopes(old(self)@, self@),
                i <= params@.len(),
                i <= args@.len(),
                ps == names_view(params@),
                xs == exprs_view(args@),
                xs.len() == args@.len(),
                forall|k: int| 0 <= k < args@.len() ==> #[trigger] xs[k] == args@[k]@,
                forall|h: HostFn| #[trigger] host_is(*host, h) ==> model::bind_args(
                    old(self)@,
                    ps,
                    xs,
                    0,
                    h,
                    fuel as nat,
                ) == model::bind_args(self@, ps, xs, i as int, h, fuel as nat),
            decreases args@.len() - i,
        {
            let evaluated = match self.eval_expression(&args[i], host, fuel) {
                Ok(v) => v,
                Err(e) => {
                    return Err(e);
                },
            };
            self.insert_variable(&params[i], evaluated);
            i += 1;
        }
        Ok(())
    }
}

} // verus!
