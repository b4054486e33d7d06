//! The syntax tree that the parser builds, and its mathematical view.
use std::ops::Range;
use vstd::prelude::*;
use crate::lexer::Token;

verus! {

/// A statement of the language.
#[derive(Debug)]
pub enum Statement {
    VarDef { name: String, value: Box<SpannedExpr> },
    FnDef { name: String, params: Vec<String>, body: Vec<SpannedStatement> },
    Return(Box<SpannedExpr>),
    Assign { operation: BinaryOp, variable: String, value: Box<SpannedExpr> },
    If {
        condition: Box<SpannedExpr>,
        body: Vec<SpannedStatement>,
        else_: Option<Vec<SpannedStatement>>,
    },
    While { condition: Box<SpannedExpr>, body: Vec<SpannedStatement> },
    Break,
    Print(Box<SpannedExpr>),
    Expr(Box<SpannedExpr>),
}

/// A statement and the bytes of the source it was read from.
#[derive(Debug)]
pub struct SpannedStatement {
    pub statement: Statement,
    pub span: Range<usize>,
}

/// An expression of the language. A number literal keeps the text of its token.
#[derive(Debug)]
pub enum Expression {
    Number(String),
    Str(String),
    Boolean(bool),
    Identifier(String),
    Group(Box<SpannedExpr>),
    FnCall { name: String, args: Vec<SpannedExpr> },
    Weigh { left: Box<SpannedExpr>, right: Box<SpannedExpr> },
    BinaryOp { operation: BinaryOp, lhs: Box<SpannedExpr>, rhs: Box<SpannedExpr> },
}

/// An expression and the bytes of the source it was read from.
#[derive(Debug)]
pub struct SpannedExpr {
    pub expr: Expression,
    pub span: Range<usize>,
}

/// The four arithmetic operations: `smash`, `chip`, `mate` and `split`.
#[derive(Debug, Clone, Copy, PartialEq, Eq, Structural)]
pub enum BinaryOp {
    Add,
    Sub,
    Mul,
    Div,
}

/// The operation that an operator keyword stands for.
pub open spec fn op_of(token: Token) -> BinaryOp {
    match token {
        Token::Smash | Token::Smashed => BinaryOp::Add,
        Token::Chip | Token::Chipped => BinaryOp::Sub,
        Token::Mate | Token::Mated => BinaryOp::Mul,
        _ => BinaryOp::Div,
    }
}

/// `token` starts an assignment: `smash`, `chip`, `mate` or `split`.
pub open spec fn is_operator(token: Token) -> bool {
    token is Smash || token is Chip || token is Mate || token is Split
}

/// `token` stands between two values: `smashed`, `chipped`, `mated` or `split`.
pub open spec fn is_infix_operator(token: Token) -> bool {
    token is Smashed || token is Chipped || token is Mated || token is Split
}

impl BinaryOp {
    /// The operation that an operator keyword stands for.
    pub fn from_token(token: Token) -> (r: BinaryOp)
        requires
            is_operator(token) || is_infix_operator(token),
        ensures
            r == op_of(token),
    {
        match token {
            Token::Smash => BinaryOp::Add,
            Token::Smashed => BinaryOp::Add,
            Token::Chip => BinaryOp::Sub,
            Token::Chipped => BinaryOp::Sub,
            Token::Mate => BinaryOp::Mul,
            Token::Mated => BinaryOp::Mul,
            _ => BinaryOp::Div,
        }
    }
}

// ---------------------------------------------------------------------------
// Views: the same trees with the text of names and literals as `Seq<char>`.

pub enum ExpressionView {
    Number(Seq<char>),
    Str(Seq<char>),
    Boolean(bool),
    Identifier(Seq<char>),
    Group(Box<SpannedExprView>),
    FnCall { name: Seq<char>, args: Seq<SpannedExprView> },
    Weigh { left: Box<SpannedExprView>, right: Box<SpannedExprView> },
    BinaryOp { operation: BinaryOp, lhs: Box<SpannedExprView>, rhs: Box<SpannedExprView> },
}

pub struct SpannedExprView {
    pub expr: ExpressionView,
    pub span: Range<usize>,
}

pub enum StatementView {
    VarDef { name: Seq<char>, value: Box<SpannedExprView> },
    FnDef { name: Seq<char>, params: Seq<Seq<char>>, body: Seq<SpannedStatementView> },
    Return(Box<SpannedExprView>),
    Assign { operation: BinaryOp, variable: Seq<char>, value: Box<SpannedExprView> },
    If {
        condition: Box<SpannedExprView>,
        body: Seq<SpannedStatementView>,
        else_: Option<Seq<SpannedStatementView>>,
    },
    While { condition: Box<SpannedExprView>, body: Seq<SpannedStatementView> },
    Break,
    Print(Box<SpannedExprView>),
    Expr(Box<SpannedExprView>),
}

pub struct SpannedStatementView {
    pub statement: StatementView,
    pub span: Range<usize>,
}

pub open spec fn expression_view(e: Expression) -> ExpressionView
    decreases e, 1nat,
{
    match e {
        Expression::Number(s) => ExpressionView::Number(s@),
        Expression::Str(s) => ExpressionView::Str(s@),
        Expression::Boolean(b) => ExpressionView::Boolean(b),
        Expression::Identifier(s) => ExpressionView::Identifier(s@),
        Expression::Group(b) => ExpressionView::Group(Box::new(expr_view(*b))),
        Expression::FnCall { name, args } => ExpressionView::FnCall {
            name: name@,
            args: exprs_view(args@),
        },
        Expression::Weigh { left, right } => ExpressionView::Weigh {
            left: Box::new(expr_view(*left)),
            right: Box::new(expr_view(*right)),
        },
        Expression::BinaryOp { operation, lhs, rhs } => ExpressionView::BinaryOp {
            operation,
            lhs: Box::new(expr_view(*lhs)),
            rhs: Box::new(expr_view(*rhs)),
        },
    }
}

pub open spec fn expr_view(e: SpannedExpr) -> SpannedExprView
    decreases e, 2nat,
{
    SpannedExprView { expr: expression_view(e.expr), span: e.span }
}

pub open spec fn exprs_view(v: Seq<SpannedExpr>) -> Seq<SpannedExprView>
    decreases v, 0nat,
{
    if v.len() == 0 {
        Seq::empty()
    } else {
        exprs_view(v.subrange(0, v.len() - 1)).push(expr_view(v[v.len() - 1]))
    }
}

pub open spec fn statement_view(s: Statement) -> StatementView
    decreases s, 1nat,
{
    match s {
        Statement::VarDef { name, value } => StatementView::VarDef {
            name: name@,
            value: Box::new(expr_view(*value)),
        },
        Statement::FnDef { name, params, body } => StatementView::FnDef {
            name: name@,
            params: names_view(params@),
            body: stmts_view(body@),
        },
        Statement::Return(e) => StatementView::Return(Box::new(expr_view(*e))),
        Statement::Assign { operation, variable, value } => StatementView::Assign {
            operation,
            variable: variable@,
            value: Box::new(expr_view(*value)),
        },
        Statement::If { condition, body, else_ } => StatementView::If {
            condition: Box::new(expr_view(*condition)),
            body: stmts_view(body@),
            else_: match else_ {
                Some(v) => Some(stmts_view(v@)),
                None => None,
            },
        },
        Statement::While { condition, body } => StatementView::While {
            condition: Box::new(expr_view(*condition)),
            body: stmts_view(body@),
        },
        Statement::Break => StatementView::Break,
        Statement::Print(e) => StatementView::Print(Box::new(expr_view(*e))),
        Statement::Expr(e) => StatementView::Expr(Box::new(expr_view(*e))),
    }
}

pub open spec fn stmt_view(s: SpannedStatement) -> SpannedStatementView
    decreases s, 2nat,
{
    SpannedStatementView { statement: statement_view(s.statement), span: s.span }
}

pub open spec fn stmts_view(v: Seq<SpannedStatement>) -> Seq<SpannedStatementView>
    decreases v, 0nat,
{
    if v.len() == 0 {
        Seq::empty()
    } else {
        stmts_view(v.subrange(0, v.len() - 1)).push(stmt_view(v[v.len() - 1]))
    }
}

pub open spec fn names_view(v: Seq<String>) -> Seq<Seq<char>> {
    v.map_values(|s: String| s@)
}

impl View for SpannedExpr {
    type V = SpannedExprView;

    open spec fn view(&self) -> SpannedExprView {
        expr_view(*self)
    }
}

impl View for SpannedStatement {
    type V = SpannedStatementView;

    open spec fn view(&self) -> SpannedStatementView {
        stmt_view(*self)
    }
}

pub proof fn lemma_exprs_view(v: Seq<SpannedExpr>)
    ensures
        exprs_view(v).len() == v.len(),
        forall|i: int| 0 <= i < v.len() ==> #[trigger] exprs_view(v)[i] == expr_view(v[i]),
    decreases v.len(),
{
    if v.len() > 0 {
        lemma_exprs_view(v.subrange(0, v.len() - 1));
    }
}

pub proof fn lemma_stmts_view(v: Seq<SpannedStatement>)
    ensures
        stmts_view(v).len() == v.len(),
        forall|i: int| 0 <= i < v.len() ==> #[trigger] stmts_view(v)[i] == stmt_view(v[i]),
    decreases v.len(),
{
    if v.len() > 0 {
        lemma_stmts_view(v.subrange(0, v.len() - 1));
    }
}

pub proof fn lemma_stmts_view_push(v: Seq<SpannedStatement>, s: SpannedStatement)
    ensures
        stmts_view(v.push(s)) == stmts_view(v).push(stmt_view(s)),
{
    assert(v.push(s).subrange(0, v.len() as int) =~= v);
}

pub proof fn lemma_exprs_view_push(v: Seq<SpannedExpr>, s: SpannedExpr)
    ensures
        exprs_view(v.push(s)) == exprs_view(v).push(expr_view(s)),
{
    assert(v.push(s).subrange(0, v.len() as int) =~= v);
}

// ---------------------------------------------------------------------------
// Copies that keep the view.

pub fn clone_expression(e: &Expression) -> (r: Expression)
    ensures
        expression_view(r) == expression_view(*e),
    decreases e, 1nat,
{
    match e {
        Expression::Number(s) => Expression::Number(s.clone()),
        Expression::Str(s) => Expression::Str(s.clone()),
        Expression::Boolean(b) => Expression::Boolean(*b),
        Expression::Identifier(s) => Expression::Identifier(s.clone()),
        Expression::Group(b) => Expression::Group(Box::new(clone_expr(b))),
        Expression::FnCall { name, args } => Expression::FnCall { name: name.clone(), args: clone_exprs(args) },
        Expression::Weigh { left, right } => Expression::Weigh {
            left: Box::new(clone_expr(left)),
            right: Box::new(clone_expr(right)),
        },
        Expression::BinaryOp { operation, lhs, rhs } => Expression::BinaryOp {
            operation: *operation,
            lhs: Box::new(clone_expr(lhs)),
            rhs: Box::new(clone_expr(rhs)),
        },
    }
}

pub fn clone_expr(e: &SpannedExpr) -> (r: SpannedExpr)
    ensures
        r@ == e@,
    decreases e, 2nat,
{
    SpannedExpr { expr: clone_expression(&e.expr), span: Range { start: e.span.start, end: e.span.end } }
}

pub fn clone_exprs(v: &Vec<SpannedExpr>) -> (r: Vec<SpannedExpr>)
    ensures
        exprs_view(r@) == exprs_view(v@),
    decreases v, 0nat,
{
    let mut r: Vec<SpannedExpr> = Vec::new();
    let mut i: usize = 0;
    while i < v.len()
        invariant
            i <= v.len(),
            exprs_view(r@) == exprs_view(v@.subrange(0, i as int)),
        decreases v.len() - i,
    {
        let c = clone_expr(&v[i]);
        proof {
            lemma_exprs_view_push(r@, c);
            assert(v@.subrange(0, i + 1).subrange(0, i as int) =~= v@.subrange(0, i as int));
        }
        r.push(c);
        i += 1;
    }
    assert(v@.subrange(0, v.len() as int) =~= v@);
    r
}

pub fn clone_names(v: &Vec<String>) -> (r: Vec<String>)
    ensures
        names_view(r@) == names_view(v@),
{
    let mut r: Vec<String> = Vec::new();
    let mut i: usize = 0;
    while i < v.len()
        invariant
            i <= v.len(),
            r@ == v@.subrange(0, i as int),
        decreases v.len() - i,
    {
        r.push(v[i].clone());
        assert(r@ =~= v@.subrange(0, i + 1));
        i += 1;
    }
    assert(r@ =~= v@);
    r
}

pub fn clone_statement(s: &Statement) -> (r: Statement)
    ensures
        statement_view(r) == statement_view(*s),
    decreases s, 1nat,
{
    match s {
        Statement::VarDef { name, value } => Statement::VarDef { name: name.clone(), value: Box::new(clone_expr(value)) },
        Statement::FnDef { name, params, body } => Statement::FnDef {
            name: name.clone(),
            params: clone_names(params),
            body: clone_stmts(body),
        },
        Statement::Return(e) => Statement::Return(Box::new(clone_expr(e))),
        Statement::Assign { operation, variable, value } => Statement::Assign {
            operation: *operation,
            variable: variable.clone(),
            value: Box::new(clone_expr(value)),
        },
        Statement::If { condition, body, else_ } => Statement::If {
            condition: Box::new(clone_expr(condition)),
            body: clone_stmts(body),
            else_: match else_ {
                Some(v) => Some(clone_stmts(v)),
                None => None,
            },
        },
        Statement::While { condition, body } => Statement::While {
            condition: Box::new(clone_expr(condition)),
            body: clone_stmts(body),
        },
        Statement::Break => Statement::Break,
        Statement::Print(e) => Statement::Print(Box::new(clone_expr(e))),
        Statement::Expr(e) => Statement::Expr(Box::new(clone_expr(e))),
    }
}

pub fn clone_stmt(s: &SpannedStatement) -> (r: SpannedStatement)
    ensures
        r@ == s@,
    decreases s, 2nat,
{
    SpannedStatement { statement: clone_statement(&s.statement), span: Range { start: s.span.start, end: s.span.end } }
}

pub fn clone_stmts(v: &Vec<SpannedStatement>) -> (r: Vec<SpannedStatement>)
    ensures
        stmts_view(r@) == stmts_view(v@),
    decreases v, 0nat,
{
    let mut r: Vec<SpannedStatement> = Vec::new();
    let mut i: usize = 0;
    while i < v.len()
        invariant
            i <= v.len(),
            stmts_view(r@) == stmts_view(v@.subrange(0, i as int)),
        decreases v.len() - i,
    {
        let c = clone_stmt(&v[i]);
        proof {
            lemma_stmts_view_push(r@, c);
            assert(v@.subrange(0, i + 1).subrange(0, i as int) =~= v@.subrange(0, i as int));
        }
        r.push(c);
        i += 1;
    }
    assert(v@.subrange(0, v.len() as int) =~= v@);
    r
}

} // verus!
