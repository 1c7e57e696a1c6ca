use vstd::prelude::*;

verus! {

/// The binary operators of the language.
#[derive(Debug, Clone, Copy, PartialEq, Eq, Structural)]
pub enum BinOp {
    Add,
    Sub,
    Mul,
    Div,
    Mod,
    Pow,
    Eq,
    NotEq,
    Lt,
    Gt,
    LtEq,
    GtEq,
    And,
    Or,
    BitAnd,
    BitOr,
    BitXor,
    LeftShift,
    RightShift,
}

/// The unary operators of the language.
#[derive(Debug, Clone, Copy, PartialEq, Eq, Structural)]
pub enum UnaryOp {
    Neg,
    Not,
    BitNot,
}

/// An argument of a call: by position, or by name (`name: value`).
#[derive(Debug)]
pub enum Arg {
    Positional(Expr),
    Named { name: String, value: Expr },
}

/// A parameter of a function, with its default value if it has one.
#[derive(Debug)]
pub struct Param {
    pub name: String,
    pub default: Option<Expr>,
}

/// An expression. A number literal keeps the text it was written with.
#[derive(Debug)]
pub enum Expr {
    Number(String),
    StringLit(String),
    Bool(bool),
    Nil,
    Ident(String),
    Assign { name: String, value: Box<Expr> },
    CompoundAssign { name: String, op: BinOp, value: Box<Expr> },
    BinOp { left: Box<Expr>, op: BinOp, right: Box<Expr> },
    UnaryOp { op: UnaryOp, expr: Box<Expr> },
    Call { callee: Box<Expr>, args: Vec<Arg> },
    FnExpr { params: Vec<Param>, body: Box<Stmt> },
    ArrayLit { elements: Vec<(Option<Expr>, Expr)> },
    Index { object: Box<Expr>, index: Box<Expr> },
    IndexAssign { object: Box<Expr>, index: Box<Expr>, value: Box<Expr> },
    CompoundIndexAssign { object: Box<Expr>, index: Box<Expr>, op: BinOp, value: Box<Expr> },
    This,
    MemberAccess { object: Box<Expr>, field: String },
    MemberAssign { object: Box<Expr>, field: String, value: Box<Expr> },
    CompoundMemberAssign { object: Box<Expr>, field: String, op: BinOp, value: Box<Expr> },
    NamespaceAccess { namespace: Box<Expr>, name: String },
}

/// An expression of a `define` body, which builds a UGen graph.
#[derive(Debug)]
pub enum UGenExpr {
    UGenCall { name: String, args: Vec<UGenExpr>, named_args: Vec<(String, UGenExpr)> },
    Param(String),
    Number(String),
    StringLit(String),
    BinOp { left: Box<UGenExpr>, op: BinOp, right: Box<UGenExpr> },
    Index { object: Box<UGenExpr>, index: Box<UGenExpr> },
    /// Local bindings, then the expressions whose values the body gives.
    Block { lets: Vec<(String, UGenExpr)>, results: Vec<UGenExpr> },
}

/// A statement. An expression statement and a `let` keep the line they start on.
#[derive(Debug)]
pub enum Stmt {
    ExprStmt(Expr, usize),
    Let { name: String, init: Option<Expr>, line: usize },
    Block(Vec<Stmt>),
    If { cond: Expr, then: Box<Stmt>, else_: Option<Box<Stmt>> },
    While { cond: Expr, body: Box<Stmt> },
    Loop { body: Box<Stmt> },
    For { init: Option<Box<Stmt>>, cond: Option<Expr>, incr: Option<Expr>, body: Box<Stmt> },
    Return(Option<Expr>),
    Break,
    Continue,
    FnDecl { name: String, params: Vec<Param>, body: Box<Stmt> },
    Thread { name: String, body: Box<Stmt> },
    SynthDef { name: String, params: Vec<String>, body: UGenExpr },
    Include { path: String, alias: Option<Vec<String>> },
    Using { path: Vec<String> },
}

// The mathematical model of the syntax tree: text as character sequences, lists as
// sequences.

pub enum ArgView {
    Positional(ExprView),
    Named { name: Seq<char>, value: ExprView },
}

pub struct ParamView {
    pub name: Seq<char>,
    pub default: Option<ExprView>,
}

pub enum ExprView {
    Number(Seq<char>),
    StringLit(Seq<char>),
    Bool(bool),
    Nil,
    Ident(Seq<char>),
    Assign { name: Seq<char>, value: Box<ExprView> },
    CompoundAssign { name: Seq<char>, op: BinOp, value: Box<ExprView> },
    BinOp { left: Box<ExprView>, op: BinOp, right: Box<ExprView> },
    UnaryOp { op: UnaryOp, expr: Box<ExprView> },
    Call { callee: Box<ExprView>, args: Seq<ArgView> },
    FnExpr { params: Seq<ParamView>, body: Box<StmtView> },
    ArrayLit { elements: Seq<(Option<ExprView>, ExprView)> },
    Index { object: Box<ExprView>, index: Box<ExprView> },
    IndexAssign { object: Box<ExprView>, index: Box<ExprView>, value: Box<ExprView> },
    CompoundIndexAssign { object: Box<ExprView>, index: Box<ExprView>, op: BinOp, value: Box<ExprView> },
    This,
    MemberAccess { object: Box<ExprView>, field: Seq<char> },
    MemberAssign { object: Box<ExprView>, field: Seq<char>, value: Box<ExprView> },
    CompoundMemberAssign { object: Box<ExprView>, field: Seq<char>, op: BinOp, value: Box<ExprView> },
    NamespaceAccess { namespace: Box<ExprView>, name: Seq<char> },
}

pub enum UGenView {
    UGenCall { name: Seq<char>, args: Seq<UGenView>, named_args: Seq<(Seq<char>, UGenView)> },
    Param(Seq<char>),
    Number(Seq<char>),
    StringLit(Seq<char>),
    BinOp { left: Box<UGenView>, op: BinOp, right: Box<UGenView> },
    Index { object: Box<UGenView>, index: Box<UGenView> },
    Block { lets: Seq<(Seq<char>, UGenView)>, results: Seq<UGenView> },
}

pub enum StmtView {
    ExprStmt(ExprView, nat),
    Let { name: Seq<char>, init: Option<ExprView>, line: nat },
    Block(Seq<StmtView>),
    If { cond: ExprView, then: Box<StmtView>, else_: Option<Box<StmtView>> },
    While { cond: ExprView, body: Box<StmtView> },
    Loop { body: Box<StmtView> },
    For { init: Option<Box<StmtView>>, cond: Option<ExprView>, incr: Option<ExprView>, body: Box<StmtView> },
    Return(Option<ExprView>),
    Break,
    Continue,
    FnDecl { name: Seq<char>, params: Seq<ParamView>, body: Box<StmtView> },
    Thread { name: Seq<char>, body: Box<StmtView> },
    SynthDef { name: Seq<char>, params: Seq<Seq<char>>, body: UGenView },
    Include { path: Seq<char>, alias: Option<Seq<Seq<char>>> },
    Using { path: Seq<Seq<char>> },
}

pub open spec fn strings_view(s: Seq<String>) -> Seq<Seq<char>> {
    Seq::new(s.len(), |i: int| s[i]@)
}

pub open spec fn opt_expr_view(o: Option<Expr>) -> Option<ExprView>
    decreases o, 2nat,
{
    match o {
        Some(e) => Some(expr_view(e)),
        None => None,
    }
}

pub open spec fn expr_view(e: Expr) -> ExprView
    decreases e, 1nat,
{
    match e {
        Expr::Number(s) => ExprView::Number(s@),
        Expr::StringLit(s) => ExprView::StringLit(s@),
        Expr::Bool(b) => ExprView::Bool(b),
        Expr::Nil => ExprView::Nil,
        Expr::Ident(s) => ExprView::Ident(s@),
        Expr::Assign { name, value } => ExprView::Assign { name: name@, value: Box::new(expr_view(*value)) },
        Expr::CompoundAssign { name, op, value } =>
            ExprView::CompoundAssign { name: name@, op, value: Box::new(expr_view(*value)) },
        Expr::BinOp { left, op, right } =>
            ExprView::BinOp { left: Box::new(expr_view(*left)), op, right: Box::new(expr_view(*right)) },
        Expr::UnaryOp { op, expr } => ExprView::UnaryOp { op, expr: Box::new(expr_view(*expr)) },
        Expr::Call { callee, args } => ExprView::Call { callee: Box::new(expr_view(*callee)), args: args_view(args@) },
        Expr::FnExpr { params, body } => ExprView::FnExpr { params: params_view(params@), body: Box::new(stmt_view(*body)) },
        Expr::ArrayLit { elements } => ExprView::ArrayLit { elements: elems_view(elements@) },
        Expr::Index { object, index } =>
            ExprView::Index { object: Box::new(expr_view(*object)), index: Box::new(expr_view(*index)) },
        Expr::IndexAssign { object, index, value } => ExprView::IndexAssign {
            object: Box::new(expr_view(*object)),
            index: Box::new(expr_view(*index)),
            value: Box::new(expr_view(*value)),
        },
        Expr::CompoundIndexAssign { object, index, op, value } => ExprView::CompoundIndexAssign {
            object: Box::new(expr_view(*object)),
            index: Box::new(expr_view(*index)),
            op,
            value: Box::new(expr_view(*value)),
        },
        Expr::This => ExprView::This,
        Expr::MemberAccess { object, field } => ExprView::MemberAccess { object: Box::new(expr_view(*object)), field: field@ },
        Expr::MemberAssign { object, field, value } => ExprView::MemberAssign {
            object: Box::new(expr_view(*object)),
            field: field@,
            value: Box::new(expr_view(*value)),
        },
        Expr::CompoundMemberAssign { object, field, op, value } => ExprView::CompoundMemberAssign {
            object: Box::new(expr_view(*object)),
            field: field@,
            op,
            value: Box::new(expr_view(*value)),
        },
        Expr::NamespaceAccess { namespace, name } =>
            ExprView::NamespaceAccess { namespace: Box::new(expr_view(*namespace)), name: name@ },
    }
}

pub open spec fn arg_view(a: Arg) -> ArgView
    decreases a, 2nat,
{
    match a {
        Arg::Positional(e) => ArgView::Positional(expr_view(e)),
        Arg::Named { name, value } => ArgView::Named { name: name@, value: expr_view(value) },
    }
}

pub open spec fn args_view(s: Seq<Arg>) -> Seq<ArgView>
    decreases s, 0nat,
{
    if s.len() == 0 { Seq::empty() } else { args_view(s.drop_last()).push(arg_view(s.last())) }
}

pub open spec fn param_view(p: Param) -> ParamView
    decreases p, 3nat,
{
    ParamView { name: p.name@, default: opt_expr_view(p.default) }
}

pub open spec fn params_view(s: Seq<Param>) -> Seq<ParamView>
    decreases s, 0nat,
{
    if s.len() == 0 { Seq::empty() } else { params_view(s.drop_last()).push(param_view(s.last())) }
}

pub open spec fn elem_view(x: (Option<Expr>, Expr)) -> (Option<ExprView>, ExprView)
    decreases x, 3nat,
{
    (opt_expr_view(x.0), expr_view(x.1))
}

pub open spec fn elems_view(s: Seq<(Option<Expr>, Expr)>) -> Seq<(Option<ExprView>, ExprView)>
    decreases s, 0nat,
{
    if s.len() == 0 { Seq::empty() } else { elems_view(s.drop_last()).push(elem_view(s.last())) }
}

pub open spec fn opt_stmt_view(o: Option<Box<Stmt>>) -> Option<Box<StmtView>>
    decreases o, 2nat,
{
    match o {
        Some(b) => Some(Box::new(stmt_view(*b))),
        None => None,
    }
}

pub open spec fn stmt_view(s: Stmt) -> StmtView
    decreases s, 1nat,
{
    match s {
        Stmt::ExprStmt(e, line) => StmtView::ExprStmt(expr_view(e), line as nat),
        Stmt::Let { name, init, line } => StmtView::Let { name: name@, init: opt_expr_view(init), line: line as nat },
        Stmt::Block(b) => StmtView::Block(stmts_view(b@)),
        Stmt::If { cond, then, else_ } =>
            StmtView::If { cond: expr_view(cond), then: Box::new(stmt_view(*then)), else_: opt_stmt_view(else_) },
        Stmt::While { cond, body } => StmtView::While { cond: expr_view(cond), body: Box::new(stmt_view(*body)) },
        Stmt::Loop { body } => StmtView::Loop { body: Box::new(stmt_view(*body)) },
        Stmt::For { init, cond, incr, body } => StmtView::For {
            init: opt_stmt_view(init),
            cond: opt_expr_view(cond),
            incr: opt_expr_view(incr),
            body: Box::new(stmt_view(*body)),
        },
        Stmt::Return(v) => StmtView::Return(opt_expr_view(v)),
        Stmt::Break => StmtView::Break,
        Stmt::Continue => StmtView::Continue,
        Stmt::FnDecl { name, params, body } =>
            StmtView::FnDecl { name: name@, params: params_view(params@), body: Box::new(stmt_view(*body)) },
        Stmt::Thread { name, body } => StmtView::Thread { name: name@, body: Box::new(stmt_view(*body)) },
        Stmt::SynthDef { name, params, body } =>
            StmtView::SynthDef { name: name@, params: strings_view(params@), body: ugen_view(body) },
        Stmt::Include { path, alias } => StmtView::Include {
            path: path@,
            alias: match alias {
                Some(a) => Some(strings_view(a@)),
                None => None,
            },
        },
        Stmt::Using { path } => StmtView::Using { path: strings_view(path@) },
    }
}

pub open spec fn stmts_view(s: Seq<Stmt>) -> Seq<StmtView>
    decreases s, 0nat,
{
    if s.len() == 0 { Seq::empty() } else { stmts_view(s.drop_last()).push(stmt_view(s.last())) }
}

pub open spec fn ugen_view(u: UGenExpr) -> UGenView
    decreases u, 1nat,
{
    match u {
        UGenExpr::UGenCall { name, args, named_args } =>
            UGenView::UGenCall { name: name@, args: ugens_view(args@), named_args: named_view(named_args@) },
        UGenExpr::Param(s) => UGenView::Param(s@),
        UGenExpr::Number(s) => UGenView::Number(s@),
        UGenExpr::StringLit(s) => UGenView::StringLit(s@),
        UGenExpr::BinOp { left, op, right } =>
            UGenView::BinOp { left: Box::new(ugen_view(*left)), op, right: Box::new(ugen_view(*right)) },
        UGenExpr::Index { object, index } =>
            UGenView::Index { object: Box::new(ugen_view(*object)), index: Box::new(ugen_view(*index)) },
        UGenExpr::Block { lets, results } => UGenView::Block { lets: named_view(lets@), results: ugens_view(results@) },
    }
}

pub open spec fn ugens_view(s: Seq<UGenExpr>) -> Seq<UGenView>
    decreases s, 0nat,
{
    if s.len() == 0 { Seq::empty() } else { ugens_view(s.drop_last()).push(ugen_view(s.last())) }
}

pub open spec fn named_view(s: Seq<(String, UGenExpr)>) -> Seq<(Seq<char>, UGenView)>
    decreases s, 0nat,
{
    if s.len() == 0 {
        Seq::empty()
    } else {
        named_view(s.drop_last()).push((s.last().0@, ugen_view(s.last().1)))
    }
}

} // verus!
