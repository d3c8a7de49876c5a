use vstd::prelude::*;

use std::rc::Rc;

use crate::operator_type::{BinaryOp, BinaryOpType, LogicalOp, LogicalOpType, UnaryOp, UnaryOpType};
use crate::token::{SpecToken, Token};

verus! {

/// A literal value written in the source. A number is kept as the text of
/// its literal, which a caller turns into a floating-point value.
#[derive(Debug)]
pub enum Literal {
    Number(String),
    String(String),
    Bool(bool),
    Nil,
}

/// An expression, with an identifier that tells it apart from every other
/// expression one parser made.
#[derive(Debug)]
pub struct Expr {
    pub id: usize,
    pub kind: ExprKind,
}

#[derive(Debug)]
pub enum ExprKind {
    Assign { name: String, value: Box<Expr> },
    Binary { left: Box<Expr>, operator: BinaryOp, right: Box<Expr> },
    Grouping { expression: Box<Expr> },
    Literal(Literal),
    Logical { left: Box<Expr>, operator: LogicalOp, right: Box<Expr> },
    Unary { operator: UnaryOp, right: Box<Expr> },
    Variable { token: Token, name: String },
    Call { callee: Box<Expr>, paren: Token, arguments: Vec<Expr> },
    Get { object: Box<Expr>, token: Token },
    SetProperty { object: Box<Expr>, token: Token, value: Box<Expr> },
    This { token: Token },
}

#[derive(Debug)]
pub enum Stmt {
    Expression(Expr),
    Print(Expr),
    While { condition: Expr, body: Box<Stmt> },
    Var { token: Token, name: String, initializer: Option<Expr> },
    Block(Vec<Stmt>),
    If { condition: Expr, then_branch: Box<Stmt>, else_branch: Option<Box<Stmt>> },
    Function(Rc<FunctionDeclaration>),
    Return { token: Token, value: Option<Expr> },
    Class { token: Token, name: String, methods: Vec<Rc<FunctionDeclaration>> },
}

/// A function or method: the token of its name, its name, its parameters'
/// names and its body.
#[derive(Debug)]
pub struct FunctionDeclaration {
    pub token: Token,
    pub name: String,
    pub params: Vec<String>,
    pub body: Vec<Stmt>,
}

/// Whether a declaration is a free function or a method of a class.
#[derive(Debug, Clone, Copy, PartialEq, Eq, Structural)]
pub enum FunctionKind {
    Function,
    Method,
}

/// The word for a kind of function, as messages use it.
pub open spec fn spec_function_kind_name(kind: FunctionKind) -> Seq<char> {
    match kind {
        FunctionKind::Function => "function"@,
        FunctionKind::Method => "method"@,
    }
}

impl FunctionKind {
    /// The word for this kind of function: `function` or `method`.
    pub fn name(&self) -> (r: &'static str)
        ensures
            r@ == spec_function_kind_name(*self),
    {
        match self {
            FunctionKind::Function => "function",
            FunctionKind::Method => "method",
        }
    }
}

// ---------------------------------------------------------------------------
// Models
// ---------------------------------------------------------------------------

pub enum SpecLiteral {
    Number(Seq<char>),
    String(Seq<char>),
    Bool(bool),
    Nil,
}

pub struct SpecExpr {
    pub id: nat,
    pub kind: SpecExprKind,
}

pub enum SpecExprKind {
    Assign { name: Seq<char>, value: Box<SpecExpr> },
    Binary { left: Box<SpecExpr>, op: BinaryOpType, token: SpecToken, right: Box<SpecExpr> },
    Grouping(Box<SpecExpr>),
    Literal(SpecLiteral),
    Logical { left: Box<SpecExpr>, op: LogicalOpType, token: SpecToken, right: Box<SpecExpr> },
    Unary { op: UnaryOpType, token: SpecToken, right: Box<SpecExpr> },
    Variable { token: SpecToken, name: Seq<char> },
    Call { callee: Box<SpecExpr>, paren: SpecToken, arguments: Seq<SpecExpr> },
    Get { object: Box<SpecExpr>, token: SpecToken },
    SetProperty { object: Box<SpecExpr>, token: SpecToken, value: Box<SpecExpr> },
    This(SpecToken),
}

pub enum SpecStmt {
    Expression(SpecExpr),
    Print(SpecExpr),
    While { condition: SpecExpr, body: Box<SpecStmt> },
    Var { token: SpecToken, name: Seq<char>, initializer: Option<SpecExpr> },
    Block(Seq<SpecStmt>),
    If { condition: SpecExpr, then_branch: Box<SpecStmt>, else_branch: Option<Box<SpecStmt>> },
    Function(SpecFunction),
    Return { token: SpecToken, value: Option<SpecExpr> },
    Class { token: SpecToken, name: Seq<char>, methods: Seq<SpecFunction> },
}

pub struct SpecFunction {
    pub token: SpecToken,
    pub name: Seq<char>,
    pub params: Seq<Seq<char>>,
    pub body: Seq<SpecStmt>,
}

pub open spec fn literal_view(l: Literal) -> SpecLiteral {
    match l {
        Literal::Number(s) => SpecLiteral::Number(s@),
        Literal::String(s) => SpecLiteral::String(s@),
        Literal::Bool(b) => SpecLiteral::Bool(b),
        Literal::Nil => SpecLiteral::Nil,
    }
}

pub open spec fn expr_view(e: Expr) -> SpecExpr
    decreases e,
{
    SpecExpr {
        id: e.id as nat,
        kind: match e.kind {
            ExprKind::Assign { name, value } => SpecExprKind::Assign {
                name: name@,
                value: Box::new(expr_view(*value)),
            },
            ExprKind::Binary { left, operator, right } => SpecExprKind::Binary {
                left: Box::new(expr_view(*left)),
                op: operator.op_type,
                token: operator.token@,
                right: Box::new(expr_view(*right)),
            },
            ExprKind::Grouping { expression } => SpecExprKind::Grouping(
                Box::new(expr_view(*expression)),
            ),
            ExprKind::Literal(l) => SpecExprKind::Literal(literal_view(l)),
            ExprKind::Logical { left, operator, right } => SpecExprKind::Logical {
                left: Box::new(expr_view(*left)),
                op: operator.op_type,
                token: operator.token@,
                right: Box::new(expr_view(*right)),
            },
            ExprKind::Unary { operator, right } => SpecExprKind::Unary {
                op: operator.op_type,
                token: operator.token@,
                right: Box::new(expr_view(*right)),
            },
            ExprKind::Variable { token, name } => SpecExprKind::Variable {
                token: token@,
                name: name@,
            },
            ExprKind::Call { callee, paren, arguments } => SpecExprKind::Call {
                callee: Box::new(expr_view(*callee)),
                paren: paren@,
                arguments: exprs_view(arguments@),
            },
            ExprKind::Get { object, token } => SpecExprKind::Get {
                object: Box::new(expr_view(*object)),
                token: token@,
            },
            ExprKind::SetProperty { object, token, value } => SpecExprKind::SetProperty {
                object: Box::new(expr_view(*object)),
                token: token@,
                value: Box::new(expr_view(*value)),
            },
            ExprKind::This { token } => SpecExprKind::This(token@),
        },
    }
}

pub open spec fn exprs_view(es: Seq<Expr>) -> Seq<SpecExpr>
    decreases es,
{
    if es.len() == 0 {
        seq![]
    } else {
        exprs_view(es.drop_last()).push(expr_view(es.last()))
    }
}

pub open spec fn option_expr_view(e: Option<Expr>) -> Option<SpecExpr> {
    match e {
        Some(x) => Some(expr_view(x)),
        None => None,
    }
}

pub open spec fn stmt_view(s: Stmt) -> SpecStmt
    decreases s,
{
    match s {
        Stmt::Expression(e) => SpecStmt::Expression(expr_view(e)),
        Stmt::Print(e) => SpecStmt::Print(expr_view(e)),
        Stmt::While { condition, body } => SpecStmt::While {
            condition: expr_view(condition),
            body: Box::new(stmt_view(*body)),
        },
        Stmt::Var { token, name, initializer } => SpecStmt::Var {
            token: token@,
            name: name@,
            initializer: option_expr_view(initializer),
        },
        Stmt::Block(stmts) => SpecStmt::Block(stmts_view(stmts@)),
        Stmt::If { condition, then_branch, else_branch } => SpecStmt::If {
            condition: expr_view(condition),
            then_branch: Box::new(stmt_view(*then_branch)),
            else_branch: match else_branch {
                Some(b) => Some(Box::new(stmt_view(*b))),
                None => None,
            },
        },
        Stmt::Function(f) => SpecStmt::Function(function_view(*f)),
        Stmt::Return { token, value } => SpecStmt::Return {
            token: token@,
            value: option_expr_view(value),
        },
        Stmt::Class { token, name, methods } => SpecStmt::Class {
            token: token@,
            name: name@,
            methods: functions_view(methods@),
        },
    }
}

pub open spec fn stmts_view(ss: Seq<Stmt>) -> Seq<SpecStmt>
    decreases ss,
{
    if ss.len() == 0 {
        seq![]
    } else {
        stmts_view(ss.drop_last()).push(stmt_view(ss.last()))
    }
}

pub open spec fn function_view(f: FunctionDeclaration) -> SpecFunction
    decreases f,
{
    SpecFunction {
        token: f.token@,
        name: f.name@,
        params: strings_view(f.params@),
        body: stmts_view(f.body@),
    }
}

pub open spec fn functions_view(fs: Seq<Rc<FunctionDeclaration>>) -> Seq<SpecFunction>
    decreases fs,
{
    if fs.len() == 0 {
        seq![]
    } else {
        functions_view(fs.drop_last()).push(function_view(*fs.last()))
    }
}

pub open spec fn strings_view(ss: Seq<String>) -> Seq<Seq<char>> {
    ss.map_values(|s: String| s@)
}

/// Viewing a list of expressions views each of them, in place.
pub proof fn lemma_exprs_view_index(es: Seq<Expr>)
    ensures
        exprs_view(es).len() == es.len(),
        forall|i: int| 0 <= i < es.len() ==> #[trigger] exprs_view(es)[i] == expr_view(es[i]),
    decreases es.len(),
{
    if es.len() > 0 {
        lemma_exprs_view_index(es.drop_last());
    }
}

/// Viewing a list of statements views each of them, in place.
pub proof fn lemma_stmts_view_index(ss: Seq<Stmt>)
    ensures
        stmts_view(ss).len() == ss.len(),
        forall|i: int| 0 <= i < ss.len() ==> #[trigger] stmts_view(ss)[i] == stmt_view(ss[i]),
    decreases ss.len(),
{
    if ss.len() > 0 {
        lemma_stmts_view_index(ss.drop_last());
    }
}

/// Viewing a list of functions views each of them, in place.
pub proof fn lemma_functions_view_index(fs: Seq<Rc<FunctionDeclaration>>)
    ensures
        functions_view(fs).len() == fs.len(),
        forall|i: int| 0 <= i < fs.len() ==> #[trigger] functions_view(fs)[i] == function_view(*fs[i]),
    decreases fs.len(),
{
    if fs.len() > 0 {
        lemma_functions_view_index(fs.drop_last());
    }
}

// ---------------------------------------------------------------------------
// Expression identifiers
// ---------------------------------------------------------------------------

/// The identifiers of an expression and of the expressions inside it, the
/// inner ones first, in the order of their places in the expression.
pub open spec fn expr_ids(e: SpecExpr) -> Seq<nat>
    decreases e,
{
    match e.kind {
        SpecExprKind::Assign { name, value } => expr_ids(*value).push(e.id),
        SpecExprKind::Binary { left, op, token, right } => (expr_ids(*left) + expr_ids(
            *right,
        )).push(e.id),
        SpecExprKind::Grouping(inner) => expr_ids(*inner).push(e.id),
        SpecExprKind::Literal(_) => seq![e.id],
        SpecExprKind::Logical { left, op, token, right } => (expr_ids(*left) + expr_ids(
            *right,
        )).push(e.id),
        SpecExprKind::Unary { op, token, right } => expr_ids(*right).push(e.id),
        SpecExprKind::Variable { token, name } => seq![e.id],
        SpecExprKind::Call { callee, paren, arguments } => (expr_ids(*callee) + exprs_ids(
            arguments,
        )).push(e.id),
        SpecExprKind::Get { object, token } => expr_ids(*object).push(e.id),
        SpecExprKind::SetProperty { object, token, value } => (expr_ids(*object) + expr_ids(
            *value,
        )).push(e.id),
        SpecExprKind::This(_) => seq![e.id],
    }
}

/// The identifiers of a list of expressions, one after the other.
pub open spec fn exprs_ids(es: Seq<SpecExpr>) -> Seq<nat>
    decreases es,
{
    if es.len() == 0 {
        seq![]
    } else {
        exprs_ids(es.drop_last()) + expr_ids(es.last())
    }
}

pub open spec fn option_expr_ids(e: Option<SpecExpr>) -> Seq<nat> {
    match e {
        Some(x) => expr_ids(x),
        None => seq![],
    }
}

/// The identifiers of the expressions in a statement.
pub open spec fn stmt_ids(s: SpecStmt) -> Seq<nat>
    decreases s,
{
    match s {
        SpecStmt::Expression(e) => expr_ids(e),
        SpecStmt::Print(e) => expr_ids(e),
        SpecStmt::While { condition, body } => expr_ids(condition) + stmt_ids(*body),
        SpecStmt::Var { token, name, initializer } => option_expr_ids(initializer),
        SpecStmt::Block(stmts) => stmts_ids(stmts),
        SpecStmt::If { condition, then_branch, else_branch } => expr_ids(condition) + stmt_ids(
            *then_branch,
        ) + match else_branch {
            Some(b) => stmt_ids(*b),
            None => seq![],
        },
        SpecStmt::Function(f) => function_ids(f),
        SpecStmt::Return { token, value } => option_expr_ids(value),
        SpecStmt::Class { token, name, methods } => functions_ids(methods),
    }
}

/// The identifiers of the expressions in a list of statements.
pub open spec fn stmts_ids(ss: Seq<SpecStmt>) -> Seq<nat>
    decreases ss,
{
    if ss.len() == 0 {
        seq![]
    } else {
        stmts_ids(ss.drop_last()) + stmt_ids(ss.last())
    }
}

/// The identifiers of the expressions in a function's body.
pub open spec fn function_ids(f: SpecFunction) -> Seq<nat>
    decreases f,
{
    stmts_ids(f.body)
}

/// The identifiers of the expressions in a list of functions.
pub open spec fn functions_ids(fs: Seq<SpecFunction>) -> Seq<nat>
    decreases fs,
{
    if fs.len() == 0 {
        seq![]
    } else {
        functions_ids(fs.drop_last()) + function_ids(fs.last())
    }
}

/// Whether one of the identifiers `ids`, as a machine word, is `k`.
pub open spec fn names_id(ids: Seq<nat>, k: usize) -> bool {
    exists|i: int| 0 <= i < ids.len() && ids[i] as usize == k
}

/// An identifier of either part is one of the whole.
pub proof fn lemma_names_id_concat(a: Seq<nat>, b: Seq<nat>, k: usize)
    ensures
        names_id(a, k) || names_id(b, k) ==> names_id(a + b, k),
{
    if names_id(a, k) {
        let i = choose|i: int| 0 <= i < a.len() && a[i] as usize == k;
        assert((a + b)[i] == a[i]);
    } else if names_id(b, k) {
        let i = choose|i: int| 0 <= i < b.len() && b[i] as usize == k;
        assert((a + b)[a.len() + i] == b[i]);
    }
}

/// An identifier added at the end is one of the whole, as are the others.
pub proof fn lemma_names_id_push(a: Seq<nat>, x: nat, k: usize)
    ensures
        names_id(a, k) || x as usize == k ==> names_id(a.push(x), k),
{
    if names_id(a, k) {
        let i = choose|i: int| 0 <= i < a.len() && a[i] as usize == k;
        assert(a.push(x)[i] == a[i]);
    } else if x as usize == k {
        assert(a.push(x)[a.len() as int] == x);
    }
}

/// The identifiers of a list of expressions are those of the first one
/// followed by those of the rest.
pub proof fn lemma_exprs_ids_first(es: Seq<SpecExpr>)
    requires
        es.len() > 0,
    ensures
        exprs_ids(es) == expr_ids(es[0]) + exprs_ids(es.subrange(1, es.len() as int)),
    decreases es.len(),
{
    let rest = es.subrange(1, es.len() as int);
    if es.len() == 1 {
        assert(es.drop_last() =~= Seq::<SpecExpr>::empty());
        assert(rest =~= Seq::<SpecExpr>::empty());
        assert(exprs_ids(Seq::<SpecExpr>::empty()) =~= Seq::<nat>::empty());
        assert(exprs_ids(es) =~= expr_ids(es[0]) + exprs_ids(rest));
    } else {
        let shorter = es.drop_last();
        lemma_exprs_ids_first(shorter);
        assert(rest.drop_last() =~= shorter.subrange(1, shorter.len() as int));
        assert(rest.last() == es.last());
        assert(shorter[0] == es[0]);
        assert(exprs_ids(es) =~= expr_ids(es[0]) + exprs_ids(rest));
    }
}

/// The identifiers of a list of statements are those of the first one
/// followed by those of the rest.
pub proof fn lemma_stmts_ids_first(ss: Seq<SpecStmt>)
    requires
        ss.len() > 0,
    ensures
        stmts_ids(ss) == stmt_ids(ss[0]) + stmts_ids(ss.subrange(1, ss.len() as int)),
    decreases ss.len(),
{
    let rest = ss.subrange(1, ss.len() as int);
    if ss.len() == 1 {
        assert(ss.drop_last() =~= Seq::<SpecStmt>::empty());
        assert(rest =~= Seq::<SpecStmt>::empty());
        assert(stmts_ids(Seq::<SpecStmt>::empty()) =~= Seq::<nat>::empty());
        assert(stmts_ids(ss) =~= stmt_ids(ss[0]) + stmts_ids(rest));
    } else {
        let shorter = ss.drop_last();
        lemma_stmts_ids_first(shorter);
        assert(rest.drop_last() =~= shorter.subrange(1, shorter.len() as int));
        assert(rest.last() == ss.last());
        assert(shorter[0] == ss[0]);
        assert(stmts_ids(ss) =~= stmt_ids(ss[0]) + stmts_ids(rest));
    }
}

/// The identifiers of a list of functions are those of the first one
/// followed by those of the rest.
pub proof fn lemma_functions_ids_first(fs: Seq<SpecFunction>)
    requires
        fs.len() > 0,
    ensures
        functions_ids(fs) == function_ids(fs[0]) + functions_ids(fs.subrange(1, fs.len() as int)),
    decreases fs.len(),
{
    let rest = fs.subrange(1, fs.len() as int);
    if fs.len() == 1 {
        assert(fs.drop_last() =~= Seq::<SpecFunction>::empty());
        assert(rest =~= Seq::<SpecFunction>::empty());
        assert(functions_ids(Seq::<SpecFunction>::empty()) =~= Seq::<nat>::empty());
        assert(functions_ids(fs) =~= function_ids(fs[0]) + functions_ids(rest));
    } else {
        let shorter = fs.drop_last();
        lemma_functions_ids_first(shorter);
        assert(rest.drop_last() =~= shorter.subrange(1, shorter.len() as int));
        assert(rest.last() == fs.last());
        assert(shorter[0] == fs[0]);
        assert(functions_ids(fs) =~= function_ids(fs[0]) + functions_ids(rest));
    }
}

} // verus!
