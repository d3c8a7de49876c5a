use vstd::prelude::*;

use crate::ast::{
    expr_ids, exprs_ids, function_ids, functions_ids, lemma_exprs_ids_first,
    lemma_functions_ids_first, lemma_names_id_concat, lemma_names_id_push, lemma_stmts_ids_first,
    names_id, stmt_ids, stmts_ids, SpecExpr, SpecExprKind, SpecFunction, SpecStmt,
};
use crate::errors::SpecError;
use crate::token::SpecToken;

verus! {

/// The kind of function whose body is being resolved.
#[derive(Debug, Clone, Copy, PartialEq, Eq, Structural)]
pub enum FunctionType {
    /// Not inside any function.
    TopLevel,
    Function,
    Method,
    Initializer,
}

/// The kind of class whose body is being resolved.
#[derive(Debug, Clone, Copy, PartialEq, Eq, Structural)]
pub enum ClassType {
    /// Not inside any class.
    NoClass,
    Class,
    Subclass,
}

/// What a resolver knows: the scopes that are open (innermost last), each
/// mapping the names declared in it to whether their definition is complete;
/// the function and class it is in; and, for each expression that reads or
/// writes a local variable, how many scopes out that variable lives.
#[verifier::ext_equal]
pub struct ResolveState {
    pub scopes: Seq<Map<Seq<char>, bool>>,
    pub function: FunctionType,
    pub class: ClassType,
    pub locals: Map<usize, usize>,
}

/// A resolution step: its result and the state after it.
pub type Resolved = (Result<(), SpecError>, ResolveState);

pub open spec fn ok(st: ResolveState) -> Resolved {
    (Ok(()), st)
}

pub open spec fn fail(token: SpecToken, message: Seq<char>, st: ResolveState) -> Resolved {
    (Err(SpecError::ResolutionError { token, message }), st)
}

pub open spec fn begin_scope(st: ResolveState) -> ResolveState {
    ResolveState { scopes: st.scopes.push(Map::empty()), ..st }
}

pub open spec fn end_scope(st: ResolveState) -> ResolveState {
    ResolveState { scopes: st.scopes.drop_last(), ..st }
}

/// The state with `name` set to `ready` in the innermost scope.
pub open spec fn set_in_innermost(st: ResolveState, name: Seq<char>, ready: bool) -> ResolveState {
    ResolveState {
        scopes: st.scopes.update(st.scopes.len() - 1, st.scopes.last().insert(name, ready)),
        ..st
    }
}

/// Declares `name` in the innermost scope, if there is one; a name declared
/// twice in one scope is an error.
pub open spec fn declare(st: ResolveState, name: Seq<char>, token: SpecToken) -> Resolved {
    if st.scopes.len() == 0 {
        ok(st)
    } else if st.scopes.last().contains_key(name) {
        fail(token, "Already a variable with name "@ + name + " in this scope"@, st)
    } else {
        ok(set_in_innermost(st, name, false))
    }
}

/// Marks `name` as defined in the innermost scope, if there is one.
pub open spec fn define(st: ResolveState, name: Seq<char>) -> ResolveState {
    if st.scopes.len() == 0 {
        st
    } else {
        set_in_innermost(st, name, true)
    }
}

/// The position of the innermost scope among `scopes` that declares `name`.
pub open spec fn innermost_declaring(scopes: Seq<Map<Seq<char>, bool>>, name: Seq<char>) -> Option<
    int,
>
    decreases scopes.len(),
{
    if scopes.len() == 0 {
        None
    } else if scopes.last().contains_key(name) {
        Some(scopes.len() - 1)
    } else {
        innermost_declaring(scopes.drop_last(), name)
    }
}

/// Records how many scopes out from the innermost the variable `name` that
/// expression `id` uses lives; a name that no scope declares is global and
/// is not recorded.
pub open spec fn resolve_local(st: ResolveState, id: nat, name: Seq<char>) -> ResolveState {
    match innermost_declaring(st.scopes, name) {
        Some(i) => ResolveState {
            locals: st.locals.insert(id as usize, (st.scopes.len() - 1 - i) as usize),
            ..st
        },
        None => st,
    }
}

pub open spec fn resolve_expr(st: ResolveState, e: SpecExpr) -> Resolved
    decreases e,
{
    match e.kind {
        SpecExprKind::Variable { token, name } => if st.scopes.len() > 0
            && st.scopes.last().contains_key(name) && !st.scopes.last()[name] {
            fail(token, "Can't read local variable "@ + name + " in its own initializer."@, st)
        } else {
            ok(resolve_local(st, e.id, name))
        },
        SpecExprKind::Assign { name, value } => {
            let r = resolve_expr(st, *value);
            match r.0 {
                Ok(_) => ok(resolve_local(r.1, e.id, name)),
                Err(_) => r,
            }
        },
        SpecExprKind::Binary { left, op, token, right } => {
            let r = resolve_expr(st, *left);
            match r.0 {
                Ok(_) => resolve_expr(r.1, *right),
                Err(_) => r,
            }
        },
        SpecExprKind::Logical { left, op, token, right } => {
            let r = resolve_expr(st, *left);
            match r.0 {
                Ok(_) => resolve_expr(r.1, *right),
                Err(_) => r,
            }
        },
        SpecExprKind::Call { callee, paren, arguments } => {
            let r = resolve_expr(st, *callee);
            match r.0 {
                Ok(_) => resolve_exprs(r.1, arguments),
                Err(_) => r,
            }
        },
        SpecExprKind::Grouping(inner) => resolve_expr(st, *inner),
        SpecExprKind::Literal(_) => ok(st),
        SpecExprKind::Unary { op, token, right } => resolve_expr(st, *right),
        SpecExprKind::Get { object, token } => resolve_expr(st, *object),
        SpecExprKind::SetProperty { object, token, value } => {
            let r = resolve_expr(st, *object);
            match r.0 {
                Ok(_) => resolve_expr(r.1, *value),
                Err(_) => r,
            }
        },
        SpecExprKind::This(token) => if st.class == ClassType::NoClass {
            fail(token, "Can't use 'this' outside a class."@, st)
        } else {
            ok(resolve_local(st, e.id, token.lexeme))
        },
    }
}

/// Resolves expressions in order, up to the first error.
pub open spec fn resolve_exprs(st: ResolveState, es: Seq<SpecExpr>) -> Resolved
    decreases es,
{
    if es.len() == 0 {
        ok(st)
    } else {
        let r = resolve_expr(st, es[0]);
        match r.0 {
            Ok(_) => resolve_exprs(r.1, es.subrange(1, es.len() as int)),
            Err(_) => r,
        }
    }
}

pub open spec fn resolve_option_expr(st: ResolveState, e: Option<SpecExpr>) -> Resolved {
    match e {
        Some(x) => resolve_expr(st, x),
        None => ok(st),
    }
}

pub open spec fn resolve_stmt(st: ResolveState, s: SpecStmt) -> Resolved
    decreases s,
{
    match s {
        SpecStmt::Block(stmts) => {
            let r = resolve_stmts(begin_scope(st), stmts);
            match r.0 {
                Ok(_) => ok(end_scope(r.1)),
                Err(_) => r,
            }
        },
        SpecStmt::Class { token, name, methods } => {
            let enclosing = st.class;
            let r = declare(ResolveState { class: ClassType::Class, ..st }, name, token);
            match r.0 {
                Err(_) => r,
                Ok(_) => {
                    let st2 = set_in_innermost(begin_scope(define(r.1, name)), "this"@, true);
                    let r2 = resolve_methods(st2, methods);
                    match r2.0 {
                        Err(_) => r2,
                        Ok(_) => ok(ResolveState { class: enclosing, ..end_scope(r2.1) }),
                    }
                },
            }
        },
        SpecStmt::Expression(e) => resolve_expr(st, e),
        SpecStmt::Print(e) => resolve_expr(st, e),
        SpecStmt::If { condition, then_branch, else_branch } => {
            let r = resolve_expr(st, condition);
            match r.0 {
                Err(_) => r,
                Ok(_) => {
                    let r2 = resolve_stmt(r.1, *then_branch);
                    match r2.0 {
                        Err(_) => r2,
                        Ok(_) => match else_branch {
                            Some(b) => resolve_stmt(r2.1, *b),
                            None => r2,
                        },
                    }
                },
            }
        },
        SpecStmt::Return { token, value } => if st.function == FunctionType::TopLevel {
            fail(token, "Can't return from top level"@, st)
        } else {
            match value {
                Some(v) => if st.function == FunctionType::Initializer {
                    fail(token, "Can't return a value from an initializer"@, st)
                } else {
                    resolve_expr(st, v)
                },
                None => ok(st),
            }
        },
        SpecStmt::While { condition, body } => {
            let r = resolve_expr(st, condition);
            match r.0 {
                Err(_) => r,
                Ok(_) => resolve_stmt(r.1, *body),
            }
        },
        SpecStmt::Var { token, name, initializer } => {
            let r = declare(st, name, token);
            match r.0 {
                Err(_) => r,
                Ok(_) => {
                    let r2 = resolve_option_expr(r.1, initializer);
                    match r2.0 {
                        Err(_) => r2,
                        Ok(_) => ok(define(r2.1, name)),
                    }
                },
            }
        },
        SpecStmt::Function(f) => {
            let r = declare(st, f.name, f.token);
            match r.0 {
                Err(_) => r,
                Ok(_) => resolve_function(define(r.1, f.name), f, FunctionType::Function),
            }
        },
    }
}

/// Resolves statements in order, up to the first error.
pub open spec fn resolve_stmts(st: ResolveState, ss: Seq<SpecStmt>) -> Resolved
    decreases ss,
{
    if ss.len() == 0 {
        ok(st)
    } else {
        let r = resolve_stmt(st, ss[0]);
        match r.0 {
            Ok(_) => resolve_stmts(r.1, ss.subrange(1, ss.len() as int)),
            Err(_) => r,
        }
    }
}

/// Resolves a function's parameters and body in a scope of their own, as
/// a function of kind `kind`.
pub open spec fn resolve_function(st: ResolveState, f: SpecFunction, kind: FunctionType) -> Resolved
    decreases f,
{
    let enclosing = st.function;
    let r = resolve_params(begin_scope(ResolveState { function: kind, ..st }), f.params, f.token);
    match r.0 {
        Err(_) => r,
        Ok(_) => {
            let r2 = resolve_stmts(r.1, f.body);
            match r2.0 {
                Err(_) => r2,
                Ok(_) => ok(ResolveState { function: enclosing, ..end_scope(r2.1) }),
            }
        },
    }
}

/// Declares and defines parameters in order; a repeated name is reported at
/// the function's name.
pub open spec fn resolve_params(st: ResolveState, params: Seq<Seq<char>>, token: SpecToken) -> Resolved
    decreases params.len(),
{
    if params.len() == 0 {
        ok(st)
    } else {
        let r = declare(st, params[0], token);
        match r.0 {
            Err(_) => r,
            Ok(_) => resolve_params(
                define(r.1, params[0]),
                params.subrange(1, params.len() as int),
                token,
            ),
        }
    }
}

/// Resolves the methods of a class; the method named `init` is an initializer.
pub open spec fn resolve_methods(st: ResolveState, methods: Seq<SpecFunction>) -> Resolved
    decreases methods,
{
    if methods.len() == 0 {
        ok(st)
    } else {
        let m = methods[0];
        let kind = if m.name == "init"@ {
            FunctionType::Initializer
        } else {
            FunctionType::Method
        };
        let r = resolve_function(st, m, kind);
        match r.0 {
            Ok(_) => resolve_methods(r.1, methods.subrange(1, methods.len() as int)),
            Err(_) => r,
        }
    }
}

/// The scopes, function and class that a resolution step hands on are
/// those it was given, but for the names declared in the innermost scope.
pub open spec fn same_context(before: ResolveState, after: ResolveState) -> bool {
    &&& after.scopes.len() == before.scopes.len()
    &&& forall|i: int| 0 <= i < before.scopes.len() - 1 ==> after.scopes[i] == before.scopes[i]
    &&& after.function == before.function
    &&& after.class == before.class
}

/// Resolving an expression changes nothing but the recorded locals, and
/// keeps every local recorded before.
pub proof fn law_expression_keeps_context(st: ResolveState, e: SpecExpr)
    ensures
        resolve_expr(st, e).1.scopes == st.scopes,
        resolve_expr(st, e).1.function == st.function,
        resolve_expr(st, e).1.class == st.class,
        st.locals.dom().subset_of(resolve_expr(st, e).1.locals.dom()),
    decreases e,
{
    match e.kind {
        SpecExprKind::Assign { name, value } => {
            law_expression_keeps_context(st, *value);
        },
        SpecExprKind::Binary { left, op, token, right } => {
            law_expression_keeps_context(st, *left);
            law_expression_keeps_context(resolve_expr(st, *left).1, *right);
        },
        SpecExprKind::Logical { left, op, token, right } => {
            law_expression_keeps_context(st, *left);
            law_expression_keeps_context(resolve_expr(st, *left).1, *right);
        },
        SpecExprKind::Call { callee, paren, arguments } => {
            law_expression_keeps_context(st, *callee);
            lemma_exprs_keep_context(resolve_expr(st, *callee).1, arguments);
        },
        SpecExprKind::Grouping(inner) => {
            law_expression_keeps_context(st, *inner);
        },
        SpecExprKind::Unary { op, token, right } => {
            law_expression_keeps_context(st, *right);
        },
        SpecExprKind::Get { object, token } => {
            law_expression_keeps_context(st, *object);
        },
        SpecExprKind::SetProperty { object, token, value } => {
            law_expression_keeps_context(st, *object);
            law_expression_keeps_context(resolve_expr(st, *object).1, *value);
        },
        _ => {},
    }
}

proof fn lemma_exprs_keep_context(st: ResolveState, es: Seq<SpecExpr>)
    ensures
        resolve_exprs(st, es).1.scopes == st.scopes,
        resolve_exprs(st, es).1.function == st.function,
        resolve_exprs(st, es).1.class == st.class,
        st.locals.dom().subset_of(resolve_exprs(st, es).1.locals.dom()),
    decreases es,
{
    if es.len() > 0 {
        law_expression_keeps_context(st, es[0]);
        lemma_exprs_keep_context(resolve_expr(st, es[0]).1, es.subrange(1, es.len() as int));
    }
}

proof fn lemma_option_expr_keeps_context(st: ResolveState, e: Option<SpecExpr>)
    ensures
        resolve_option_expr(st, e).1.scopes == st.scopes,
        resolve_option_expr(st, e).1.function == st.function,
        resolve_option_expr(st, e).1.class == st.class,
{
    if let Some(x) = e {
        law_expression_keeps_context(st, x);
    }
}

/// A statement that resolves without error leaves the open scopes, the
/// function and the class as it found them, but for names it declares in
/// the innermost scope.
pub proof fn law_statement_keeps_context(st: ResolveState, s: SpecStmt)
    ensures
        resolve_stmt(st, s).0 is Ok ==> same_context(st, resolve_stmt(st, s).1),
    decreases s,
{
    match s {
        SpecStmt::Block(stmts) => {
            law_statements_keep_context(begin_scope(st), stmts);
        },
        SpecStmt::Class { token, name, methods } => {
            let st1 = ResolveState { class: ClassType::Class, ..st };
            let r = declare(st1, name, token);
            if r.0 is Ok {
                let st2 = set_in_innermost(begin_scope(define(r.1, name)), "this"@, true);
                lemma_methods_keep_context(st2, methods);
            }
        },
        SpecStmt::Expression(e) => {
            law_expression_keeps_context(st, e);
        },
        SpecStmt::Print(e) => {
            law_expression_keeps_context(st, e);
        },
        SpecStmt::If { condition, then_branch, else_branch } => {
            law_expression_keeps_context(st, condition);
            let st1 = resolve_expr(st, condition).1;
            law_statement_keeps_context(st1, *then_branch);
            if let Some(b) = else_branch {
                let st2 = resolve_stmt(st1, *then_branch).1;
                law_statement_keeps_context(st2, *b);
            }
        },
        SpecStmt::Return { token, value } => {
            if let Some(v) = value {
                law_expression_keeps_context(st, v);
            }
        },
        SpecStmt::While { condition, body } => {
            law_expression_keeps_context(st, condition);
            law_statement_keeps_context(resolve_expr(st, condition).1, *body);
        },
        SpecStmt::Var { token, name, initializer } => {
            let r = declare(st, name, token);
            lemma_option_expr_keeps_context(r.1, initializer);
        },
        SpecStmt::Function(f) => {
            let r = declare(st, f.name, f.token);
            if r.0 is Ok {
                lemma_function_keeps_context(define(r.1, f.name), f, FunctionType::Function);
            }
        },
    }
}

/// Statements that resolve without error leave the open scopes, the
/// function and the class as they found them, but for names they declare
/// in the innermost scope.
pub proof fn law_statements_keep_context(st: ResolveState, ss: Seq<SpecStmt>)
    ensures
        resolve_stmts(st, ss).0 is Ok ==> same_context(st, resolve_stmts(st, ss).1),
    decreases ss,
{
    if ss.len() > 0 {
        law_statement_keeps_context(st, ss[0]);
        let r = resolve_stmt(st, ss[0]);
        if r.0 is Ok {
            law_statements_keep_context(r.1, ss.subrange(1, ss.len() as int));
        }
    }
}

proof fn lemma_function_keeps_context(st: ResolveState, f: SpecFunction, kind: FunctionType)
    ensures
        resolve_function(st, f, kind).0 is Ok ==> same_context(st, resolve_function(st, f, kind).1),
    decreases f,
{
    let st1 = begin_scope(ResolveState { function: kind, ..st });
    lemma_params_keep_context(st1, f.params, f.token);
    let r = resolve_params(st1, f.params, f.token);
    if r.0 is Ok {
        law_statements_keep_context(r.1, f.body);
    }
}

proof fn lemma_params_keep_context(st: ResolveState, params: Seq<Seq<char>>, token: SpecToken)
    ensures
        resolve_params(st, params, token).0 is Ok ==> same_context(
            st,
            resolve_params(st, params, token).1,
        ),
    decreases params.len(),
{
    if params.len() > 0 {
        let r = declare(st, params[0], token);
        if r.0 is Ok {
            lemma_params_keep_context(
                define(r.1, params[0]),
                params.subrange(1, params.len() as int),
                token,
            );
        }
    }
}

proof fn lemma_methods_keep_context(st: ResolveState, methods: Seq<SpecFunction>)
    ensures
        resolve_methods(st, methods).0 is Ok ==> same_context(st, resolve_methods(st, methods).1),
    decreases methods,
{
    if methods.len() > 0 {
        let m = methods[0];
        let kind = if m.name == "init"@ {
            FunctionType::Initializer
        } else {
            FunctionType::Method
        };
        lemma_function_keeps_context(st, m, kind);
        let r = resolve_function(st, m, kind);
        if r.0 is Ok {
            lemma_methods_keep_context(r.1, methods.subrange(1, methods.len() as int));
        }
    }
}

/// Every expression identifier that `after` records a distance for, and
/// `before` did not, is one of `ids`.
pub open spec fn records_only(before: Map<usize, usize>, after: Map<usize, usize>, ids: Seq<nat>) -> bool {
    forall|k: usize| #[trigger] after.contains_key(k) ==> before.contains_key(k) || names_id(ids, k)
}

proof fn lemma_records_same(m: Map<usize, usize>, ids: Seq<nat>)
    ensures
        records_only(m, m, ids),
{
}

proof fn lemma_records_chain(
    a: Map<usize, usize>,
    b: Map<usize, usize>,
    c: Map<usize, usize>,
    x: Seq<nat>,
    y: Seq<nat>,
)
    requires
        records_only(a, b, x),
        records_only(b, c, y),
    ensures
        records_only(a, c, x + y),
{
    assert forall|k: usize| #[trigger] c.contains_key(k) implies a.contains_key(k) || names_id(
        x + y,
        k,
    ) by {
        lemma_names_id_concat(x, y, k);
    }
}

proof fn lemma_records_more(a: Map<usize, usize>, b: Map<usize, usize>, x: Seq<nat>, y: Seq<nat>)
    requires
        records_only(a, b, x),
    ensures
        records_only(a, b, x + y),
        records_only(a, b, y + x),
{
    assert forall|k: usize| #[trigger] b.contains_key(k) implies a.contains_key(k) || names_id(
        x + y,
        k,
    ) by {
        lemma_names_id_concat(x, y, k);
    }
    assert forall|k: usize| #[trigger] b.contains_key(k) implies a.contains_key(k) || names_id(
        y + x,
        k,
    ) by {
        lemma_names_id_concat(y, x, k);
    }
}

proof fn lemma_records_push(a: Map<usize, usize>, b: Map<usize, usize>, x: Seq<nat>, z: nat)
    requires
        records_only(a, b, x),
    ensures
        records_only(a, b, x.push(z)),
{
    assert forall|k: usize| #[trigger] b.contains_key(k) implies a.contains_key(k) || names_id(
        x.push(z),
        k,
    ) by {
        lemma_names_id_push(x, z, k);
    }
}

/// Recording the distance of one expression records just its identifier.
proof fn lemma_records_local(st: ResolveState, id: nat, name: Seq<char>, ids: Seq<nat>)
    requires
        names_id(ids, id as usize),
    ensures
        records_only(st.locals, resolve_local(st, id, name).locals, ids),
{
}

/// One expression's identifier followed by the others'.
proof fn lemma_records_local_after(
    a: Map<usize, usize>,
    st: ResolveState,
    x: Seq<nat>,
    id: nat,
    name: Seq<char>,
)
    requires
        records_only(a, st.locals, x),
    ensures
        records_only(a, resolve_local(st, id, name).locals, x.push(id)),
{
    assert(x.push(id)[x.len() as int] == id);
    assert(names_id(x.push(id), id as usize));
    lemma_records_push(a, st.locals, x, id);
    lemma_records_local(st, id, name, x.push(id));
    assert forall|k: usize| #[trigger] resolve_local(st, id, name).locals.contains_key(k) implies a.contains_key(k)
        || names_id(x.push(id), k) by {
        if !st.locals.contains_key(k) {
            assert(names_id(x.push(id), k));
        }
    }
}

/// Resolving an expression records distances only for the expressions in it.
pub proof fn law_expression_records_its_own(st: ResolveState, e: SpecExpr)
    ensures
        records_only(st.locals, resolve_expr(st, e).1.locals, expr_ids(e)),
    decreases e,
{
    let after = resolve_expr(st, e).1;
    match e.kind {
        SpecExprKind::Variable { token, name } => {
            assert(seq![e.id][0] == e.id);
            lemma_records_local(st, e.id, name, seq![e.id]);
        },
        SpecExprKind::This(token) => {
            assert(seq![e.id][0] == e.id);
            lemma_records_local(st, e.id, token.lexeme, seq![e.id]);
        },
        SpecExprKind::Assign { name, value } => {
            law_expression_records_its_own(st, *value);
            let r = resolve_expr(st, *value);
            if r.0 is Ok {
                lemma_records_local_after(st.locals, r.1, expr_ids(*value), e.id, name);
            } else {
                lemma_records_push(st.locals, r.1.locals, expr_ids(*value), e.id);
            }
        },
        SpecExprKind::Binary { left, op, token, right } => {
            law_expression_records_its_own(st, *left);
            if resolve_expr(st, *left).0 is Ok {
                law_expression_records_its_own(resolve_expr(st, *left).1, *right);
            }
            lemma_records_pair(st, *left, *right);
            lemma_records_push(st.locals, after.locals, expr_ids(*left) + expr_ids(*right), e.id);
        },
        SpecExprKind::Logical { left, op, token, right } => {
            law_expression_records_its_own(st, *left);
            if resolve_expr(st, *left).0 is Ok {
                law_expression_records_its_own(resolve_expr(st, *left).1, *right);
            }
            lemma_records_pair(st, *left, *right);
            lemma_records_push(st.locals, after.locals, expr_ids(*left) + expr_ids(*right), e.id);
        },
        SpecExprKind::SetProperty { object, token, value } => {
            law_expression_records_its_own(st, *object);
            if resolve_expr(st, *object).0 is Ok {
                law_expression_records_its_own(resolve_expr(st, *object).1, *value);
            }
            lemma_records_pair(st, *object, *value);
            lemma_records_push(st.locals, after.locals, expr_ids(*object) + expr_ids(*value), e.id);
        },
        SpecExprKind::Call { callee, paren, arguments } => {
            law_expression_records_its_own(st, *callee);
            let r = resolve_expr(st, *callee);
            if r.0 is Ok {
                lemma_exprs_record_their_own(r.1, arguments);
                lemma_records_chain(
                    st.locals,
                    r.1.locals,
                    after.locals,
                    expr_ids(*callee),
                    exprs_ids(arguments),
                );
            } else {
                lemma_records_more(st.locals, after.locals, expr_ids(*callee), exprs_ids(arguments));
            }
            lemma_records_push(
                st.locals,
                after.locals,
                expr_ids(*callee) + exprs_ids(arguments),
                e.id,
            );
        },
        SpecExprKind::Grouping(inner) => {
            law_expression_records_its_own(st, *inner);
            lemma_records_push(st.locals, after.locals, expr_ids(*inner), e.id);
        },
        SpecExprKind::Unary { op, token, right } => {
            law_expression_records_its_own(st, *right);
            lemma_records_push(st.locals, after.locals, expr_ids(*right), e.id);
        },
        SpecExprKind::Get { object, token } => {
            law_expression_records_its_own(st, *object);
            lemma_records_push(st.locals, after.locals, expr_ids(*object), e.id);
        },
        SpecExprKind::Literal(_) => {},
    }
}

/// Two expressions resolved one after the other, the second only where the
/// first succeeds, record distances only for the expressions in them.
proof fn lemma_records_pair(st: ResolveState, first: SpecExpr, second: SpecExpr)
    requires
        records_only(st.locals, resolve_expr(st, first).1.locals, expr_ids(first)),
        resolve_expr(st, first).0 is Ok ==> records_only(
            resolve_expr(st, first).1.locals,
            resolve_expr(resolve_expr(st, first).1, second).1.locals,
            expr_ids(second),
        ),
    ensures
        ({
            let r = resolve_expr(st, first);
            let after = match r.0 {
                Ok(_) => resolve_expr(r.1, second),
                Err(_) => r,
            };
            records_only(st.locals, after.1.locals, expr_ids(first) + expr_ids(second))
        }),
{
    let r = resolve_expr(st, first);
    if r.0 is Ok {
        lemma_records_chain(
            st.locals,
            r.1.locals,
            resolve_expr(r.1, second).1.locals,
            expr_ids(first),
            expr_ids(second),
        );
    } else {
        lemma_records_more(st.locals, r.1.locals, expr_ids(first), expr_ids(second));
    }
}

proof fn lemma_exprs_record_their_own(st: ResolveState, es: Seq<SpecExpr>)
    ensures
        records_only(st.locals, resolve_exprs(st, es).1.locals, exprs_ids(es)),
    decreases es,
{
    if es.len() == 0 {
        lemma_records_same(st.locals, exprs_ids(es));
    } else {
        lemma_exprs_ids_first(es);
        let rest = es.subrange(1, es.len() as int);
        law_expression_records_its_own(st, es[0]);
        let r = resolve_expr(st, es[0]);
        if r.0 is Ok {
            lemma_exprs_record_their_own(r.1, rest);
            lemma_records_chain(
                st.locals,
                r.1.locals,
                resolve_exprs(r.1, rest).1.locals,
                expr_ids(es[0]),
                exprs_ids(rest),
            );
        } else {
            lemma_records_more(st.locals, r.1.locals, expr_ids(es[0]), exprs_ids(rest));
        }
    }
}

/// Resolving a statement records distances only for the expressions in it.
pub proof fn law_statement_records_its_own(st: ResolveState, s: SpecStmt)
    ensures
        records_only(st.locals, resolve_stmt(st, s).1.locals, stmt_ids(s)),
    decreases s,
{
    let after = resolve_stmt(st, s).1;
    match s {
        SpecStmt::Block(stmts) => {
            law_statements_record_their_own(begin_scope(st), stmts);
        },
        SpecStmt::Class { token, name, methods } => {
            let st1 = ResolveState { class: ClassType::Class, ..st };
            let r = declare(st1, name, token);
            if r.0 is Ok {
                let st2 = set_in_innermost(begin_scope(define(r.1, name)), "this"@, true);
                lemma_methods_record_their_own(st2, methods);
            } else {
                lemma_records_same(st.locals, stmt_ids(s));
            }
        },
        SpecStmt::Expression(e) => {
            law_expression_records_its_own(st, e);
        },
        SpecStmt::Print(e) => {
            law_expression_records_its_own(st, e);
        },
        SpecStmt::If { condition, then_branch, else_branch } => {
            let else_ids = match else_branch {
                Some(b) => stmt_ids(*b),
                None => seq![],
            };
            law_expression_records_its_own(st, condition);
            let r = resolve_expr(st, condition);
            if r.0 is Ok {
                law_statement_records_its_own(r.1, *then_branch);
                let r2 = resolve_stmt(r.1, *then_branch);
                lemma_records_chain(
                    st.locals,
                    r.1.locals,
                    r2.1.locals,
                    expr_ids(condition),
                    stmt_ids(*then_branch),
                );
                if r2.0 is Ok && else_branch is Some {
                    let b = else_branch.unwrap();
                    law_statement_records_its_own(r2.1, *b);
                    lemma_records_chain(
                        st.locals,
                        r2.1.locals,
                        after.locals,
                        expr_ids(condition) + stmt_ids(*then_branch),
                        else_ids,
                    );
                } else {
                    lemma_records_more(
                        st.locals,
                        r2.1.locals,
                        expr_ids(condition) + stmt_ids(*then_branch),
                        else_ids,
                    );
                }
            } else {
                lemma_records_more(st.locals, r.1.locals, expr_ids(condition), stmt_ids(*then_branch));
                lemma_records_more(
                    st.locals,
                    r.1.locals,
                    expr_ids(condition) + stmt_ids(*then_branch),
                    else_ids,
                );
            }
        },
        SpecStmt::Return { token, value } => {
            if let Some(v) = value {
                law_expression_records_its_own(st, v);
            }
        },
        SpecStmt::While { condition, body } => {
            law_expression_records_its_own(st, condition);
            let r = resolve_expr(st, condition);
            if r.0 is Ok {
                law_statement_records_its_own(r.1, *body);
                lemma_records_chain(
                    st.locals,
                    r.1.locals,
                    after.locals,
                    expr_ids(condition),
                    stmt_ids(*body),
                );
            } else {
                lemma_records_more(st.locals, r.1.locals, expr_ids(condition), stmt_ids(*body));
            }
        },
        SpecStmt::Var { token, name, initializer } => {
            let r = declare(st, name, token);
            if let Some(e) = initializer {
                law_expression_records_its_own(r.1, e);
            }
        },
        SpecStmt::Function(f) => {
            let r = declare(st, f.name, f.token);
            if r.0 is Ok {
                lemma_function_records_its_own(define(r.1, f.name), f, FunctionType::Function);
            }
        },
    }
}

/// Resolving statements records distances only for the expressions in them.
pub proof fn law_statements_record_their_own(st: ResolveState, ss: Seq<SpecStmt>)
    ensures
        records_only(st.locals, resolve_stmts(st, ss).1.locals, stmts_ids(ss)),
    decreases ss,
{
    if ss.len() == 0 {
        lemma_records_same(st.locals, stmts_ids(ss));
    } else {
        lemma_stmts_ids_first(ss);
        let rest = ss.subrange(1, ss.len() as int);
        law_statement_records_its_own(st, ss[0]);
        let r = resolve_stmt(st, ss[0]);
        if r.0 is Ok {
            law_statements_record_their_own(r.1, rest);
            lemma_records_chain(
                st.locals,
                r.1.locals,
                resolve_stmts(r.1, rest).1.locals,
                stmt_ids(ss[0]),
                stmts_ids(rest),
            );
        } else {
            lemma_records_more(st.locals, r.1.locals, stmt_ids(ss[0]), stmts_ids(rest));
        }
    }
}

proof fn lemma_params_record_nothing(st: ResolveState, params: Seq<Seq<char>>, token: SpecToken)
    ensures
        resolve_params(st, params, token).1.locals == st.locals,
    decreases params.len(),
{
    if params.len() > 0 {
        let r = declare(st, params[0], token);
        if r.0 is Ok {
            lemma_params_record_nothing(
                define(r.1, params[0]),
                params.subrange(1, params.len() as int),
                token,
            );
        }
    }
}

proof fn lemma_function_records_its_own(st: ResolveState, f: SpecFunction, kind: FunctionType)
    ensures
        records_only(st.locals, resolve_function(st, f, kind).1.locals, function_ids(f)),
    decreases f,
{
    let st1 = begin_scope(ResolveState { function: kind, ..st });
    lemma_params_record_nothing(st1, f.params, f.token);
    let r = resolve_params(st1, f.params, f.token);
    if r.0 is Ok {
        law_statements_record_their_own(r.1, f.body);
    } else {
        lemma_records_same(st.locals, function_ids(f));
    }
}

proof fn lemma_methods_record_their_own(st: ResolveState, methods: Seq<SpecFunction>)
    ensures
        records_only(st.locals, resolve_methods(st, methods).1.locals, functions_ids(methods)),
    decreases methods,
{
    if methods.len() == 0 {
        lemma_records_same(st.locals, functions_ids(methods));
    } else {
        lemma_functions_ids_first(methods);
        let rest = methods.subrange(1, methods.len() as int);
        let m = methods[0];
        let kind = if m.name == "init"@ {
            FunctionType::Initializer
        } else {
            FunctionType::Method
        };
        lemma_function_records_its_own(st, m, kind);
        let r = resolve_function(st, m, kind);
        if r.0 is Ok {
            lemma_methods_record_their_own(r.1, rest);
            lemma_records_chain(
                st.locals,
                r.1.locals,
                resolve_methods(r.1, rest).1.locals,
                function_ids(m),
                functions_ids(rest),
            );
        } else {
            lemma_records_more(st.locals, r.1.locals, function_ids(m), functions_ids(rest));
        }
    }
}

/// The names that a statement declares in the scope it is resolved in: a
/// variable, function or class declaration declares its name, and an `if` or
/// a `while` what its branches or body declare there; a block declares
/// nothing outside itself.
pub open spec fn declared_names(s: SpecStmt) -> Set<Seq<char>>
    decreases s,
{
    match s {
        SpecStmt::Var { token, name, initializer } => set![name],
        SpecStmt::Function(f) => set![f.name],
        SpecStmt::Class { token, name, methods } => set![name],
        SpecStmt::If { condition, then_branch, else_branch } => declared_names(*then_branch)
            + match else_branch {
            Some(b) => declared_names(*b),
            None => Set::empty(),
        },
        SpecStmt::While { condition, body } => declared_names(*body),
        _ => Set::empty(),
    }
}

/// The names that statements declare in the scope they are resolved in.
pub open spec fn declared_in(ss: Seq<SpecStmt>) -> Set<Seq<char>>
    decreases ss,
{
    if ss.len() == 0 {
        Set::empty()
    } else {
        declared_names(ss[0]) + declared_in(ss.subrange(1, ss.len() as int))
    }
}

/// `scope` with each of `names` declared and its definition complete.
pub open spec fn with_defined(scope: Map<Seq<char>, bool>, names: Set<Seq<char>>) -> Map<
    Seq<char>,
    bool,
> {
    Map::new(
        |n: Seq<char>| scope.contains_key(n) || names.contains(n),
        |n: Seq<char>|
            if names.contains(n) {
                true
            } else {
                scope[n]
            },
    )
}

proof fn lemma_with_defined_twice(m: Map<Seq<char>, bool>, a: Set<Seq<char>>, b: Set<Seq<char>>)
    ensures
        with_defined(with_defined(m, a), b) == with_defined(m, a + b),
{
    assert(with_defined(with_defined(m, a), b) =~= with_defined(m, a + b));
}

proof fn lemma_with_defined_none(m: Map<Seq<char>, bool>)
    ensures
        with_defined(m, Set::empty()) == m,
{
    assert(with_defined(m, Set::empty()) =~= m);
}

proof fn lemma_with_defined_one(m: Map<Seq<char>, bool>, name: Seq<char>)
    ensures
        with_defined(m, set![name]) == m.insert(name, true),
{
    assert(with_defined(m, set![name]) =~= m.insert(name, true));
}

/// A function resolved without error leaves the scopes as it found them.
proof fn lemma_function_restores_scopes(st: ResolveState, f: SpecFunction, kind: FunctionType)
    ensures
        resolve_function(st, f, kind).0 is Ok ==> resolve_function(st, f, kind).1.scopes
            == st.scopes,
{
    let st1 = begin_scope(ResolveState { function: kind, ..st });
    lemma_params_keep_context(st1, f.params, f.token);
    let r = resolve_params(st1, f.params, f.token);
    if r.0 is Ok {
        law_statements_keep_context(r.1, f.body);
        let r2 = resolve_stmts(r.1, f.body);
        if r2.0 is Ok {
            assert forall|i: int| 0 <= i < st.scopes.len() implies r2.1.scopes[i]
                == st.scopes[i] by {
                assert(r.1.scopes[i] == st1.scopes[i]);
            }
            assert(r2.1.scopes.drop_last() =~= st.scopes);
        }
    }
}

/// A statement resolved without error leaves the innermost scope as it
/// found it but for the names the statement declares there, each with its
/// definition complete.
pub proof fn law_statement_defines_its_names(st: ResolveState, s: SpecStmt)
    ensures
        resolve_stmt(st, s).0 is Ok && st.scopes.len() > 0 ==> resolve_stmt(st, s).1.scopes.last()
            == with_defined(st.scopes.last(), declared_names(s)),
    decreases s,
{
    let r0 = resolve_stmt(st, s);
    if r0.0 is Ok && st.scopes.len() > 0 {
        let k = st.scopes.len();
        match s {
            SpecStmt::Block(stmts) => {
                law_statements_keep_context(begin_scope(st), stmts);
                let r = resolve_stmts(begin_scope(st), stmts);
                assert(r.1.scopes[k - 1] == begin_scope(st).scopes[k - 1]);
                lemma_with_defined_none(st.scopes.last());
            },
            SpecStmt::Class { token, name, methods } => {
                let st1 = ResolveState { class: ClassType::Class, ..st };
                let r = declare(st1, name, token);
                let st2 = set_in_innermost(begin_scope(define(r.1, name)), "this"@, true);
                lemma_methods_keep_context(st2, methods);
                let r2 = resolve_methods(st2, methods);
                assert(r2.1.scopes[k - 1] == st2.scopes[k - 1]);
                lemma_with_defined_one(st.scopes.last(), name);
                assert(st2.scopes[k - 1] =~= st.scopes.last().insert(name, false).insert(name, true));
            },
            SpecStmt::Expression(e) => {
                law_expression_keeps_context(st, e);
                lemma_with_defined_none(st.scopes.last());
            },
            SpecStmt::Print(e) => {
                law_expression_keeps_context(st, e);
                lemma_with_defined_none(st.scopes.last());
            },
            SpecStmt::Return { token, value } => {
                if let Some(v) = value {
                    law_expression_keeps_context(st, v);
                }
                lemma_with_defined_none(st.scopes.last());
            },
            SpecStmt::If { condition, then_branch, else_branch } => {
                law_expression_keeps_context(st, condition);
                let r1 = resolve_expr(st, condition);
                law_statement_keeps_context(r1.1, *then_branch);
                law_statement_defines_its_names(r1.1, *then_branch);
                let r2 = resolve_stmt(r1.1, *then_branch);
                match else_branch {
                    Some(b) => {
                        law_statement_defines_its_names(r2.1, *b);
                        lemma_with_defined_twice(
                            st.scopes.last(),
                            declared_names(*then_branch),
                            declared_names(*b),
                        );
                    },
                    None => {
                        assert(declared_names(*then_branch) + Set::<Seq<char>>::empty()
                            =~= declared_names(*then_branch));
                    },
                }
            },
            SpecStmt::While { condition, body } => {
                law_expression_keeps_context(st, condition);
                law_statement_defines_its_names(resolve_expr(st, condition).1, *body);
            },
            SpecStmt::Var { token, name, initializer } => {
                let r = declare(st, name, token);
                lemma_option_expr_keeps_context(r.1, initializer);
                lemma_with_defined_one(st.scopes.last(), name);
                let r2 = resolve_option_expr(r.1, initializer);
                assert(define(r2.1, name).scopes.last() =~= st.scopes.last().insert(name, false).insert(
                    name,
                    true,
                ));
            },
            SpecStmt::Function(f) => {
                let r = declare(st, f.name, f.token);
                lemma_function_restores_scopes(define(r.1, f.name), f, FunctionType::Function);
                lemma_with_defined_one(st.scopes.last(), f.name);
                assert(define(r.1, f.name).scopes.last() =~= st.scopes.last().insert(
                    f.name,
                    false,
                ).insert(f.name, true));
            },
        }
    }
}

/// Statements resolved without error leave the innermost scope as they
/// found it but for the names they declare there, each with its definition
/// complete.
pub proof fn law_statements_define_their_names(st: ResolveState, ss: Seq<SpecStmt>)
    ensures
        resolve_stmts(st, ss).0 is Ok && st.scopes.len() > 0 ==> resolve_stmts(
            st,
            ss,
        ).1.scopes.last() == with_defined(st.scopes.last(), declared_in(ss)),
    decreases ss,
{
    if ss.len() == 0 {
        lemma_with_defined_none(st.scopes.last());
    } else if st.scopes.len() > 0 {
        let rest = ss.subrange(1, ss.len() as int);
        law_statement_keeps_context(st, ss[0]);
        law_statement_defines_its_names(st, ss[0]);
        let r = resolve_stmt(st, ss[0]);
        if r.0 is Ok {
            law_statements_define_their_names(r.1, rest);
            lemma_with_defined_twice(st.scopes.last(), declared_names(ss[0]), declared_in(rest));
        }
    }
}

// ---------------------------------------------------------------------------
// Every use of a local variable gets its distance
// ---------------------------------------------------------------------------

/// The uses of variables in an expression, at any depth: each read or
/// assignment of a variable and each `this`, with the identifier of the
/// expression and the name it uses.
pub open spec fn expr_uses(e: SpecExpr) -> Seq<(nat, Seq<char>)>
    decreases e,
{
    match e.kind {
        SpecExprKind::Variable { token, name } => seq![(e.id, name)],
        SpecExprKind::This(token) => seq![(e.id, token.lexeme)],
        SpecExprKind::Assign { name, value } => expr_uses(*value).push((e.id, name)),
        SpecExprKind::Binary { left, op, token, right } => expr_uses(*left) + expr_uses(*right),
        SpecExprKind::Logical { left, op, token, right } => expr_uses(*left) + expr_uses(*right),
        SpecExprKind::Call { callee, paren, arguments } => expr_uses(*callee) + exprs_uses(
            arguments,
        ),
        SpecExprKind::Grouping(inner) => expr_uses(*inner),
        SpecExprKind::Unary { op, token, right } => expr_uses(*right),
        SpecExprKind::Get { object, token } => expr_uses(*object),
        SpecExprKind::SetProperty { object, token, value } => expr_uses(*object) + expr_uses(
            *value,
        ),
        SpecExprKind::Literal(_) => seq![],
    }
}

/// The uses of variables in a list of expressions, one after the other.
pub open spec fn exprs_uses(es: Seq<SpecExpr>) -> Seq<(nat, Seq<char>)>
    decreases es,
{
    if es.len() == 0 {
        seq![]
    } else {
        expr_uses(es[0]) + exprs_uses(es.subrange(1, es.len() as int))
    }
}

/// Some open scope declares `name`.
pub open spec fn declared_in_scopes(scopes: Seq<Map<Seq<char>, bool>>, name: Seq<char>) -> bool {
    exists|j: int| 0 <= j < scopes.len() && (#[trigger] scopes[j]).contains_key(name)
}

/// `d` scopes out from the innermost one, a scope declares `name`, and no
/// scope inside it does.
pub open spec fn declared_at_distance(scopes: Seq<Map<Seq<char>, bool>>, name: Seq<char>, d: int) -> bool {
    &&& 0 <= d < scopes.len()
    &&& scopes[scopes.len() - 1 - d].contains_key(name)
    &&& forall|j: int|
        scopes.len() - 1 - d < j < scopes.len() ==> !(#[trigger] scopes[j]).contains_key(name)
}

/// Every use among `uses` whose name an open scope declares has a distance
/// recorded in `locals`: the number of scopes out to the innermost scope
/// that declares it.
pub open spec fn uses_resolved(
    scopes: Seq<Map<Seq<char>, bool>>,
    locals: Map<usize, usize>,
    uses: Seq<(nat, Seq<char>)>,
) -> bool {
    forall|k: int|
        0 <= k < uses.len() && declared_in_scopes(scopes, (#[trigger] uses[k]).1) ==> {
            &&& locals.contains_key(uses[k].0 as usize)
            &&& declared_at_distance(scopes, uses[k].1, locals[uses[k].0 as usize] as int)
        }
}

/// No two of the identifiers `ids` are the same machine word.
pub open spec fn word_distinct(ids: Seq<nat>) -> bool {
    forall|a: int, b: int|
        0 <= a < ids.len() && 0 <= b < ids.len() && a != b ==> #[trigger] ids[a] as usize
            != #[trigger] ids[b] as usize
}

/// The innermost scope that declares a name is at the distance that
/// `declared_at_distance` describes, and there is one exactly where some
/// scope declares the name.
proof fn lemma_innermost_found(scopes: Seq<Map<Seq<char>, bool>>, name: Seq<char>)
    ensures
        innermost_declaring(scopes, name) is Some <==> declared_in_scopes(scopes, name),
        innermost_declaring(scopes, name) matches Some(i) ==> declared_at_distance(
            scopes,
            name,
            scopes.len() - 1 - i,
        ),
    decreases scopes.len(),
{
    if scopes.len() > 0 {
        let shorter = scopes.drop_last();
        lemma_innermost_found(shorter, name);
        if scopes.last().contains_key(name) {
            assert(scopes[scopes.len() - 1].contains_key(name));
        } else {
            if declared_in_scopes(scopes, name) {
                let j = choose|j: int| 0 <= j < scopes.len() && (#[trigger] scopes[j]).contains_key(
                    name,
                );
                assert(j < scopes.len() - 1);
                assert(shorter[j] == scopes[j]);
            }
            if declared_in_scopes(shorter, name) {
                let j = choose|j: int| 0 <= j < shorter.len() && (#[trigger] shorter[j]).contains_key(
                    name,
                );
                assert(shorter[j] == scopes[j]);
            }
            if let Some(i) = innermost_declaring(shorter, name) {
                assert forall|j: int|
                    scopes.len() - 1 - (scopes.len() - 1 - i) < j < scopes.len() implies !(
                #[trigger] scopes[j]).contains_key(name) by {
                    if j < scopes.len() - 1 {
                        assert(shorter[j] == scopes[j]);
                    }
                }
            }
        }
    }
}

proof fn lemma_word_distinct_concat(a: Seq<nat>, b: Seq<nat>)
    requires
        word_distinct(a + b),
    ensures
        word_distinct(a),
        word_distinct(b),
        forall|i: int| 0 <= i < a.len() ==> !names_id(b, #[trigger] a[i] as usize),
{
    assert forall|x: int, y: int|
        0 <= x < a.len() && 0 <= y < a.len() && x != y implies #[trigger] a[x] as usize
        != #[trigger] a[y] as usize by {
        assert((a + b)[x] == a[x] && (a + b)[y] == a[y]);
    }
    assert forall|x: int, y: int|
        0 <= x < b.len() && 0 <= y < b.len() && x != y implies #[trigger] b[x] as usize
        != #[trigger] b[y] as usize by {
        assert((a + b)[a.len() + x] == b[x] && (a + b)[a.len() + y] == b[y]);
    }
    assert forall|i: int| 0 <= i < a.len() implies !names_id(b, #[trigger] a[i] as usize) by {
        if names_id(b, a[i] as usize) {
            let y = choose|y: int| 0 <= y < b.len() && b[y] as usize == a[i] as usize;
            assert((a + b)[i] == a[i] && (a + b)[a.len() + y] == b[y]);
        }
    }
}

proof fn lemma_word_distinct_push(a: Seq<nat>, z: nat)
    requires
        word_distinct(a.push(z)),
    ensures
        word_distinct(a),
        !names_id(a, z as usize),
{
    assert forall|x: int, y: int|
        0 <= x < a.len() && 0 <= y < a.len() && x != y implies #[trigger] a[x] as usize
        != #[trigger] a[y] as usize by {
        assert(a.push(z)[x] == a[x] && a.push(z)[y] == a[y]);
    }
    if names_id(a, z as usize) {
        let y = choose|y: int| 0 <= y < a.len() && a[y] as usize == z as usize;
        assert(a.push(z)[y] == a[y] && a.push(z)[a.len() as int] == z);
    }
}

/// Resolving an expression changes the recorded distance of no expression
/// outside it.
proof fn lemma_expr_frame(st: ResolveState, e: SpecExpr, k: usize)
    requires
        !names_id(expr_ids(e), k),
    ensures
        resolve_expr(st, e).1.locals.contains_key(k) == st.locals.contains_key(k),
        st.locals.contains_key(k) ==> resolve_expr(st, e).1.locals[k] == st.locals[k],
    decreases e,
{
    match e.kind {
        SpecExprKind::Variable { token, name } => {
            assert(seq![e.id][0] == e.id);
        },
        SpecExprKind::This(token) => {
            assert(seq![e.id][0] == e.id);
        },
        SpecExprKind::Assign { name, value } => {
            lemma_names_id_push(expr_ids(*value), e.id, k);
            lemma_expr_frame(st, *value, k);
        },
        SpecExprKind::Binary { left, op, token, right } => {
            lemma_names_id_push(expr_ids(*left) + expr_ids(*right), e.id, k);
            lemma_names_id_concat(expr_ids(*left), expr_ids(*right), k);
            lemma_expr_frame(st, *left, k);
            lemma_expr_frame(resolve_expr(st, *left).1, *right, k);
        },
        SpecExprKind::Logical { left, op, token, right } => {
            lemma_names_id_push(expr_ids(*left) + expr_ids(*right), e.id, k);
            lemma_names_id_concat(expr_ids(*left), expr_ids(*right), k);
            lemma_expr_frame(st, *left, k);
            lemma_expr_frame(resolve_expr(st, *left).1, *right, k);
        },
        SpecExprKind::SetProperty { object, token, value } => {
            lemma_names_id_push(expr_ids(*object) + expr_ids(*value), e.id, k);
            lemma_names_id_concat(expr_ids(*object), expr_ids(*value), k);
            lemma_expr_frame(st, *object, k);
            lemma_expr_frame(resolve_expr(st, *object).1, *value, k);
        },
        SpecExprKind::Call { callee, paren, arguments } => {
            lemma_names_id_push(expr_ids(*callee) + exprs_ids(arguments), e.id, k);
            lemma_names_id_concat(expr_ids(*callee), exprs_ids(arguments), k);
            lemma_expr_frame(st, *callee, k);
            lemma_exprs_frame(resolve_expr(st, *callee).1, arguments, k);
        },
        SpecExprKind::Grouping(inner) => {
            lemma_names_id_push(expr_ids(*inner), e.id, k);
            lemma_expr_frame(st, *inner, k);
        },
        SpecExprKind::Unary { op, token, right } => {
            lemma_names_id_push(expr_ids(*right), e.id, k);
            lemma_expr_frame(st, *right, k);
        },
        SpecExprKind::Get { object, token } => {
            lemma_names_id_push(expr_ids(*object), e.id, k);
            lemma_expr_frame(st, *object, k);
        },
        SpecExprKind::Literal(_) => {},
    }
}

proof fn lemma_exprs_frame(st: ResolveState, es: Seq<SpecExpr>, k: usize)
    requires
        !names_id(exprs_ids(es), k),
    ensures
        resolve_exprs(st, es).1.locals.contains_key(k) == st.locals.contains_key(k),
        st.locals.contains_key(k) ==> resolve_exprs(st, es).1.locals[k] == st.locals[k],
    decreases es,
{
    if es.len() > 0 {
        lemma_exprs_ids_first(es);
        let rest = es.subrange(1, es.len() as int);
        lemma_names_id_concat(expr_ids(es[0]), exprs_ids(rest), k);
        lemma_expr_frame(st, es[0], k);
        lemma_exprs_frame(resolve_expr(st, es[0]).1, rest, k);
    }
}

/// Each use in an expression is of one of its expressions.
proof fn lemma_uses_in_ids(e: SpecExpr)
    ensures
        forall|k: int| 0 <= k < expr_uses(e).len() ==> expr_ids(e).contains(
            (#[trigger] expr_uses(e)[k]).0,
        ),
    decreases e,
{
    let ids = expr_ids(e);
    let uses = expr_uses(e);
    match e.kind {
        SpecExprKind::Variable { token, name } => {
            assert(ids[0] == e.id);
        },
        SpecExprKind::This(token) => {
            assert(ids[0] == e.id);
        },
        SpecExprKind::Assign { name, value } => {
            lemma_uses_in_ids(*value);
            assert forall|k: int| 0 <= k < uses.len() implies ids.contains(
                (#[trigger] uses[k]).0,
            ) by {
                if k < expr_uses(*value).len() {
                    let j = choose|j: int| 0 <= j < expr_ids(*value).len() && expr_ids(*value)[j]
                        == expr_uses(*value)[k].0;
                    assert(ids[j] == expr_ids(*value)[j]);
                } else {
                    assert(ids[ids.len() - 1] == e.id);
                }
            }
        },
        SpecExprKind::Binary { left, op, token, right } => {
            lemma_uses_in_ids_pair(e, *left, *right);
        },
        SpecExprKind::Logical { left, op, token, right } => {
            lemma_uses_in_ids_pair(e, *left, *right);
        },
        SpecExprKind::SetProperty { object, token, value } => {
            lemma_uses_in_ids_pair(e, *object, *value);
        },
        SpecExprKind::Call { callee, paren, arguments } => {
            lemma_uses_in_ids(*callee);
            lemma_exprs_uses_in_ids(arguments);
            let a = expr_ids(*callee);
            let b = exprs_ids(arguments);
            assert forall|k: int| 0 <= k < uses.len() implies ids.contains(
                (#[trigger] uses[k]).0,
            ) by {
                if k < expr_uses(*callee).len() {
                    assert(uses[k] == expr_uses(*callee)[k]);
                    let j = choose|j: int| 0 <= j < a.len() && a[j] == expr_uses(*callee)[k].0;
                    assert(ids[j] == a[j]);
                } else {
                    let k2 = k - expr_uses(*callee).len();
                    assert(uses[k] == exprs_uses(arguments)[k2]);
                    let j = choose|j: int| 0 <= j < b.len() && b[j] == exprs_uses(arguments)[k2].0;
                    assert(ids[a.len() + j] == b[j]);
                }
            }
        },
        SpecExprKind::Grouping(inner) => {
            lemma_uses_in_ids_single(e, *inner);
        },
        SpecExprKind::Unary { op, token, right } => {
            lemma_uses_in_ids_single(e, *right);
        },
        SpecExprKind::Get { object, token } => {
            lemma_uses_in_ids_single(e, *object);
        },
        SpecExprKind::Literal(_) => {},
    }
}

proof fn lemma_uses_in_ids_single(e: SpecExpr, inner: SpecExpr)
    requires
        expr_ids(e) == expr_ids(inner).push(e.id),
        expr_uses(e) == expr_uses(inner),
        inner == match e.kind {
            SpecExprKind::Grouping(i) => *i,
            SpecExprKind::Unary { op, token, right } => *right,
            SpecExprKind::Get { object, token } => *object,
            _ => inner,
        },
        e.kind is Grouping || e.kind is Unary || e.kind is Get,
    ensures
        forall|k: int| 0 <= k < expr_uses(e).len() ==> expr_ids(e).contains(
            (#[trigger] expr_uses(e)[k]).0,
        ),
    decreases e, 0nat,
{
    lemma_uses_in_ids(inner);
    assert forall|k: int| 0 <= k < expr_uses(e).len() implies expr_ids(e).contains(
        (#[trigger] expr_uses(e)[k]).0,
    ) by {
        let j = choose|j: int| 0 <= j < expr_ids(inner).len() && expr_ids(inner)[j] == expr_uses(
            inner,
        )[k].0;
        assert(expr_ids(e)[j] == expr_ids(inner)[j]);
    }
}

proof fn lemma_uses_in_ids_pair(e: SpecExpr, left: SpecExpr, right: SpecExpr)
    requires
        expr_ids(e) == (expr_ids(left) + expr_ids(right)).push(e.id),
        expr_uses(e) == expr_uses(left) + expr_uses(right),
        (e.kind matches SpecExprKind::Binary { left: l, op, token, right: r } && *l == left && *r
            == right) || (e.kind matches SpecExprKind::Logical { left: l, op, token, right: r } && *l
            == left && *r == right) || (e.kind matches SpecExprKind::SetProperty {
            object: l,
            token,
            value: r,
        } && *l == left && *r == right),
    ensures
        forall|k: int| 0 <= k < expr_uses(e).len() ==> expr_ids(e).contains(
            (#[trigger] expr_uses(e)[k]).0,
        ),
    decreases e, 0nat,
{
    lemma_uses_in_ids(left);
    lemma_uses_in_ids(right);
    let a = expr_ids(left);
    let b = expr_ids(right);
    let uses = expr_uses(e);
    assert forall|k: int| 0 <= k < uses.len() implies expr_ids(e).contains(
        (#[trigger] uses[k]).0,
    ) by {
        if k < expr_uses(left).len() {
            assert(uses[k] == expr_uses(left)[k]);
            let j = choose|j: int| 0 <= j < a.len() && a[j] == expr_uses(left)[k].0;
            assert(expr_ids(e)[j] == a[j]);
        } else {
            let k2 = k - expr_uses(left).len();
            assert(uses[k] == expr_uses(right)[k2]);
            let j = choose|j: int| 0 <= j < b.len() && b[j] == expr_uses(right)[k2].0;
            assert(expr_ids(e)[a.len() + j] == b[j]);
        }
    }
}

proof fn lemma_exprs_uses_in_ids(es: Seq<SpecExpr>)
    ensures
        forall|k: int| 0 <= k < exprs_uses(es).len() ==> exprs_ids(es).contains(
            (#[trigger] exprs_uses(es)[k]).0,
        ),
    decreases es,
{
    if es.len() > 0 {
        lemma_exprs_ids_first(es);
        let rest = es.subrange(1, es.len() as int);
        lemma_uses_in_ids(es[0]);
        lemma_exprs_uses_in_ids(rest);
        let a = expr_ids(es[0]);
        let b = exprs_ids(rest);
        let uses = exprs_uses(es);
        assert forall|k: int| 0 <= k < uses.len() implies exprs_ids(es).contains(
            (#[trigger] uses[k]).0,
        ) by {
            if k < expr_uses(es[0]).len() {
                assert(uses[k] == expr_uses(es[0])[k]);
                let j = choose|j: int| 0 <= j < a.len() && a[j] == expr_uses(es[0])[k].0;
                assert(exprs_ids(es)[j] == a[j]);
            } else {
                let k2 = k - expr_uses(es[0]).len();
                assert(uses[k] == exprs_uses(rest)[k2]);
                let j = choose|j: int| 0 <= j < b.len() && b[j] == exprs_uses(rest)[k2].0;
                assert(exprs_ids(es)[a.len() + j] == b[j]);
            }
        }
    }
}

/// Uses whose identifiers are among `ids_a` lie apart from the identifiers
/// `ids_b` when no two identifiers of `ids_a + ids_b` are the same word.
proof fn lemma_uses_apart(uses: Seq<(nat, Seq<char>)>, ids_a: Seq<nat>, ids_b: Seq<nat>)
    requires
        forall|k: int| 0 <= k < uses.len() ==> ids_a.contains((#[trigger] uses[k]).0),
        word_distinct(ids_a + ids_b),
    ensures
        word_distinct(ids_a),
        word_distinct(ids_b),
        forall|k: int| 0 <= k < uses.len() ==> !names_id(ids_b, (#[trigger] uses[k]).0 as usize),
{
    lemma_word_distinct_concat(ids_a, ids_b);
    assert forall|k: int| 0 <= k < uses.len() implies !names_id(
        ids_b,
        (#[trigger] uses[k]).0 as usize,
    ) by {
        let j = choose|j: int| 0 <= j < ids_a.len() && ids_a[j] == uses[k].0;
        assert(!names_id(ids_b, ids_a[j] as usize));
    }
}

/// Distances recorded for the uses `a` survive a later step that leaves the
/// identifiers outside `ids_b` alone, and join those it records for `b`.
proof fn lemma_resolved_then(
    scopes: Seq<Map<Seq<char>, bool>>,
    mid: Map<usize, usize>,
    after: Map<usize, usize>,
    a: Seq<(nat, Seq<char>)>,
    b: Seq<(nat, Seq<char>)>,
    ids_b: Seq<nat>,
)
    requires
        uses_resolved(scopes, mid, a),
        uses_resolved(scopes, after, b),
        forall|k: int| 0 <= k < a.len() ==> !names_id(ids_b, (#[trigger] a[k]).0 as usize),
        forall|x: usize|
            !names_id(ids_b, x) ==> {
                &&& (#[trigger] after.contains_key(x)) == mid.contains_key(x)
                &&& mid.contains_key(x) ==> after[x] == mid[x]
            },
    ensures
        uses_resolved(scopes, after, a + b),
{
    let ab = a + b;
    assert forall|k: int|
        0 <= k < ab.len() && declared_in_scopes(scopes, (#[trigger] ab[k]).1) implies {
        &&& after.contains_key(ab[k].0 as usize)
        &&& declared_at_distance(scopes, ab[k].1, after[ab[k].0 as usize] as int)
    } by {
        if k < a.len() {
            assert(ab[k] == a[k]);
            assert(!names_id(ids_b, a[k].0 as usize));
            assert(after.contains_key(a[k].0 as usize) == mid.contains_key(a[k].0 as usize));
        } else {
            assert(ab[k] == b[k - a.len()]);
        }
    }
}

/// One use of `name` by expression `id`, resolved in `st`, gets its distance.
proof fn lemma_local_resolved(st: ResolveState, id: nat, name: Seq<char>)
    requires
        st.scopes.len() <= usize::MAX,
    ensures
        uses_resolved(st.scopes, resolve_local(st, id, name).locals, seq![(id, name)]),
{
    lemma_innermost_found(st.scopes, name);
    let uses = seq![(id, name)];
    assert(uses[0] == (id, name));
}

/// After an expression resolves without error, every use of a variable in
/// it, at any depth (inside the object of a property read, the arguments of
/// a call, either side of an operator), whose name an open scope declares
/// has its distance recorded: the number of scopes out to the innermost
/// scope that declares the name.
pub proof fn law_expression_resolves_its_uses(st: ResolveState, e: SpecExpr)
    requires
        word_distinct(expr_ids(e)),
        st.scopes.len() <= usize::MAX,
    ensures
        resolve_expr(st, e).0 is Ok ==> uses_resolved(
            st.scopes,
            resolve_expr(st, e).1.locals,
            expr_uses(e),
        ),
    decreases e,
{
    match e.kind {
        SpecExprKind::Variable { token, name } => {
            lemma_local_resolved(st, e.id, name);
        },
        SpecExprKind::This(token) => {
            lemma_local_resolved(st, e.id, token.lexeme);
        },
        SpecExprKind::Assign { name, value } => {
            lemma_word_distinct_push(expr_ids(*value), e.id);
            law_expression_resolves_its_uses(st, *value);
            law_expression_keeps_context(st, *value);
            lemma_uses_in_ids(*value);
            let r = resolve_expr(st, *value);
            lemma_local_resolved(r.1, e.id, name);
            let after = resolve_local(r.1, e.id, name).locals;
            let uv = expr_uses(*value);
            assert forall|k: int| 0 <= k < uv.len() implies uv[k].0 as usize != e.id as usize by {
                let j = choose|j: int|
                    0 <= j < expr_ids(*value).len() && expr_ids(*value)[j] == (#[trigger] uv[k]).0;
                assert(expr_ids(*value)[j] as usize != e.id as usize);
            }
            assert forall|x: usize| !names_id(seq![e.id], x) implies {
                &&& (#[trigger] after.contains_key(x)) == r.1.locals.contains_key(x)
                &&& r.1.locals.contains_key(x) ==> after[x] == r.1.locals[x]
            } by {
                assert(seq![e.id][0] == e.id);
            }
            assert forall|k: int| 0 <= k < uv.len() implies !names_id(
                seq![e.id],
                (#[trigger] uv[k]).0 as usize,
            ) by {
                assert(uv[k].0 as usize != e.id as usize);
            }
            if r.0 is Ok {
                lemma_resolved_then(
                    st.scopes,
                    r.1.locals,
                    after,
                    uv,
                    seq![(e.id, name)],
                    seq![e.id],
                );
                assert(uv + seq![(e.id, name)] =~= uv.push((e.id, name)));
            }
        },
        SpecExprKind::Binary { left, op, token, right } => {
            lemma_resolves_pair(st, e, *left, *right);
        },
        SpecExprKind::Logical { left, op, token, right } => {
            lemma_resolves_pair(st, e, *left, *right);
        },
        SpecExprKind::SetProperty { object, token, value } => {
            lemma_resolves_pair(st, e, *object, *value);
        },
        SpecExprKind::Call { callee, paren, arguments } => {
            let ids_a = expr_ids(*callee);
            let ids_b = exprs_ids(arguments);
            lemma_word_distinct_push(ids_a + ids_b, e.id);
            lemma_uses_in_ids(*callee);
            lemma_uses_apart(expr_uses(*callee), ids_a, ids_b);
            law_expression_resolves_its_uses(st, *callee);
            law_expression_keeps_context(st, *callee);
            let r = resolve_expr(st, *callee);
            lemma_exprs_resolve_their_uses(r.1, arguments);
            let after = resolve_exprs(r.1, arguments).1.locals;
            assert forall|x: usize| !names_id(ids_b, x) implies {
                &&& (#[trigger] after.contains_key(x)) == r.1.locals.contains_key(x)
                &&& r.1.locals.contains_key(x) ==> after[x] == r.1.locals[x]
            } by {
                lemma_exprs_frame(r.1, arguments, x);
            }
            if r.0 is Ok && resolve_exprs(r.1, arguments).0 is Ok {
                lemma_resolved_then(
                    st.scopes,
                    r.1.locals,
                    after,
                    expr_uses(*callee),
                    exprs_uses(arguments),
                    ids_b,
                );
            }
        },
        SpecExprKind::Grouping(inner) => {
            lemma_word_distinct_push(expr_ids(*inner), e.id);
            law_expression_resolves_its_uses(st, *inner);
        },
        SpecExprKind::Unary { op, token, right } => {
            lemma_word_distinct_push(expr_ids(*right), e.id);
            law_expression_resolves_its_uses(st, *right);
        },
        SpecExprKind::Get { object, token } => {
            lemma_word_distinct_push(expr_ids(*object), e.id);
            law_expression_resolves_its_uses(st, *object);
        },
        SpecExprKind::Literal(_) => {},
    }
}

/// The two operands of a binary form, resolved one after the other.
proof fn lemma_resolves_pair(st: ResolveState, e: SpecExpr, left: SpecExpr, right: SpecExpr)
    requires
        word_distinct(expr_ids(e)),
        st.scopes.len() <= usize::MAX,
        expr_ids(e) == (expr_ids(left) + expr_ids(right)).push(e.id),
        expr_uses(e) == expr_uses(left) + expr_uses(right),
        (e.kind matches SpecExprKind::Binary { left: l, op, token, right: r } && *l == left && *r
            == right) || (e.kind matches SpecExprKind::Logical { left: l, op, token, right: r } && *l
            == left && *r == right) || (e.kind matches SpecExprKind::SetProperty {
            object: l,
            token,
            value: r,
        } && *l == left && *r == right),
    ensures
        resolve_expr(st, e).0 is Ok ==> uses_resolved(
            st.scopes,
            resolve_expr(st, e).1.locals,
            expr_uses(e),
        ),
    decreases e, 0nat,
{
    let ids_a = expr_ids(left);
    let ids_b = expr_ids(right);
    lemma_word_distinct_push(ids_a + ids_b, e.id);
    lemma_uses_in_ids(left);
    lemma_uses_apart(expr_uses(left), ids_a, ids_b);
    law_expression_resolves_its_uses(st, left);
    law_expression_keeps_context(st, left);
    let r = resolve_expr(st, left);
    law_expression_resolves_its_uses(r.1, right);
    let after = resolve_expr(r.1, right).1.locals;
    assert forall|x: usize| !names_id(ids_b, x) implies {
        &&& (#[trigger] after.contains_key(x)) == r.1.locals.contains_key(x)
        &&& r.1.locals.contains_key(x) ==> after[x] == r.1.locals[x]
    } by {
        lemma_expr_frame(r.1, right, x);
    }
    if r.0 is Ok && resolve_expr(r.1, right).0 is Ok {
        lemma_resolved_then(st.scopes, r.1.locals, after, expr_uses(left), expr_uses(right), ids_b);
    }
}

/// A list of expressions resolved in order: every use in them gets its
/// distance when none fails.
proof fn lemma_exprs_resolve_their_uses(st: ResolveState, es: Seq<SpecExpr>)
    requires
        word_distinct(exprs_ids(es)),
        st.scopes.len() <= usize::MAX,
    ensures
        resolve_exprs(st, es).0 is Ok ==> uses_resolved(
            st.scopes,
            resolve_exprs(st, es).1.locals,
            exprs_uses(es),
        ),
    decreases es,
{
    if es.len() > 0 {
        lemma_exprs_ids_first(es);
        let rest = es.subrange(1, es.len() as int);
        let ids_a = expr_ids(es[0]);
        let ids_b = exprs_ids(rest);
        lemma_uses_in_ids(es[0]);
        lemma_uses_apart(expr_uses(es[0]), ids_a, ids_b);
        law_expression_resolves_its_uses(st, es[0]);
        law_expression_keeps_context(st, es[0]);
        let r = resolve_expr(st, es[0]);
        lemma_exprs_resolve_their_uses(r.1, rest);
        let after = resolve_exprs(r.1, rest).1.locals;
        assert forall|x: usize| !names_id(ids_b, x) implies {
            &&& (#[trigger] after.contains_key(x)) == r.1.locals.contains_key(x)
            &&& r.1.locals.contains_key(x) ==> after[x] == r.1.locals[x]
        } by {
            lemma_exprs_frame(r.1, rest, x);
        }
        if r.0 is Ok && resolve_exprs(r.1, rest).0 is Ok {
            lemma_resolved_then(st.scopes, r.1.locals, after, expr_uses(es[0]), exprs_uses(rest), ids_b);
        }
    }
}

// ---------------------------------------------------------------------------
// Every use in a program gets its distance
// ---------------------------------------------------------------------------

/// A use of a variable (expression identifier and name) together with the
/// scopes that are open where it stands.
pub type ScopedUse = (nat, Seq<char>, Seq<Map<Seq<char>, bool>>);

/// Uses that all stand where `scopes` are open.
pub open spec fn at_scopes(uses: Seq<(nat, Seq<char>)>, scopes: Seq<Map<Seq<char>, bool>>) -> Seq<
    ScopedUse,
> {
    uses.map_values(|u: (nat, Seq<char>)| (u.0, u.1, scopes))
}

/// The uses in an optional expression.
pub open spec fn option_uses(e: Option<SpecExpr>) -> Seq<(nat, Seq<char>)> {
    match e {
        Some(x) => expr_uses(x),
        None => seq![],
    }
}

/// `scopes` with `name` entered in the innermost one, if there is one.
pub open spec fn with_name(scopes: Seq<Map<Seq<char>, bool>>, name: Seq<char>, ready: bool) -> Seq<
    Map<Seq<char>, bool>,
> {
    if scopes.len() == 0 {
        scopes
    } else {
        scopes.update(scopes.len() - 1, scopes.last().insert(name, ready))
    }
}

/// The scopes open after statement `s`: those before it, with the names it
/// declares entered in the innermost one.
pub open spec fn scopes_after(scopes: Seq<Map<Seq<char>, bool>>, s: SpecStmt) -> Seq<
    Map<Seq<char>, bool>,
> {
    if scopes.len() == 0 {
        scopes
    } else {
        scopes.update(scopes.len() - 1, with_defined(scopes.last(), declared_names(s)))
    }
}

/// The names in a parameter list.
pub open spec fn names_of(params: Seq<Seq<char>>) -> Set<Seq<char>>
    decreases params.len(),
{
    if params.len() == 0 {
        Set::empty()
    } else {
        set![params[0]] + names_of(params.subrange(1, params.len() as int))
    }
}

/// Every use of a variable in a statement, at any depth, with the scopes
/// open where it stands: a block opens a scope; a function a scope of its
/// parameters; a class a scope that holds `this`; a declaration enters its
/// name in the innermost scope, a variable's before its initializer (not yet
/// defined), a function's and a class's before their bodies.
pub open spec fn stmt_scoped_uses(scopes: Seq<Map<Seq<char>, bool>>, s: SpecStmt) -> Seq<ScopedUse>
    decreases s,
{
    match s {
        SpecStmt::Expression(e) => at_scopes(expr_uses(e), scopes),
        SpecStmt::Print(e) => at_scopes(expr_uses(e), scopes),
        SpecStmt::Return { token, value } => at_scopes(option_uses(value), scopes),
        SpecStmt::Var { token, name, initializer } => at_scopes(
            option_uses(initializer),
            with_name(scopes, name, false),
        ),
        SpecStmt::While { condition, body } => at_scopes(expr_uses(condition), scopes)
            + stmt_scoped_uses(scopes, *body),
        SpecStmt::If { condition, then_branch, else_branch } => at_scopes(
            expr_uses(condition),
            scopes,
        ) + stmt_scoped_uses(scopes, *then_branch) + match else_branch {
            Some(b) => stmt_scoped_uses(scopes_after(scopes, *then_branch), *b),
            None => seq![],
        },
        SpecStmt::Block(stmts) => stmts_scoped_uses(scopes.push(Map::empty()), stmts),
        SpecStmt::Function(f) => function_scoped_uses(with_name(scopes, f.name, true), f),
        SpecStmt::Class { token, name, methods } => methods_scoped_uses(
            with_name(scopes, name, true).push(Map::empty().insert("this"@, true)),
            methods,
        ),
    }
}

/// The uses in statements that follow one another.
pub open spec fn stmts_scoped_uses(scopes: Seq<Map<Seq<char>, bool>>, ss: Seq<SpecStmt>) -> Seq<
    ScopedUse,
>
    decreases ss,
{
    if ss.len() == 0 {
        seq![]
    } else {
        stmt_scoped_uses(scopes, ss[0]) + stmts_scoped_uses(
            scopes_after(scopes, ss[0]),
            ss.subrange(1, ss.len() as int),
        )
    }
}

/// The uses in a function's body, in a scope of its own parameters.
pub open spec fn function_scoped_uses(scopes: Seq<Map<Seq<char>, bool>>, f: SpecFunction) -> Seq<
    ScopedUse,
>
    decreases f,
{
    stmts_scoped_uses(scopes.push(with_defined(Map::empty(), names_of(f.params))), f.body)
}

/// The uses in the methods of a class.
pub open spec fn methods_scoped_uses(
    scopes: Seq<Map<Seq<char>, bool>>,
    methods: Seq<SpecFunction>,
) -> Seq<ScopedUse>
    decreases methods,
{
    if methods.len() == 0 {
        seq![]
    } else {
        function_scoped_uses(scopes, methods[0]) + methods_scoped_uses(
            scopes,
            methods.subrange(1, methods.len() as int),
        )
    }
}

/// Every use among `uses` whose name a scope open where it stands declares
/// has a distance recorded in `locals`: the number of scopes out to the
/// innermost one that declares it (for uses with no more scopes open than
/// a machine word counts).
pub open spec fn scoped_uses_resolved(locals: Map<usize, usize>, uses: Seq<ScopedUse>) -> bool {
    forall|k: int|
        0 <= k < uses.len() && (#[trigger] uses[k]).2.len() <= usize::MAX && declared_in_scopes(
            uses[k].2,
            uses[k].1,
        ) ==> {
            &&& locals.contains_key(uses[k].0 as usize)
            &&& declared_at_distance(uses[k].2, uses[k].1, locals[uses[k].0 as usize] as int)
        }
}

/// `after` agrees with `before` on every identifier outside `ids`.
spec fn unchanged_outside(before: Map<usize, usize>, after: Map<usize, usize>, ids: Seq<nat>) -> bool {
    forall|x: usize|
        !names_id(ids, x) ==> {
            &&& (#[trigger] after.contains_key(x)) == before.contains_key(x)
            &&& before.contains_key(x) ==> after[x] == before[x]
        }
}

/// Every use among `uses` is of an expression among `ids`.
spec fn uses_within(uses: Seq<ScopedUse>, ids: Seq<nat>) -> bool {
    forall|k: int| 0 <= k < uses.len() ==> ids.contains((#[trigger] uses[k]).0)
}

proof fn lemma_at_scopes_resolved(
    scopes: Seq<Map<Seq<char>, bool>>,
    locals: Map<usize, usize>,
    uses: Seq<(nat, Seq<char>)>,
)
    requires
        scopes.len() <= usize::MAX ==> uses_resolved(scopes, locals, uses),
    ensures
        scoped_uses_resolved(locals, at_scopes(uses, scopes)),
{
    let t = at_scopes(uses, scopes);
    assert forall|k: int|
        0 <= k < t.len() && (#[trigger] t[k]).2.len() <= usize::MAX && declared_in_scopes(
            t[k].2,
            t[k].1,
        ) implies {
        &&& locals.contains_key(t[k].0 as usize)
        &&& declared_at_distance(t[k].2, t[k].1, locals[t[k].0 as usize] as int)
    } by {
        assert(t[k] == (uses[k].0, uses[k].1, scopes));
    }
}

proof fn lemma_at_scopes_within(scopes: Seq<Map<Seq<char>, bool>>, e: SpecExpr)
    ensures
        uses_within(at_scopes(expr_uses(e), scopes), expr_ids(e)),
{
    lemma_uses_in_ids(e);
    let t = at_scopes(expr_uses(e), scopes);
    assert forall|k: int| 0 <= k < t.len() implies expr_ids(e).contains((#[trigger] t[k]).0) by {
        assert(t[k].0 == expr_uses(e)[k].0);
    }
}

proof fn lemma_within_concat(a: Seq<ScopedUse>, b: Seq<ScopedUse>, x: Seq<nat>, y: Seq<nat>)
    requires
        uses_within(a, x),
        uses_within(b, y),
    ensures
        uses_within(a + b, x + y),
{
    let ab = a + b;
    assert forall|k: int| 0 <= k < ab.len() implies (x + y).contains((#[trigger] ab[k]).0) by {
        if k < a.len() {
            assert(ab[k] == a[k]);
            let j = choose|j: int| 0 <= j < x.len() && x[j] == a[k].0;
            assert((x + y)[j] == x[j]);
        } else {
            assert(ab[k] == b[k - a.len()]);
            let j = choose|j: int| 0 <= j < y.len() && y[j] == b[k - a.len()].0;
            assert((x + y)[x.len() + j] == y[j]);
        }
    }
}

proof fn lemma_within_empty(x: Seq<nat>)
    ensures
        uses_within(seq![], x),
{
}

proof fn lemma_unchanged_expr(st: ResolveState, e: SpecExpr)
    ensures
        unchanged_outside(st.locals, resolve_expr(st, e).1.locals, expr_ids(e)),
{
    assert forall|x: usize| !names_id(expr_ids(e), x) implies {
        &&& (#[trigger] resolve_expr(st, e).1.locals.contains_key(x)) == st.locals.contains_key(x)
        &&& st.locals.contains_key(x) ==> resolve_expr(st, e).1.locals[x] == st.locals[x]
    } by {
        lemma_expr_frame(st, e, x);
    }
}

proof fn lemma_unchanged_same(m: Map<usize, usize>, ids: Seq<nat>)
    ensures
        unchanged_outside(m, m, ids),
{
}

proof fn lemma_unchanged_chain(
    a: Map<usize, usize>,
    b: Map<usize, usize>,
    c: Map<usize, usize>,
    x: Seq<nat>,
    y: Seq<nat>,
)
    requires
        unchanged_outside(a, b, x),
        unchanged_outside(b, c, y),
    ensures
        unchanged_outside(a, c, x + y),
{
    assert forall|k: usize| !names_id(x + y, k) implies {
        &&& (#[trigger] c.contains_key(k)) == a.contains_key(k)
        &&& a.contains_key(k) ==> c[k] == a[k]
    } by {
        lemma_names_id_concat(x, y, k);
        assert(!names_id(x, k));
        assert(!names_id(y, k));
        assert(b.contains_key(k) == a.contains_key(k));
        assert(c.contains_key(k) == b.contains_key(k));
        if a.contains_key(k) {
            assert(b[k] == a[k]);
            assert(c[k] == b[k]);
        }
    }
}

proof fn lemma_unchanged_more(a: Map<usize, usize>, b: Map<usize, usize>, x: Seq<nat>, y: Seq<nat>)
    requires
        unchanged_outside(a, b, x),
    ensures
        unchanged_outside(a, b, x + y),
        unchanged_outside(a, b, y + x),
{
    assert forall|k: usize| !names_id(x + y, k) implies {
        &&& (#[trigger] b.contains_key(k)) == a.contains_key(k)
        &&& a.contains_key(k) ==> b[k] == a[k]
    } by {
        lemma_names_id_concat(x, y, k);
        assert(!names_id(x, k));
        assert(b.contains_key(k) == a.contains_key(k));
        if a.contains_key(k) {
            assert(b[k] == a[k]);
        }
    }
    assert forall|k: usize| !names_id(y + x, k) implies {
        &&& (#[trigger] b.contains_key(k)) == a.contains_key(k)
        &&& a.contains_key(k) ==> b[k] == a[k]
    } by {
        lemma_names_id_concat(y, x, k);
        assert(!names_id(x, k));
        assert(b.contains_key(k) == a.contains_key(k));
        if a.contains_key(k) {
            assert(b[k] == a[k]);
        }
    }
}

/// Uses resolved before a step that leaves their expressions alone stay
/// resolved, beside those the step resolves.
proof fn lemma_scoped_then(
    mid: Map<usize, usize>,
    after: Map<usize, usize>,
    a: Seq<ScopedUse>,
    b: Seq<ScopedUse>,
    ids_a: Seq<nat>,
    ids_b: Seq<nat>,
)
    requires
        scoped_uses_resolved(mid, a),
        scoped_uses_resolved(after, b),
        uses_within(a, ids_a),
        word_distinct(ids_a + ids_b),
        unchanged_outside(mid, after, ids_b),
    ensures
        scoped_uses_resolved(after, a + b),
{
    lemma_word_distinct_concat(ids_a, ids_b);
    let ab = a + b;
    assert forall|k: int|
        0 <= k < ab.len() && (#[trigger] ab[k]).2.len() <= usize::MAX && declared_in_scopes(
            ab[k].2,
            ab[k].1,
        ) implies {
        &&& after.contains_key(ab[k].0 as usize)
        &&& declared_at_distance(ab[k].2, ab[k].1, after[ab[k].0 as usize] as int)
    } by {
        if k < a.len() {
            assert(ab[k] == a[k]);
            let j = choose|j: int| 0 <= j < ids_a.len() && ids_a[j] == a[k].0;
            assert(!names_id(ids_b, ids_a[j] as usize));
            assert(after.contains_key(a[k].0 as usize) == mid.contains_key(a[k].0 as usize));
        } else {
            assert(ab[k] == b[k - a.len()]);
        }
    }
}

/// A statement resolved without error leaves the scopes as `scopes_after`
/// says.
proof fn lemma_stmt_scopes(st: ResolveState, s: SpecStmt)
    ensures
        resolve_stmt(st, s).0 is Ok ==> resolve_stmt(st, s).1.scopes == scopes_after(st.scopes, s),
{
    law_statement_keeps_context(st, s);
    law_statement_defines_its_names(st, s);
    let r = resolve_stmt(st, s);
    if r.0 is Ok {
        assert(r.1.scopes =~= scopes_after(st.scopes, s));
    }
}

/// Parameters resolved without error are entered, defined, in the
/// innermost scope; nothing else changes.
proof fn lemma_params_scopes(st: ResolveState, params: Seq<Seq<char>>, token: SpecToken)
    requires
        st.scopes.len() > 0,
    ensures
        resolve_params(st, params, token).0 is Ok ==> resolve_params(st, params, token).1.scopes
            == st.scopes.update(
            st.scopes.len() - 1,
            with_defined(st.scopes.last(), names_of(params)),
        ),
    decreases params.len(),
{
    if params.len() == 0 {
        lemma_with_defined_none(st.scopes.last());
        assert(st.scopes.update(st.scopes.len() - 1, st.scopes.last()) =~= st.scopes);
    } else {
        let r = declare(st, params[0], token);
        if r.0 is Ok {
            let st2 = define(r.1, params[0]);
            let rest = params.subrange(1, params.len() as int);
            lemma_params_scopes(st2, rest, token);
            let m = st.scopes.last();
            assert(st2.scopes.last() == m.insert(params[0], false).insert(params[0], true));
            assert(with_defined(m.insert(params[0], false).insert(params[0], true), names_of(rest))
                =~= with_defined(m, names_of(params)));
            assert(st2.scopes.update(
                st2.scopes.len() - 1,
                with_defined(st2.scopes.last(), names_of(rest)),
            ) =~= st.scopes.update(st.scopes.len() - 1, with_defined(m, names_of(params))));
        }
    }
}

proof fn lemma_unchanged_stmt(st: ResolveState, s: SpecStmt)
    ensures
        unchanged_outside(st.locals, resolve_stmt(st, s).1.locals, stmt_ids(s)),
    decreases s,
{
    let after = resolve_stmt(st, s).1;
    match s {
        SpecStmt::Block(stmts) => {
            lemma_unchanged_stmts(begin_scope(st), stmts);
        },
        SpecStmt::Class { token, name, methods } => {
            let st1 = ResolveState { class: ClassType::Class, ..st };
            let r = declare(st1, name, token);
            if r.0 is Ok {
                let st2 = set_in_innermost(begin_scope(define(r.1, name)), "this"@, true);
                lemma_unchanged_methods(st2, methods);
            } else {
                lemma_unchanged_same(st.locals, stmt_ids(s));
            }
        },
        SpecStmt::Expression(e) => {
            lemma_unchanged_expr(st, e);
        },
        SpecStmt::Print(e) => {
            lemma_unchanged_expr(st, e);
        },
        SpecStmt::If { condition, then_branch, else_branch } => {
            let else_ids = match else_branch {
                Some(b) => stmt_ids(*b),
                None => seq![],
            };
            let c_ids = expr_ids(condition);
            let t_ids = stmt_ids(*then_branch);
            lemma_unchanged_expr(st, condition);
            let r = resolve_expr(st, condition);
            if r.0 is Ok {
                lemma_unchanged_stmt(r.1, *then_branch);
                let r2 = resolve_stmt(r.1, *then_branch);
                lemma_unchanged_chain(st.locals, r.1.locals, r2.1.locals, c_ids, t_ids);
                if r2.0 is Ok && else_branch is Some {
                    let b = else_branch.unwrap();
                    lemma_unchanged_stmt(r2.1, *b);
                    lemma_unchanged_chain(
                        st.locals,
                        r2.1.locals,
                        after.locals,
                        c_ids + t_ids,
                        else_ids,
                    );
                } else {
                    lemma_unchanged_more(st.locals, r2.1.locals, c_ids + t_ids, else_ids);
                }
            } else {
                lemma_unchanged_more(st.locals, r.1.locals, c_ids, t_ids);
                lemma_unchanged_more(st.locals, r.1.locals, c_ids + t_ids, else_ids);
            }
        },
        SpecStmt::Return { token, value } => {
            if let Some(v) = value {
                lemma_unchanged_expr(st, v);
            }
        },
        SpecStmt::While { condition, body } => {
            lemma_unchanged_expr(st, condition);
            let r = resolve_expr(st, condition);
            if r.0 is Ok {
                lemma_unchanged_stmt(r.1, *body);
                lemma_unchanged_chain(
                    st.locals,
                    r.1.locals,
                    after.locals,
                    expr_ids(condition),
                    stmt_ids(*body),
                );
            } else {
                lemma_unchanged_more(st.locals, r.1.locals, expr_ids(condition), stmt_ids(*body));
            }
        },
        SpecStmt::Var { token, name, initializer } => {
            let r = declare(st, name, token);
            if let Some(e) = initializer {
                lemma_unchanged_expr(r.1, e);
            }
        },
        SpecStmt::Function(f) => {
            let r = declare(st, f.name, f.token);
            if r.0 is Ok {
                lemma_unchanged_function(define(r.1, f.name), f, FunctionType::Function);
            }
        },
    }
}

proof fn lemma_unchanged_stmts(st: ResolveState, ss: Seq<SpecStmt>)
    ensures
        unchanged_outside(st.locals, resolve_stmts(st, ss).1.locals, stmts_ids(ss)),
    decreases ss,
{
    if ss.len() == 0 {
        lemma_unchanged_same(st.locals, stmts_ids(ss));
    } else {
        lemma_stmts_ids_first(ss);
        let rest = ss.subrange(1, ss.len() as int);
        lemma_unchanged_stmt(st, ss[0]);
        let r = resolve_stmt(st, ss[0]);
        if r.0 is Ok {
            lemma_unchanged_stmts(r.1, rest);
            lemma_unchanged_chain(
                st.locals,
                r.1.locals,
                resolve_stmts(r.1, rest).1.locals,
                stmt_ids(ss[0]),
                stmts_ids(rest),
            );
        } else {
            lemma_unchanged_more(st.locals, r.1.locals, stmt_ids(ss[0]), stmts_ids(rest));
        }
    }
}

proof fn lemma_unchanged_function(st: ResolveState, f: SpecFunction, kind: FunctionType)
    ensures
        unchanged_outside(st.locals, resolve_function(st, f, kind).1.locals, function_ids(f)),
    decreases f,
{
    let st1 = begin_scope(ResolveState { function: kind, ..st });
    lemma_params_record_nothing(st1, f.params, f.token);
    let r = resolve_params(st1, f.params, f.token);
    if r.0 is Ok {
        lemma_unchanged_stmts(r.1, f.body);
    } else {
        lemma_unchanged_same(st.locals, function_ids(f));
    }
}

proof fn lemma_unchanged_methods(st: ResolveState, methods: Seq<SpecFunction>)
    ensures
        unchanged_outside(st.locals, resolve_methods(st, methods).1.locals, functions_ids(methods)),
    decreases methods,
{
    if methods.len() == 0 {
        lemma_unchanged_same(st.locals, functions_ids(methods));
    } else {
        lemma_functions_ids_first(methods);
        let rest = methods.subrange(1, methods.len() as int);
        let m = methods[0];
        let kind = if m.name == "init"@ {
            FunctionType::Initializer
        } else {
            FunctionType::Method
        };
        lemma_unchanged_function(st, m, kind);
        let r = resolve_function(st, m, kind);
        if r.0 is Ok {
            lemma_unchanged_methods(r.1, rest);
            lemma_unchanged_chain(
                st.locals,
                r.1.locals,
                resolve_methods(r.1, rest).1.locals,
                function_ids(m),
                functions_ids(rest),
            );
        } else {
            lemma_unchanged_more(st.locals, r.1.locals, function_ids(m), functions_ids(rest));
        }
    }
}

proof fn lemma_stmt_within(scopes: Seq<Map<Seq<char>, bool>>, s: SpecStmt)
    ensures
        uses_within(stmt_scoped_uses(scopes, s), stmt_ids(s)),
    decreases s,
{
    match s {
        SpecStmt::Expression(e) => {
            lemma_at_scopes_within(scopes, e);
        },
        SpecStmt::Print(e) => {
            lemma_at_scopes_within(scopes, e);
        },
        SpecStmt::Return { token, value } => {
            if let Some(v) = value {
                lemma_at_scopes_within(scopes, v);
            }
        },
        SpecStmt::Var { token, name, initializer } => {
            if let Some(e) = initializer {
                lemma_at_scopes_within(with_name(scopes, name, false), e);
            }
        },
        SpecStmt::While { condition, body } => {
            lemma_at_scopes_within(scopes, condition);
            lemma_stmt_within(scopes, *body);
            lemma_within_concat(
                at_scopes(expr_uses(condition), scopes),
                stmt_scoped_uses(scopes, *body),
                expr_ids(condition),
                stmt_ids(*body),
            );
        },
        SpecStmt::If { condition, then_branch, else_branch } => {
            lemma_at_scopes_within(scopes, condition);
            lemma_stmt_within(scopes, *then_branch);
            lemma_within_concat(
                at_scopes(expr_uses(condition), scopes),
                stmt_scoped_uses(scopes, *then_branch),
                expr_ids(condition),
                stmt_ids(*then_branch),
            );
            let first = at_scopes(expr_uses(condition), scopes) + stmt_scoped_uses(
                scopes,
                *then_branch,
            );
            let first_ids = expr_ids(condition) + stmt_ids(*then_branch);
            match else_branch {
                Some(b) => {
                    lemma_stmt_within(scopes_after(scopes, *then_branch), *b);
                    lemma_within_concat(
                        first,
                        stmt_scoped_uses(scopes_after(scopes, *then_branch), *b),
                        first_ids,
                        stmt_ids(*b),
                    );
                },
                None => {
                    lemma_within_empty(seq![]);
                    lemma_within_concat(first, seq![], first_ids, seq![]);
                },
            }
        },
        SpecStmt::Block(stmts) => {
            lemma_stmts_within(scopes.push(Map::empty()), stmts);
        },
        SpecStmt::Function(f) => {
            lemma_function_within(with_name(scopes, f.name, true), f);
        },
        SpecStmt::Class { token, name, methods } => {
            lemma_methods_within(
                with_name(scopes, name, true).push(Map::empty().insert("this"@, true)),
                methods,
            );
        },
    }
}

proof fn lemma_stmts_within(scopes: Seq<Map<Seq<char>, bool>>, ss: Seq<SpecStmt>)
    ensures
        uses_within(stmts_scoped_uses(scopes, ss), stmts_ids(ss)),
    decreases ss,
{
    if ss.len() > 0 {
        lemma_stmts_ids_first(ss);
        let rest = ss.subrange(1, ss.len() as int);
        lemma_stmt_within(scopes, ss[0]);
        lemma_stmts_within(scopes_after(scopes, ss[0]), rest);
        lemma_within_concat(
            stmt_scoped_uses(scopes, ss[0]),
            stmts_scoped_uses(scopes_after(scopes, ss[0]), rest),
            stmt_ids(ss[0]),
            stmts_ids(rest),
        );
    }
}

proof fn lemma_function_within(scopes: Seq<Map<Seq<char>, bool>>, f: SpecFunction)
    ensures
        uses_within(function_scoped_uses(scopes, f), function_ids(f)),
    decreases f,
{
    lemma_stmts_within(scopes.push(with_defined(Map::empty(), names_of(f.params))), f.body);
}

proof fn lemma_methods_within(scopes: Seq<Map<Seq<char>, bool>>, methods: Seq<SpecFunction>)
    ensures
        uses_within(methods_scoped_uses(scopes, methods), functions_ids(methods)),
    decreases methods,
{
    if methods.len() > 0 {
        lemma_functions_ids_first(methods);
        let rest = methods.subrange(1, methods.len() as int);
        lemma_function_within(scopes, methods[0]);
        lemma_methods_within(scopes, rest);
        lemma_within_concat(
            function_scoped_uses(scopes, methods[0]),
            methods_scoped_uses(scopes, rest),
            function_ids(methods[0]),
            functions_ids(rest),
        );
    }
}

/// An expression resolved without error resolves each of its uses against
/// the scopes open where it stands.
proof fn lemma_expr_scoped(st: ResolveState, e: SpecExpr)
    requires
        word_distinct(expr_ids(e)),
    ensures
        resolve_expr(st, e).0 is Ok ==> scoped_uses_resolved(
            resolve_expr(st, e).1.locals,
            at_scopes(expr_uses(e), st.scopes),
        ),
{
    if st.scopes.len() <= usize::MAX {
        law_expression_resolves_its_uses(st, e);
    }
    if resolve_expr(st, e).0 is Ok {
        lemma_at_scopes_resolved(st.scopes, resolve_expr(st, e).1.locals, expr_uses(e));
    }
}

/// After a statement resolves without error, every use of a variable in it,
/// at any depth (in nested blocks, in the bodies of functions and methods,
/// in the objects of property reads and the arguments of calls), whose name
/// a scope open where the use stands declares has its distance recorded:
/// the number of scopes out to the innermost scope that declares the name.
pub proof fn law_statement_resolves_its_uses(st: ResolveState, s: SpecStmt)
    requires
        word_distinct(stmt_ids(s)),
    ensures
        resolve_stmt(st, s).0 is Ok ==> scoped_uses_resolved(
            resolve_stmt(st, s).1.locals,
            stmt_scoped_uses(st.scopes, s),
        ),
    decreases s,
{
    let res = resolve_stmt(st, s);
    match s {
        SpecStmt::Expression(e) => {
            lemma_expr_scoped(st, e);
        },
        SpecStmt::Print(e) => {
            lemma_expr_scoped(st, e);
        },
        SpecStmt::Return { token, value } => {
            if let Some(v) = value {
                lemma_expr_scoped(st, v);
            }
        },
        SpecStmt::Var { token, name, initializer } => {
            let r = declare(st, name, token);
            if r.0 is Ok {
                assert(r.1.scopes == with_name(st.scopes, name, false));
                if let Some(e) = initializer {
                    lemma_expr_scoped(r.1, e);
                }
            }
        },
        SpecStmt::While { condition, body } => {
            lemma_word_distinct_concat(expr_ids(condition), stmt_ids(*body));
            lemma_expr_scoped(st, condition);
            law_expression_keeps_context(st, condition);
            let r = resolve_expr(st, condition);
            law_statement_resolves_its_uses(r.1, *body);
            lemma_at_scopes_within(st.scopes, condition);
            lemma_unchanged_stmt(r.1, *body);
            if res.0 is Ok {
                lemma_scoped_then(
                    r.1.locals,
                    res.1.locals,
                    at_scopes(expr_uses(condition), st.scopes),
                    stmt_scoped_uses(st.scopes, *body),
                    expr_ids(condition),
                    stmt_ids(*body),
                );
            }
        },
        SpecStmt::If { condition, then_branch, else_branch } => {
            let c_ids = expr_ids(condition);
            let t_ids = stmt_ids(*then_branch);
            let e_ids = match else_branch {
                Some(b) => stmt_ids(*b),
                None => seq![],
            };
            assert((c_ids + t_ids) + e_ids =~= c_ids + (t_ids + e_ids));
            lemma_word_distinct_concat(c_ids + t_ids, e_ids);
            lemma_word_distinct_concat(c_ids, t_ids + e_ids);
            lemma_word_distinct_concat(c_ids, t_ids);
            lemma_word_distinct_concat(t_ids, e_ids);
            lemma_expr_scoped(st, condition);
            law_expression_keeps_context(st, condition);
            lemma_at_scopes_within(st.scopes, condition);
            let r = resolve_expr(st, condition);
            law_statement_resolves_its_uses(r.1, *then_branch);
            lemma_stmt_within(st.scopes, *then_branch);
            lemma_unchanged_stmt(r.1, *then_branch);
            lemma_stmt_scopes(r.1, *then_branch);
            let r2 = resolve_stmt(r.1, *then_branch);
            let cu = at_scopes(expr_uses(condition), st.scopes);
            let tu = stmt_scoped_uses(st.scopes, *then_branch);
            if res.0 is Ok {
                match else_branch {
                    Some(b) => {
                        law_statement_resolves_its_uses(r2.1, *b);
                        lemma_unchanged_stmt(r2.1, *b);
                        let eu = stmt_scoped_uses(scopes_after(st.scopes, *then_branch), *b);
                        lemma_scoped_then(r2.1.locals, res.1.locals, tu, eu, t_ids, e_ids);
                        lemma_unchanged_chain(r.1.locals, r2.1.locals, res.1.locals, t_ids, e_ids);
                        lemma_scoped_then(r.1.locals, res.1.locals, cu, tu + eu, c_ids, t_ids + e_ids);
                        assert(cu + (tu + eu) =~= cu + tu + eu);
                    },
                    None => {
                        lemma_scoped_then(r.1.locals, res.1.locals, cu, tu, c_ids, t_ids);
                        assert(cu + tu + seq![] =~= cu + tu);
                    },
                }
            }
        },
        SpecStmt::Block(stmts) => {
            assert(begin_scope(st).scopes == st.scopes.push(Map::empty()));
            law_statements_resolve_their_uses(begin_scope(st), stmts);
        },
        SpecStmt::Function(f) => {
            let r = declare(st, f.name, f.token);
            if r.0 is Ok {
                let st2 = define(r.1, f.name);
                if st.scopes.len() > 0 {
                    assert(st.scopes.last().insert(f.name, false).insert(f.name, true)
                        =~= st.scopes.last().insert(f.name, true));
                }
                assert(st2.scopes =~= with_name(st.scopes, f.name, true));
                lemma_function_resolves_its_uses(st2, f, FunctionType::Function);
            }
        },
        SpecStmt::Class { token, name, methods } => {
            let st1 = ResolveState { class: ClassType::Class, ..st };
            let r = declare(st1, name, token);
            if r.0 is Ok {
                let st2 = set_in_innermost(begin_scope(define(r.1, name)), "this"@, true);
                if st.scopes.len() > 0 {
                    assert(st.scopes.last().insert(name, false).insert(name, true)
                        =~= st.scopes.last().insert(name, true));
                }
                assert(define(r.1, name).scopes =~= with_name(st.scopes, name, true));
                assert(st2.scopes =~= with_name(st.scopes, name, true).push(
                    Map::empty().insert("this"@, true),
                ));
                lemma_methods_resolve_their_uses(st2, methods);
            }
        },
    }
}

/// After statements resolve without error, every use of a variable in
/// them, at any depth, whose name a scope open where the use stands
/// declares has its distance recorded: the number of scopes out to the
/// innermost scope that declares the name.
pub proof fn law_statements_resolve_their_uses(st: ResolveState, ss: Seq<SpecStmt>)
    requires
        word_distinct(stmts_ids(ss)),
    ensures
        resolve_stmts(st, ss).0 is Ok ==> scoped_uses_resolved(
            resolve_stmts(st, ss).1.locals,
            stmts_scoped_uses(st.scopes, ss),
        ),
    decreases ss,
{
    if ss.len() > 0 {
        lemma_stmts_ids_first(ss);
        let rest = ss.subrange(1, ss.len() as int);
        lemma_word_distinct_concat(stmt_ids(ss[0]), stmts_ids(rest));
        law_statement_resolves_its_uses(st, ss[0]);
        lemma_stmt_scopes(st, ss[0]);
        lemma_stmt_within(st.scopes, ss[0]);
        let r = resolve_stmt(st, ss[0]);
        law_statements_resolve_their_uses(r.1, rest);
        lemma_unchanged_stmts(r.1, rest);
        if resolve_stmts(st, ss).0 is Ok {
            lemma_scoped_then(
                r.1.locals,
                resolve_stmts(r.1, rest).1.locals,
                stmt_scoped_uses(st.scopes, ss[0]),
                stmts_scoped_uses(scopes_after(st.scopes, ss[0]), rest),
                stmt_ids(ss[0]),
                stmts_ids(rest),
            );
        }
    }
}

proof fn lemma_function_resolves_its_uses(st: ResolveState, f: SpecFunction, kind: FunctionType)
    requires
        word_distinct(function_ids(f)),
    ensures
        resolve_function(st, f, kind).0 is Ok ==> scoped_uses_resolved(
            resolve_function(st, f, kind).1.locals,
            function_scoped_uses(st.scopes, f),
        ),
    decreases f,
{
    let st1 = begin_scope(ResolveState { function: kind, ..st });
    lemma_params_scopes(st1, f.params, f.token);
    lemma_params_record_nothing(st1, f.params, f.token);
    let r = resolve_params(st1, f.params, f.token);
    if r.0 is Ok {
        assert(st1.scopes.last() == Map::<Seq<char>, bool>::empty());
        assert(r.1.scopes =~= st.scopes.push(with_defined(Map::empty(), names_of(f.params))));
        law_statements_resolve_their_uses(r.1, f.body);
    }
}

proof fn lemma_methods_resolve_their_uses(st: ResolveState, methods: Seq<SpecFunction>)
    requires
        word_distinct(functions_ids(methods)),
    ensures
        resolve_methods(st, methods).0 is Ok ==> scoped_uses_resolved(
            resolve_methods(st, methods).1.locals,
            methods_scoped_uses(st.scopes, methods),
        ),
    decreases methods,
{
    if methods.len() > 0 {
        lemma_functions_ids_first(methods);
        let rest = methods.subrange(1, methods.len() as int);
        let m = methods[0];
        let kind = if m.name == "init"@ {
            FunctionType::Initializer
        } else {
            FunctionType::Method
        };
        lemma_word_distinct_concat(function_ids(m), functions_ids(rest));
        lemma_function_resolves_its_uses(st, m, kind);
        lemma_function_restores_scopes(st, m, kind);
        lemma_function_within(st.scopes, m);
        let r = resolve_function(st, m, kind);
        lemma_methods_resolve_their_uses(r.1, rest);
        lemma_unchanged_methods(r.1, rest);
        if resolve_methods(st, methods).0 is Ok {
            lemma_scoped_then(
                r.1.locals,
                resolve_methods(r.1, rest).1.locals,
                function_scoped_uses(st.scopes, m),
                methods_scoped_uses(st.scopes, rest),
                function_ids(m),
                functions_ids(rest),
            );
        }
    }
}

} // verus!
