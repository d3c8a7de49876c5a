use vstd::prelude::*;

use std::collections::HashMap;
use std::rc::Rc;

use crate::ast::{
    expr_view, exprs_view, function_view, functions_view, lemma_exprs_view_index,
    lemma_functions_view_index, lemma_stmts_view_index, stmt_view, stmts_view, strings_view, Expr,
    ExprKind, FunctionDeclaration, Stmt,
};
use crate::environment::{bindings_view, find_binding, lemma_bindings_last};
use crate::errors::{unit_result, LoxError};
use crate::resolution;
use crate::resolution::{ClassType, FunctionType, ResolveState};
use crate::text::{concat3, string_of, text_equals};
use crate::token::Token;

verus! {

broadcast use vstd::std_specs::hash::group_hash_axioms;

/// The model of a stack of scopes, innermost last.
pub open spec fn scopes_view(scopes: Seq<Vec<(String, bool)>>) -> Seq<Map<Seq<char>, bool>> {
    scopes.map_values(|s: Vec<(String, bool)>| bindings_view(s@))
}

/// Where `j` is the innermost scope that declares `name` (or -1 where none
/// does), `innermost_declaring` finds it.
proof fn lemma_innermost_declaring(scopes: Seq<Map<Seq<char>, bool>>, name: Seq<char>, j: int)
    requires
        -1 <= j < scopes.len(),
        j >= 0 ==> scopes[j].contains_key(name),
        forall|k: int| j < k < scopes.len() ==> !(#[trigger] scopes[k]).contains_key(name),
    ensures
        resolution::innermost_declaring(scopes, name) == (if j >= 0 {
            Some(j)
        } else {
            None
        }),
    decreases scopes.len(),
{
    if scopes.len() > 0 && j != scopes.len() - 1 {
        let shorter = scopes.drop_last();
        assert forall|k: int| j < k < shorter.len() implies !(#[trigger] shorter[k]).contains_key(
            name,
        ) by {
            assert(shorter[k] == scopes[k]);
        }
        lemma_innermost_declaring(shorter, name, j);
        assert(!scopes[scopes.len() - 1].contains_key(name));
    }
}

/// Whether the scope declares `name`, and if so whether its definition is
/// complete.
fn scope_lookup(scope: &Vec<(String, bool)>, name: &String) -> (r: Option<bool>)
    ensures
        r is Some <==> bindings_view(scope@).contains_key(name@),
        r matches Some(b) ==> bindings_view(scope@)[name@] == b,
{
    match find_binding(scope, name.as_str()) {
        Some(j) => {
            proof {
                lemma_bindings_last(scope@, name@, j as int);
            }
            Some(scope[j].1)
        },
        None => {
            proof {
                lemma_bindings_last(scope@, name@, -1);
            }
            None
        },
    }
}

/// Resolves where each local variable that a program uses lives: for each
/// expression that reads or assigns a local variable, how many scopes out
/// from the innermost one that variable was declared.
pub struct Resolver {
    scopes: Vec<Vec<(String, bool)>>,
    current_function: FunctionType,
    current_class: ClassType,
    locals: HashMap<usize, usize>,
}

impl Resolver {
    /// What the resolver knows.
    pub closed spec fn state(&self) -> ResolveState {
        ResolveState {
            scopes: scopes_view(self.scopes@),
            function: self.current_function,
            class: self.current_class,
            locals: self.locals@,
        }
    }

    /// A resolver at the top level of a program, with no scope open and no
    /// variable resolved.
    pub fn new() -> (r: Resolver)
        ensures
            r.state() == (ResolveState {
                scopes: Seq::empty(),
                function: FunctionType::TopLevel,
                class: ClassType::NoClass,
                locals: Map::empty(),
            }),
    {
        let r = Resolver {
            scopes: Vec::new(),
            current_function: FunctionType::TopLevel,
            current_class: ClassType::NoClass,
            locals: HashMap::new(),
        };
        proof {
            assert(r.state() =~= ResolveState {
                scopes: Seq::empty(),
                function: FunctionType::TopLevel,
                class: ClassType::NoClass,
                locals: Map::empty(),
            });
        }
        r
    }

    /// For each expression resolved to a local variable (by its identifier),
    /// how many scopes out that variable lives.
    pub fn locals(&self) -> (r: &HashMap<usize, usize>)
        ensures
            r@ == self.state().locals,
    {
        &self.locals
    }

    /// The recorded distances, taken out of the resolver.
    pub fn into_locals(self) -> (r: HashMap<usize, usize>)
        ensures
            r@ == self.state().locals,
    {
        self.locals
    }

    fn begin_scope(&mut self)
        ensures
            final(self).state() == resolution::begin_scope(old(self).state()),
    {
        let ghost before = self.state();
        self.scopes.push(Vec::new());
        proof {
            assert(bindings_view(Seq::<(String, bool)>::empty()) =~= Map::empty());
            assert(scopes_view(self.scopes@) =~= before.scopes.push(Map::empty()));
            assert(self.state() =~= resolution::begin_scope(before));
        }
    }

    fn end_scope(&mut self)
        requires
            old(self).scopes@.len() > 0,
        ensures
            final(self).state() == resolution::end_scope(old(self).state()),
            final(self).scopes@.len() == old(self).scopes@.len() - 1,
    {
        let ghost before = self.state();
        let _ = self.scopes.pop();
        proof {
            assert(scopes_view(self.scopes@) =~= before.scopes.drop_last());
            assert(self.state() =~= resolution::end_scope(before));
        }
    }

    /// Records `name` as `ready` in the innermost scope.
    fn set_innermost(&mut self, name: &String, ready: bool)
        requires
            old(self).scopes@.len() > 0,
        ensures
            final(self).state() == resolution::set_in_innermost(old(self).state(), name@, ready),
            final(self).scopes@.len() == old(self).scopes@.len(),
    {
        let ghost before = self.state();
        let mut scope = self.scopes.pop().unwrap();
        let ghost old_scope = scope@;
        scope.push((name.clone(), ready));
        proof {
            assert(scope@.drop_last() =~= old_scope);
        }
        self.scopes.push(scope);
        proof {
            assert(scopes_view(self.scopes@) =~= before.scopes.update(
                before.scopes.len() - 1,
                before.scopes.last().insert(name@, ready),
            ));
            assert(self.state() =~= resolution::set_in_innermost(before, name@, ready));
        }
    }

    fn declare(&mut self, name: &String, token: &Token) -> (r: Result<(), LoxError>)
        ensures
            (unit_result(r), final(self).state()) == resolution::declare(
                old(self).state(),
                name@,
                token@,
            ),
            r is Ok ==> final(self).scopes@.len() == old(self).scopes@.len(),
    {
        let n = self.scopes.len();
        if n == 0 {
            return Ok(());
        }
        if scope_lookup(&self.scopes[n - 1], name).is_some() {
            let message = concat3("Already a variable with name ", name.as_str(), " in this scope");
            return Err(LoxError::ResolutionError { token: token.duplicate(), message });
        }
        self.set_innermost(name, false);
        Ok(())
    }

    fn define(&mut self, name: &String)
        ensures
            final(self).state() == resolution::define(old(self).state(), name@),
            final(self).scopes@.len() == old(self).scopes@.len(),
    {
        if self.scopes.len() > 0 {
            self.set_innermost(name, true);
        }
    }

    /// Records, for the expression `id`, how many scopes out `name` lives.
    fn resolve_local(&mut self, id: usize, name: &String)
        ensures
            final(self).state() == resolution::resolve_local(old(self).state(), id as nat, name@),
            final(self).scopes@.len() == old(self).scopes@.len(),
    {
        let ghost before = self.state();
        let n = self.scopes.len();
        let mut i: usize = n;
        while i > 0
            invariant
                i <= n,
                n == self.scopes@.len(),
                self.state() == before,
                before == old(self).state(),
                self.scopes@ == old(self).scopes@,
                before.scopes == scopes_view(self.scopes@),
                forall|k: int| i <= k < n ==> !(#[trigger] before.scopes[k]).contains_key(name@),
            decreases i,
        {
            i = i - 1;
            if scope_lookup(&self.scopes[i], name).is_some() {
                proof {
                    lemma_innermost_declaring(before.scopes, name@, i as int);
                }
                self.locals.insert(id, n - 1 - i);
                proof {
                    assert(self.state() =~= resolution::resolve_local(before, id as nat, name@));
                }
                return;
            }
        }
        proof {
            lemma_innermost_declaring(before.scopes, name@, -1);
        }
    }
    fn resolve_expression(&mut self, expression: &Expr) -> (r: Result<(), LoxError>)
        ensures
            (unit_result(r), final(self).state()) == resolution::resolve_expr(
                old(self).state(),
                expr_view(*expression),
            ),
            final(self).scopes@.len() == old(self).scopes@.len(),
        decreases expression,
    {
        match &expression.kind {
            ExprKind::Variable { token, name } => {
                let n = self.scopes.len();
                if n > 0 {
                    match scope_lookup(&self.scopes[n - 1], name) {
                        Some(false) => {
                            let message = concat3(
                                "Can't read local variable ",
                                name.as_str(),
                                " in its own initializer.",
                            );
                            return Err(LoxError::ResolutionError { token: token.duplicate(), message });
                        },
                        _ => {},
                    }
                }
                self.resolve_local(expression.id, name);
                Ok(())
            },
            ExprKind::Assign { name, value } => {
                let r = self.resolve_expression(value);
                if r.is_err() {
                    return r;
                }
                self.resolve_local(expression.id, name);
                Ok(())
            },
            ExprKind::Binary { left, operator: _, right } => {
                let r = self.resolve_expression(left);
                if r.is_err() {
                    return r;
                }
                self.resolve_expression(right)
            },
            ExprKind::Logical { left, operator: _, right } => {
                let r = self.resolve_expression(left);
                if r.is_err() {
                    return r;
                }
                self.resolve_expression(right)
            },
            ExprKind::Call { callee, paren: _, arguments } => {
                let r = self.resolve_expression(callee);
                if r.is_err() {
                    return r;
                }
                self.resolve_arguments(arguments)
            },
            ExprKind::Grouping { expression: inner } => self.resolve_expression(inner),
            ExprKind::Literal(_) => Ok(()),
            ExprKind::Unary { operator: _, right } => self.resolve_expression(right),
            ExprKind::Get { object, token: _ } => self.resolve_expression(object),
            ExprKind::SetProperty { object, token: _, value } => {
                let r = self.resolve_expression(object);
                if r.is_err() {
                    return r;
                }
                self.resolve_expression(value)
            },
            ExprKind::This { token } => {
                if self.current_class == ClassType::NoClass {
                    let message = string_of("Can't use 'this' outside a class.");
                    return Err(LoxError::ResolutionError { token: token.duplicate(), message });
                }
                self.resolve_local(expression.id, &token.lexeme);
                Ok(())
            },
        }
    }

    /// Resolves a call's arguments in order, up to the first error.
    fn resolve_arguments(&mut self, arguments: &Vec<Expr>) -> (r: Result<(), LoxError>)
        ensures
            (unit_result(r), final(self).state()) == resolution::resolve_exprs(
                old(self).state(),
                exprs_view(arguments@),
            ),
            final(self).scopes@.len() == old(self).scopes@.len(),
        decreases arguments,
    {
        let ghost es = exprs_view(arguments@);
        let ghost total = resolution::resolve_exprs(self.state(), es);
        proof {
            lemma_exprs_view_index(arguments@);
            assert(es.subrange(0, es.len() as int) =~= es);
        }
        let n = arguments.len();
        let mut i: usize = 0;
        while i < n
            invariant
                i <= n,
                n == arguments@.len(),
                es == exprs_view(arguments@),
                es.len() == n,
                forall|j: int| 0 <= j < n ==> #[trigger] es[j] == expr_view(arguments@[j]),
                total == resolution::resolve_exprs(old(self).state(), es),
                resolution::resolve_exprs(self.state(), es.subrange(i as int, n as int)) == total,
                self.scopes@.len() == old(self).scopes@.len(),
            decreases n - i,
        {
            let ghost rest = es.subrange(i as int, n as int);
            proof {
                assert(rest.subrange(1, rest.len() as int) =~= es.subrange(i + 1, n as int));
                assert(rest[0] == es[i as int]);
            }
            let r = self.resolve_expression(&arguments[i]);
            if r.is_err() {
                return r;
            }
            i = i + 1;
        }
        proof {
            assert(es.subrange(n as int, n as int) =~= Seq::<crate::ast::SpecExpr>::empty());
        }
        Ok(())
    }
    /// Resolves the statements of a program or a block in order, up to the
    /// first error, which it returns.
    pub fn resolve_multiple_statements(&mut self, statements: &Vec<Stmt>) -> (r: Result<
        (),
        LoxError,
    >)
        ensures
            (unit_result(r), final(self).state()) == resolution::resolve_stmts(
                old(self).state(),
                stmts_view(statements@),
            ),
            r is Ok ==> final(self).state().scopes.len() == old(self).state().scopes.len(),
        decreases statements,
    {
        let ghost ss = stmts_view(statements@);
        let ghost total = resolution::resolve_stmts(self.state(), ss);
        proof {
            lemma_stmts_view_index(statements@);
            assert(ss.subrange(0, ss.len() as int) =~= ss);
        }
        let n = statements.len();
        let mut i: usize = 0;
        while i < n
            invariant
                i <= n,
                n == statements@.len(),
                ss == stmts_view(statements@),
                ss.len() == n,
                forall|j: int| 0 <= j < n ==> #[trigger] ss[j] == stmt_view(statements@[j]),
                total == resolution::resolve_stmts(old(self).state(), ss),
                resolution::resolve_stmts(self.state(), ss.subrange(i as int, n as int)) == total,
                self.scopes@.len() == old(self).scopes@.len(),
            decreases n - i,
        {
            let ghost rest = ss.subrange(i as int, n as int);
            proof {
                assert(rest.subrange(1, rest.len() as int) =~= ss.subrange(i + 1, n as int));
                assert(rest[0] == ss[i as int]);
            }
            let r = self.resolve_statement(&statements[i]);
            if r.is_err() {
                return r;
            }
            i = i + 1;
        }
        proof {
            assert(ss.subrange(n as int, n as int) =~= Seq::<crate::ast::SpecStmt>::empty());
        }
        Ok(())
    }

    fn resolve_statement(&mut self, statement: &Stmt) -> (r: Result<(), LoxError>)
        ensures
            (unit_result(r), final(self).state()) == resolution::resolve_stmt(
                old(self).state(),
                stmt_view(*statement),
            ),
            r is Ok ==> final(self).scopes@.len() == old(self).scopes@.len(),
        decreases statement,
    {
        match statement {
            Stmt::Block(statements) => {
                self.begin_scope();
                let r = self.resolve_multiple_statements(statements);
                if r.is_err() {
                    return r;
                }
                self.end_scope();
                Ok(())
            },
            Stmt::Class { token, name, methods } => {
                let enclosing = self.current_class;
                self.current_class = ClassType::Class;
                let r = self.declare(name, token);
                if r.is_err() {
                    return r;
                }
                self.define(name);
                self.begin_scope();
                let this = string_of("this");
                self.set_innermost(&this, true);
                let r2 = self.resolve_methods(methods);
                if r2.is_err() {
                    return r2;
                }
                self.end_scope();
                self.current_class = enclosing;
                Ok(())
            },
            Stmt::Expression(expression) => self.resolve_expression(expression),
            Stmt::Print(expression) => self.resolve_expression(expression),
            Stmt::If { condition, then_branch, else_branch } => {
                let r = self.resolve_expression(condition);
                if r.is_err() {
                    return r;
                }
                let r2 = self.resolve_statement(then_branch);
                if r2.is_err() {
                    return r2;
                }
                match else_branch {
                    Some(branch) => self.resolve_statement(branch),
                    None => Ok(()),
                }
            },
            Stmt::Return { token, value } => {
                if self.current_function == FunctionType::TopLevel {
                    let message = string_of("Can't return from top level");
                    return Err(LoxError::ResolutionError { token: token.duplicate(), message });
                }
                match value {
                    Some(expression) => {
                        if self.current_function == FunctionType::Initializer {
                            let message = string_of("Can't return a value from an initializer");
                            return Err(
                                LoxError::ResolutionError { token: token.duplicate(), message },
                            );
                        }
                        self.resolve_expression(expression)
                    },
                    None => Ok(()),
                }
            },
            Stmt::While { condition, body } => {
                let r = self.resolve_expression(condition);
                if r.is_err() {
                    return r;
                }
                self.resolve_statement(body)
            },
            Stmt::Var { token, name, initializer } => {
                let r = self.declare(name, token);
                if r.is_err() {
                    return r;
                }
                match initializer {
                    Some(expression) => {
                        let r2 = self.resolve_expression(expression);
                        if r2.is_err() {
                            return r2;
                        }
                    },
                    None => {},
                }
                self.define(name);
                Ok(())
            },
            Stmt::Function(declaration) => {
                proof {
                    assert(function_view(**declaration).name == declaration.name@);
                    assert(function_view(**declaration).token == declaration.token@);
                }
                let r = self.declare(&declaration.name, &declaration.token);
                if r.is_err() {
                    return r;
                }
                self.define(&declaration.name);
                self.resolve_function(declaration, FunctionType::Function)
            },
        }
    }

    /// Resolves a function's parameters and body in a scope of their own.
    fn resolve_function(&mut self, function: &FunctionDeclaration, kind: FunctionType) -> (r:
        Result<(), LoxError>)
        ensures
            (unit_result(r), final(self).state()) == resolution::resolve_function(
                old(self).state(),
                function_view(*function),
                kind,
            ),
            r is Ok ==> final(self).scopes@.len() == old(self).scopes@.len(),
        decreases function,
    {
        let enclosing = self.current_function;
        self.current_function = kind;
        self.begin_scope();
        let r = self.resolve_params(&function.params, &function.token);
        if r.is_err() {
            return r;
        }
        let r2 = self.resolve_multiple_statements(&function.body);
        if r2.is_err() {
            return r2;
        }
        self.end_scope();
        self.current_function = enclosing;
        Ok(())
    }

    /// Declares and defines a function's parameters in order.
    fn resolve_params(&mut self, params: &Vec<String>, token: &Token) -> (r: Result<(), LoxError>)
        ensures
            (unit_result(r), final(self).state()) == resolution::resolve_params(
                old(self).state(),
                strings_view(params@),
                token@,
            ),
            r is Ok ==> final(self).scopes@.len() == old(self).scopes@.len(),
    {
        let ghost ps = strings_view(params@);
        let ghost total = resolution::resolve_params(self.state(), ps, token@);
        proof {
            assert(ps.subrange(0, ps.len() as int) =~= ps);
        }
        let n = params.len();
        let mut i: usize = 0;
        while i < n
            invariant
                i <= n,
                n == params@.len(),
                ps == strings_view(params@),
                ps.len() == n,
                total == resolution::resolve_params(old(self).state(), ps, token@),
                resolution::resolve_params(self.state(), ps.subrange(i as int, n as int), token@)
                    == total,
                self.scopes@.len() == old(self).scopes@.len(),
            decreases n - i,
        {
            let ghost rest = ps.subrange(i as int, n as int);
            proof {
                assert(rest.subrange(1, rest.len() as int) =~= ps.subrange(i + 1, n as int));
                assert(rest[0] == params@[i as int]@);
            }
            let r = self.declare(&params[i], token);
            if r.is_err() {
                return r;
            }
            self.define(&params[i]);
            i = i + 1;
        }
        proof {
            assert(ps.subrange(n as int, n as int) =~= Seq::<Seq<char>>::empty());
        }
        Ok(())
    }

    /// Resolves the methods of a class in order; `init` is an initializer.
    fn resolve_methods(&mut self, methods: &Vec<Rc<FunctionDeclaration>>) -> (r: Result<(), LoxError>)
        ensures
            (unit_result(r), final(self).state()) == resolution::resolve_methods(
                old(self).state(),
                functions_view(methods@),
            ),
            r is Ok ==> final(self).scopes@.len() == old(self).scopes@.len(),
        decreases methods,
    {
        let ghost fs = functions_view(methods@);
        let ghost total = resolution::resolve_methods(self.state(), fs);
        proof {
            lemma_functions_view_index(methods@);
            assert(fs.subrange(0, fs.len() as int) =~= fs);
        }
        let n = methods.len();
        let mut i: usize = 0;
        while i < n
            invariant
                i <= n,
                n == methods@.len(),
                fs == functions_view(methods@),
                fs.len() == n,
                forall|j: int| 0 <= j < n ==> #[trigger] fs[j] == function_view(*methods@[j]),
                total == resolution::resolve_methods(old(self).state(), fs),
                resolution::resolve_methods(self.state(), fs.subrange(i as int, n as int)) == total,
                self.scopes@.len() == old(self).scopes@.len(),
            decreases n - i,
        {
            let ghost rest = fs.subrange(i as int, n as int);
            proof {
                assert(rest.subrange(1, rest.len() as int) =~= fs.subrange(i + 1, n as int));
                assert(rest[0] == fs[i as int]);
            }
            let method: &FunctionDeclaration = &methods[i];
            let kind = if text_equals(method.name.as_str(), "init") {
                FunctionType::Initializer
            } else {
                FunctionType::Method
            };
            let r = self.resolve_function(method, kind);
            if r.is_err() {
                return r;
            }
            i = i + 1;
        }
        proof {
            assert(fs.subrange(n as int, n as int) =~= Seq::<crate::ast::SpecFunction>::empty());
        }
        Ok(())
    }
}

} // verus!
