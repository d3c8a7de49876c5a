use lib::ast::{Expr, ExprKind, Stmt};
use lib::errors::LoxError;
use lib::parser::Parser;
use lib::resolver::Resolver;
use lib::scanner::Scanner;

fn parse(source: &str) -> Vec<Stmt> {
    let mut scanner = Scanner::new(source);
    let tokens = scanner.scan_tokens().expect("scans");
    let mut parser = Parser::new(tokens);
    parser.parse().expect("parses")
}

/// The identifiers of the expressions that read or assign `name`.
fn uses_of(stmts: &[Stmt], name: &str) -> Vec<usize> {
    fn in_expr(e: &Expr, name: &str, out: &mut Vec<usize>) {
        match &e.kind {
            ExprKind::Variable { name: n, .. } if n == name => out.push(e.id),
            ExprKind::Assign { name: n, value } => {
                in_expr(value, name, out);
                if n == name {
                    out.push(e.id);
                }
            }
            ExprKind::This { .. } if name == "this" => out.push(e.id),
            ExprKind::Binary { left, right, .. } | ExprKind::Logical { left, right, .. } => {
                in_expr(left, name, out);
                in_expr(right, name, out);
            }
            ExprKind::Grouping { expression } => in_expr(expression, name, out),
            ExprKind::Unary { right, .. } => in_expr(right, name, out),
            ExprKind::Call { callee, arguments, .. } => {
                in_expr(callee, name, out);
                arguments.iter().for_each(|a| in_expr(a, name, out));
            }
            ExprKind::Get { object, .. } => in_expr(object, name, out),
            ExprKind::SetProperty { object, value, .. } => {
                in_expr(object, name, out);
                in_expr(value, name, out);
            }
            _ => {}
        }
    }
    fn in_stmt(s: &Stmt, name: &str, out: &mut Vec<usize>) {
        match s {
            Stmt::Expression(e) | Stmt::Print(e) => in_expr(e, name, out),
            Stmt::While { condition, body } => {
                in_expr(condition, name, out);
                in_stmt(body, name, out);
            }
            Stmt::Var { initializer: Some(e), .. } => in_expr(e, name, out),
            Stmt::Var { .. } => {}
            Stmt::Block(b) => b.iter().for_each(|s| in_stmt(s, name, out)),
            Stmt::If { condition, then_branch, else_branch } => {
                in_expr(condition, name, out);
                in_stmt(then_branch, name, out);
                if let Some(b) = else_branch {
                    in_stmt(b, name, out);
                }
            }
            Stmt::Function(f) => f.body.iter().for_each(|s| in_stmt(s, name, out)),
            Stmt::Return { value: Some(e), .. } => in_expr(e, name, out),
            Stmt::Return { .. } => {}
            Stmt::Class { methods, .. } => {
                methods.iter().for_each(|m| m.body.iter().for_each(|s| in_stmt(s, name, out)))
            }
        }
    }
    let mut out = Vec::new();
    stmts.iter().for_each(|s| in_stmt(s, name, &mut out));
    out
}

fn resolution_error(source: &str) -> (String, String) {
    let stmts = parse(source);
    let mut resolver = Resolver::new();
    match resolver.resolve_multiple_statements(&stmts) {
        Err(LoxError::ResolutionError { token, message }) => (token.lexeme, message),
        other => panic!("expected a resolution error, got {:?}", other),
    }
}

#[test]
fn globals_are_not_recorded() {
    let stmts = parse("var a = 1; print a; a = 2;");
    let mut resolver = Resolver::new();
    assert!(resolver.resolve_multiple_statements(&stmts).is_ok());
    assert!(resolver.locals().is_empty());
}

#[test]
fn a_local_in_its_own_block_is_at_depth_zero() {
    let stmts = parse("{ var a = 1; print a; a = 2; }");
    let mut resolver = Resolver::new();
    resolver.resolve_multiple_statements(&stmts).unwrap();
    let uses = uses_of(&stmts, "a");
    assert_eq!(uses.len(), 2);
    for id in uses {
        assert_eq!(resolver.locals().get(&id), Some(&0));
    }
}

#[test]
fn a_local_one_block_out_is_at_depth_one() {
    let stmts = parse("{ var a = 1; { var b = 2; print a + b; } }");
    let mut resolver = Resolver::new();
    resolver.resolve_multiple_statements(&stmts).unwrap();
    let a = uses_of(&stmts, "a");
    let b = uses_of(&stmts, "b");
    assert_eq!(resolver.locals().get(&a[0]), Some(&1));
    assert_eq!(resolver.locals().get(&b[0]), Some(&0));
}

#[test]
fn an_inner_declaration_shadows_an_outer_one() {
    let stmts = parse("{ var a = 1; { var a = 2; print a; } print a; }");
    let mut resolver = Resolver::new();
    resolver.resolve_multiple_statements(&stmts).unwrap();
    let a = uses_of(&stmts, "a");
    assert_eq!(resolver.locals().get(&a[0]), Some(&0));
    assert_eq!(resolver.locals().get(&a[1]), Some(&0));
}

#[test]
fn parameters_live_in_the_function_scope() {
    let stmts = parse("fun f(x) { print x; { print x; } }");
    let mut resolver = Resolver::new();
    resolver.resolve_multiple_statements(&stmts).unwrap();
    let x = uses_of(&stmts, "x");
    assert_eq!(resolver.locals().get(&x[0]), Some(&0));
    assert_eq!(resolver.locals().get(&x[1]), Some(&1));
}

#[test]
fn this_lives_in_the_class_scope() {
    let stmts = parse("class A { m() { print this; } }");
    let mut resolver = Resolver::new();
    resolver.resolve_multiple_statements(&stmts).unwrap();
    let this = uses_of(&stmts, "this");
    assert_eq!(resolver.locals().get(&this[0]), Some(&1));
}

#[test]
fn a_closure_reaches_out_to_its_enclosing_function() {
    let stmts = parse("fun outer() { var n = 0; fun inner() { n = n + 1; return n; } return inner; }");
    let mut resolver = Resolver::new();
    resolver.resolve_multiple_statements(&stmts).unwrap();
    for id in uses_of(&stmts, "n") {
        assert_eq!(resolver.locals().get(&id), Some(&1));
    }
}

#[test]
fn reading_a_local_in_its_own_initializer_is_an_error() {
    let (lexeme, message) = resolution_error("{ var a = a; }");
    assert_eq!(lexeme, "a");
    assert_eq!(message, "Can't read local variable a in its own initializer.");
}

#[test]
fn a_global_may_be_read_in_its_own_initializer() {
    let stmts = parse("var a = a;");
    let mut resolver = Resolver::new();
    assert!(resolver.resolve_multiple_statements(&stmts).is_ok());
}

#[test]
fn declaring_a_name_twice_in_one_scope_is_an_error() {
    let (lexeme, message) = resolution_error("{ var a = 1; var a = 2; }");
    assert_eq!(lexeme, "a");
    assert_eq!(message, "Already a variable with name a in this scope");
}

#[test]
fn repeated_parameters_are_reported_at_the_function_name() {
    let (lexeme, message) = resolution_error("fun f(a, a) { }");
    assert_eq!(lexeme, "f");
    assert_eq!(message, "Already a variable with name a in this scope");
}

#[test]
fn returning_from_the_top_level_is_an_error() {
    let (lexeme, message) = resolution_error("return 1;");
    assert_eq!(lexeme, "return");
    assert_eq!(message, "Can't return from top level");
}

#[test]
fn returning_a_value_from_an_initializer_is_an_error() {
    let (lexeme, message) = resolution_error("class A { init() { return 1; } }");
    assert_eq!(lexeme, "return");
    assert_eq!(message, "Can't return a value from an initializer");
    let stmts = parse("class A { init() { return; } }");
    let mut resolver = Resolver::new();
    assert!(resolver.resolve_multiple_statements(&stmts).is_ok());
}

#[test]
fn this_outside_a_class_is_an_error() {
    let (lexeme, message) = resolution_error("print this;");
    assert_eq!(lexeme, "this");
    assert_eq!(message, "Can't use 'this' outside a class.");
}

#[test]
fn resolution_stops_at_the_first_error() {
    let stmts = parse("{ var a = 1; print a; } return 1; { var b = 2; print b; }");
    let mut resolver = Resolver::new();
    assert!(resolver.resolve_multiple_statements(&stmts).is_err());
    let a = uses_of(&stmts, "a");
    let b = uses_of(&stmts, "b");
    assert_eq!(resolver.locals().get(&a[0]), Some(&0));
    assert_eq!(resolver.locals().get(&b[0]), None);
}

#[test]
fn a_resolver_is_back_at_the_top_level_after_each_statement() {
    let mut resolver = Resolver::new();
    let first = parse("{ var a = 1; fun f() { return a; } } class C { m() { return this; } }");
    assert!(resolver.resolve_multiple_statements(&first).is_ok());
    // No scope is left open: a variable read in its own initializer is a global.
    let second = parse("var b = b;");
    assert!(resolver.resolve_multiple_statements(&second).is_ok());
    // The function and class left too.
    let third = parse("return;");
    assert!(matches!(
        resolver.resolve_multiple_statements(&third),
        Err(LoxError::ResolutionError { message, .. }) if message == "Can't return from top level"
    ));
    let fourth = parse("print this;");
    assert!(resolver.resolve_multiple_statements(&fourth).is_err());
}

#[test]
fn a_statement_adds_only_its_own_names_to_the_scope_it_is_in() {
    // Inside the block, `f` and `C` are declared next to `a`, and the names
    // of the nested block and of the function body stay out of it.
    let stmts = parse("{ var a = 1; fun f(p) { var q = p; } class C { } { var inner = 2; } print a; print f; print C; }");
    let mut resolver = Resolver::new();
    resolver.resolve_multiple_statements(&stmts).unwrap();
    for name in ["a", "f", "C"] {
        let uses = uses_of(&stmts, name);
        assert_eq!(resolver.locals().get(&uses[uses.len() - 1]), Some(&0));
    }
    let (lexeme, message) = resolution_error("{ var a = 1; { var b = 2; } var b = 3; var a = 4; }");
    assert_eq!(lexeme, "a");
    assert_eq!(message, "Already a variable with name a in this scope");
}
