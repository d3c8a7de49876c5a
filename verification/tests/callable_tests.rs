use std::rc::Rc;

use lib::ast::{FunctionDeclaration, Stmt};
use lib::class::{LoxClass, LoxInstance, Property};
use lib::environment::{Environment, GLOBAL_SCOPE};
use lib::errors::LoxError;
use lib::function::LoxFunction;
use lib::native_functions::NativeFunction;
use lib::parser::Parser;
use lib::scanner::Scanner;
use lib::token::{Token, TokenType};

fn declarations(source: &str) -> Vec<Rc<FunctionDeclaration>> {
    let mut scanner = Scanner::new(source);
    let tokens = scanner.scan_tokens().expect("scans");
    let mut parser = Parser::new(tokens);
    let stmts = parser.parse().expect("parses");
    let mut out = Vec::new();
    for s in stmts {
        match s {
            Stmt::Function(f) => out.push(f),
            Stmt::Class { methods, .. } => out.extend(methods),
            _ => {}
        }
    }
    out
}

fn identifier(name: &str) -> Token {
    Token { token_type: TokenType::Identifier(name.to_string()), lexeme: name.to_string(), line: 1 }
}

#[test]
fn a_function_takes_as_many_arguments_as_it_has_parameters() {
    let decls = declarations("fun f(a, b, c) {} fun g() {}");
    let f = LoxFunction { declaration: decls[0].clone(), closure: GLOBAL_SCOPE, is_initializer: false };
    let g = LoxFunction { declaration: decls[1].clone(), closure: GLOBAL_SCOPE, is_initializer: false };
    assert_eq!(f.arity(), 3);
    assert_eq!(g.arity(), 0);
    assert_eq!(f.name(), "f");
}

#[test]
fn a_call_binds_each_parameter_to_its_argument() {
    let decls = declarations("fun f(a, b) {}");
    let mut env: Environment<i32> = Environment::new();
    env.define(GLOBAL_SCOPE, "outside", 7);
    let f = LoxFunction { declaration: decls[0].clone(), closure: GLOBAL_SCOPE, is_initializer: false };
    let scope = f.prepare_call(&mut env, vec![1, 2]);
    assert_eq!(scope, 1);
    assert_eq!(env.get(scope, "a").unwrap(), &1);
    assert_eq!(env.get(scope, "b").unwrap(), &2);
    assert_eq!(env.get(scope, "outside").unwrap(), &7);
    assert!(env.get(GLOBAL_SCOPE, "a").is_err());
}

#[test]
fn a_call_binds_no_more_than_the_arguments_given() {
    let decls = declarations("fun f(a, b) {}");
    let mut env: Environment<i32> = Environment::new();
    let f = LoxFunction { declaration: decls[0].clone(), closure: GLOBAL_SCOPE, is_initializer: false };
    let scope = f.prepare_call(&mut env, vec![1]);
    assert_eq!(env.get(scope, "a").unwrap(), &1);
    assert!(env.get(scope, "b").is_err());
}

#[test]
fn binding_a_method_defines_this() {
    let decls = declarations("class A { m() {} }");
    let mut env: Environment<&str> = Environment::new();
    let m = LoxFunction { declaration: decls[0].clone(), closure: GLOBAL_SCOPE, is_initializer: false };
    let bound = m.bind(&mut env, "the instance", true);
    assert!(bound.is_initializer);
    assert_eq!(bound.closure, 1);
    assert!(Rc::ptr_eq(&bound.declaration, &m.declaration));
    assert_eq!(env.get_at(bound.closure, 0, "this").unwrap(), &"the instance");
}

fn class_with(source: &str) -> Rc<LoxClass> {
    let decls = declarations(source);
    let methods = decls
        .into_iter()
        .map(|d| {
            let name = d.name.clone();
            (name, LoxFunction { declaration: d, closure: GLOBAL_SCOPE, is_initializer: false })
        })
        .collect();
    Rc::new(LoxClass { name: "A".to_string(), methods })
}

#[test]
fn a_class_finds_its_methods() {
    let class = class_with("class A { m(x) {} n() {} }");
    assert_eq!(class.find_method("m").unwrap().arity(), 1);
    assert_eq!(class.find_method("n").unwrap().arity(), 0);
    assert!(class.find_method("missing").is_none());
}

#[test]
fn the_later_of_two_methods_with_one_name_counts() {
    let class = class_with("class A { m(x) {} m(x, y) {} }");
    assert_eq!(class.find_method("m").unwrap().arity(), 2);
}

#[test]
fn a_class_takes_the_arguments_of_its_initializer() {
    assert_eq!(class_with("class A { init(a, b) {} }").arity(), 2);
    assert_eq!(class_with("class A { m(a) {} }").arity(), 0);
}

#[test]
fn a_field_is_read_back_after_it_is_set() {
    let class = class_with("class A { }");
    let mut env: Environment<i32> = Environment::new();
    let mut instance: LoxInstance<i32> = LoxInstance::new(class);
    instance.set(identifier("x"), 3);
    match instance.get(&identifier("x"), &mut env, 0) {
        Ok(Property::Field(v)) => assert_eq!(*v, 3),
        _ => panic!("expected a field"),
    }
    instance.set(identifier("x"), 4);
    match instance.get(&identifier("x"), &mut env, 0) {
        Ok(Property::Field(v)) => assert_eq!(*v, 4),
        _ => panic!("expected a field"),
    }
    assert_eq!(env.scope_count(), 1);
}

#[test]
fn a_missing_field_falls_back_to_a_bound_method() {
    let class = class_with("class A { m() {} init() {} }");
    let mut env: Environment<i32> = Environment::new();
    let instance: LoxInstance<i32> = LoxInstance::new(class);
    match instance.get(&identifier("m"), &mut env, 42) {
        Ok(Property::Method(bound)) => {
            assert_eq!(bound.name(), "m");
            assert!(!bound.is_initializer);
            assert_eq!(bound.closure, 1);
            assert_eq!(env.get_at(bound.closure, 0, "this").unwrap(), &42);
        }
        _ => panic!("expected a method"),
    }
    match instance.get(&identifier("init"), &mut env, 43) {
        Ok(Property::Method(bound)) => {
            assert!(bound.is_initializer);
            assert_eq!(bound.closure, 2);
            assert_eq!(env.get_at(bound.closure, 0, "this").unwrap(), &43);
        }
        _ => panic!("expected a method"),
    }
}

#[test]
fn a_field_shadows_a_method() {
    let class = class_with("class A { m() {} }");
    let mut env: Environment<i32> = Environment::new();
    let mut instance: LoxInstance<i32> = LoxInstance::new(class);
    instance.set(identifier("m"), 9);
    assert!(matches!(instance.get(&identifier("m"), &mut env, 0), Ok(Property::Field(&9))));
    assert_eq!(env.scope_count(), 1);
}

#[test]
fn a_missing_property_is_an_error() {
    let class = class_with("class A { }");
    let mut env: Environment<i32> = Environment::new();
    let instance: LoxInstance<i32> = LoxInstance::new(class);
    match instance.get(&identifier("nothing"), &mut env, 0) {
        Err(LoxError::RuntimeError { token, message }) => {
            assert_eq!(token.lexeme, "nothing");
            assert_eq!(message, "Property nothing not found");
        }
        _ => panic!("expected an error"),
    }
    assert_eq!(env.scope_count(), 1);
    assert_eq!(instance.class().name, "A");
}

#[test]
fn the_clock_takes_no_argument() {
    assert_eq!(NativeFunction::Clock.arity(), 0);
    assert_eq!(NativeFunction::Clock.describe(), "clock");
}

#[test]
fn a_call_with_the_wrong_number_of_arguments_is_an_error() {
    let paren = Token { token_type: TokenType::RightParen, lexeme: ")".to_string(), line: 4 };
    assert!(lib::function::check_arity(&paren, 2, 2).is_ok());
    match lib::function::check_arity(&paren, 2, 13) {
        Err(LoxError::RuntimeError { token, message }) => {
            assert_eq!(token.lexeme, ")");
            assert_eq!(token.line, 4);
            assert_eq!(message, "Expected 2 arguments, got 13");
        }
        _ => panic!("expected an error"),
    }
}

#[test]
fn a_class_is_made_from_its_declaration() {
    let decls = declarations("class A { init(a) {} m() {} }");
    let class = LoxClass::from_declaration(&"A".to_string(), &decls, 3);
    assert_eq!(class.name, "A");
    assert_eq!(class.methods.len(), 2);
    let init = class.find_method("init").unwrap();
    assert!(init.is_initializer);
    assert_eq!(init.closure, 3);
    assert!(Rc::ptr_eq(&init.declaration, &decls[0]));
    assert!(!class.find_method("m").unwrap().is_initializer);
    assert_eq!(class.arity(), 1);
}

#[test]
fn calling_a_class_binds_its_initializer_to_the_new_instance() {
    let decls = declarations("class A { init(a) {} }");
    let class = LoxClass::from_declaration(&"A".to_string(), &decls, GLOBAL_SCOPE);
    let mut env: Environment<&str> = Environment::new();
    let bound = class.bind_initializer(&mut env, "new instance").unwrap();
    assert!(bound.is_initializer);
    assert_eq!(bound.closure, 1);
    assert_eq!(env.scope_count(), 2);
    assert_eq!(env.get_at(bound.closure, 0, "this").unwrap(), &"new instance");

    let plain = LoxClass::from_declaration(&"B".to_string(), &declarations("class B { m() {} }"), GLOBAL_SCOPE);
    let mut env2: Environment<&str> = Environment::new();
    assert!(plain.bind_initializer(&mut env2, "x").is_none());
    assert_eq!(env2.scope_count(), 1);
}
