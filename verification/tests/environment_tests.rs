use std::collections::HashMap;

use lib::environment::{Environment, GLOBAL_SCOPE};
use lib::errors::LoxError;

#[test]
fn a_defined_variable_is_read_back() {
    let mut env: Environment<i32> = Environment::new();
    env.define(GLOBAL_SCOPE, "a", 1);
    assert_eq!(env.get(GLOBAL_SCOPE, "a").unwrap(), &1);
    env.define(GLOBAL_SCOPE, "a", 2);
    assert_eq!(env.get(GLOBAL_SCOPE, "a").unwrap(), &2);
}

#[test]
fn an_undefined_variable_is_an_error() {
    let env: Environment<i32> = Environment::new();
    match env.get(GLOBAL_SCOPE, "missing") {
        Err(LoxError::UndefinedVariable(name)) => assert_eq!(name, "missing"),
        other => panic!("unexpected {:?}", other),
    }
}

#[test]
fn an_inner_scope_sees_the_enclosing_one() {
    let mut env: Environment<&str> = Environment::new();
    env.define(GLOBAL_SCOPE, "x", "global");
    let inner = env.enclosed_by(GLOBAL_SCOPE);
    assert_eq!(inner, 1);
    assert_eq!(env.get(inner, "x").unwrap(), &"global");
    env.define(inner, "x", "inner");
    assert_eq!(env.get(inner, "x").unwrap(), &"inner");
    assert_eq!(env.get(GLOBAL_SCOPE, "x").unwrap(), &"global");
}

#[test]
fn assignment_changes_the_scope_that_defines_the_name() {
    let mut env: Environment<i32> = Environment::new();
    env.define(GLOBAL_SCOPE, "n", 1);
    let inner = env.enclosed_by(GLOBAL_SCOPE);
    let innermost = env.enclosed_by(inner);
    env.assign(innermost, "n", 5).unwrap();
    assert_eq!(env.get(GLOBAL_SCOPE, "n").unwrap(), &5);
    assert_eq!(env.get(innermost, "n").unwrap(), &5);
}

#[test]
fn assigning_an_undefined_name_is_an_error() {
    let mut env: Environment<i32> = Environment::new();
    let inner = env.enclosed_by(GLOBAL_SCOPE);
    match env.assign(inner, "nope", 1) {
        Err(LoxError::UndefinedVariable(name)) => assert_eq!(name, "nope"),
        other => panic!("unexpected {:?}", other),
    }
    assert!(env.get(inner, "nope").is_err());
}

#[test]
fn reads_and_writes_at_a_distance() {
    let mut env: Environment<i32> = Environment::new();
    let a = env.enclosed_by(GLOBAL_SCOPE);
    let b = env.enclosed_by(a);
    env.define(a, "v", 10);
    env.define(b, "v", 20);
    assert_eq!(env.get_at(b, 0, "v").unwrap(), &20);
    assert_eq!(env.get_at(b, 1, "v").unwrap(), &10);
    env.assign_at(b, 1, "v", 11).unwrap();
    assert_eq!(env.get_at(b, 1, "v").unwrap(), &11);
    assert_eq!(env.get_at(b, 0, "v").unwrap(), &20);
    env.assign_at(b, 2, "w", 3).unwrap();
    assert_eq!(env.get(GLOBAL_SCOPE, "w").unwrap(), &3);
}

#[test]
fn a_distance_past_the_global_scope_is_an_error() {
    let mut env: Environment<i32> = Environment::new();
    let a = env.enclosed_by(GLOBAL_SCOPE);
    match env.get_at(a, 2, "v") {
        Err(LoxError::InternalError(m)) => assert_eq!(m, "No enclosing scope at this distance"),
        other => panic!("unexpected {:?}", other),
    }
    match env.assign_at(a, 5, "v", 1) {
        Err(LoxError::InternalError(m)) => assert_eq!(m, "No enclosing scope at this distance"),
        other => panic!("unexpected {:?}", other),
    }
}

#[test]
fn a_name_missing_at_its_distance_is_an_error() {
    let mut env: Environment<i32> = Environment::new();
    env.define(GLOBAL_SCOPE, "v", 1);
    let a = env.enclosed_by(GLOBAL_SCOPE);
    match env.get_at(a, 0, "v") {
        Err(LoxError::InternalError(m)) => {
            assert_eq!(m, "value matching v not found in environment at depth 0")
        }
        other => panic!("unexpected {:?}", other),
    }
    let b = env.enclosed_by(a);
    match env.get_at(b, 12, "v") {
        Err(LoxError::InternalError(m)) => assert_eq!(m, "No enclosing scope at this distance"),
        other => panic!("unexpected {:?}", other),
    }
    match env.get_at(b, 1, "zz") {
        Err(LoxError::InternalError(m)) => {
            assert_eq!(m, "value matching zz not found in environment at depth 1")
        }
        other => panic!("unexpected {:?}", other),
    }
}

#[test]
fn sibling_scopes_do_not_see_each_other() {
    let mut env: Environment<i32> = Environment::new();
    let left = env.enclosed_by(GLOBAL_SCOPE);
    let right = env.enclosed_by(GLOBAL_SCOPE);
    env.define(left, "only_left", 1);
    assert!(env.get(right, "only_left").is_err());
    assert_eq!(env.get(left, "only_left").unwrap(), &1);
}

#[test]
fn a_resolved_use_reads_at_its_distance_and_others_read_globals() {
    let mut env: Environment<i32> = Environment::new();
    env.define(GLOBAL_SCOPE, "v", 1);
    let a = env.enclosed_by(GLOBAL_SCOPE);
    env.define(a, "v", 2);
    let b = env.enclosed_by(a);
    let mut locals: HashMap<usize, usize> = HashMap::new();
    locals.insert(7, 1);
    assert_eq!(env.look_up(&locals, 7, b, "v").unwrap(), &2);
    // Expression 8 was not resolved to a local: it reads the global.
    assert_eq!(env.look_up(&locals, 8, b, "v").unwrap(), &1);
    env.assign_resolved(&locals, 7, b, "v", 20).unwrap();
    env.assign_resolved(&locals, 8, b, "v", 10).unwrap();
    assert_eq!(env.get(a, "v").unwrap(), &20);
    assert_eq!(env.get(GLOBAL_SCOPE, "v").unwrap(), &10);
    match env.assign_resolved(&locals, 9, b, "undefined", 0) {
        Err(LoxError::UndefinedVariable(name)) => assert_eq!(name, "undefined"),
        other => panic!("unexpected {:?}", other),
    }
}
