use strata::scope::{Env, EnvError};

#[test]
fn defined_value_is_read_back() {
    let mut env: Env<i64> = Env::new();
    env.define("x".to_string(), 42, false);
    assert_eq!(env.get("x"), Some(&42));
    assert_eq!(env.get("y"), None);
}

#[test]
fn inner_scope_shadows_and_is_forgotten() {
    let mut env: Env<i64> = Env::default();
    env.define("x".to_string(), 1, false);
    env.push_scope();
    env.define("x".to_string(), 2, false);
    env.define("y".to_string(), 3, false);
    assert_eq!(env.get("x"), Some(&2));
    assert_eq!(env.get("y"), Some(&3));
    env.pop_scope().unwrap();
    assert_eq!(env.get("x"), Some(&1));
    assert_eq!(env.get("y"), None);
}

#[test]
fn assignment_needs_a_mutable_binding() {
    let mut env: Env<i64> = Env::new();
    env.define("x".to_string(), 1, false);
    env.define("m".to_string(), 1, true);
    let err = env.set("x", 5).unwrap_err();
    assert!(matches!(err, EnvError::Immutable { ref name } if name == "x"));
    assert_eq!(err.message(), "cannot assign to immutable variable `x`");
    assert_eq!(env.get("x"), Some(&1));
    env.set("m", 5).unwrap();
    assert_eq!(env.get("m"), Some(&5));
}

#[test]
fn assignment_reaches_the_innermost_binding() {
    let mut env: Env<i64> = Env::new();
    env.define("m".to_string(), 1, true);
    env.push_scope();
    env.set("m", 7).unwrap();
    env.pop_scope().unwrap();
    assert_eq!(env.get("m"), Some(&7));
}

#[test]
fn undefined_and_global_scope_errors() {
    let mut env: Env<i64> = Env::new();
    let err = env.set("z", 1).unwrap_err();
    assert_eq!(err.message(), "undefined variable `z`");
    let err = env.pop_scope().unwrap_err();
    assert!(matches!(err, EnvError::GlobalScope));
    assert_eq!(err.message(), "internal error: attempted to pop global scope");
}
