use velin_core::syntax::{Expr, StrPart};
use velin_core::types::{infer, Environment, Type};
use velin_core::value::{BinaryOp, Builtin, UnaryOp, Value};

fn integer(n: i64) -> Expr {
    Expr::Value(Value::Integer(n))
}

fn boolean(b: bool) -> Expr {
    Expr::Value(Value::Boolean(b))
}

fn text(s: &str) -> Expr {
    Expr::Value(Value::String(s.to_string()))
}

fn var(name: &str) -> Expr {
    Expr::Variable(name.to_string())
}

fn binary(left: Expr, op: BinaryOp, right: Expr) -> Expr {
    Expr::Binary { left: Box::new(left), op, right: Box::new(right) }
}

fn unary(op: UnaryOp, value: Expr) -> Expr {
    Expr::Unary { op, value: Box::new(value) }
}

fn call(function: Builtin, arguments: Vec<Expr>) -> Expr {
    Expr::Invoke { function, arguments }
}

fn list(items: Vec<Expr>) -> Expr {
    call(Builtin::List, items)
}

fn record(items: Vec<Expr>) -> Expr {
    call(Builtin::Record, items)
}

fn errors_for(expression: &Expr, env: &Environment) -> Vec<String> {
    let mut errors = Vec::new();
    infer(expression, env, &mut errors);
    errors.into_iter().map(|error| error.message).collect()
}

#[test]
fn provable_mismatches_are_reported() {
    let env = Environment::new();
    assert!(!errors_for(&binary(text("a"), BinaryOp::Add, integer(1)), &env).is_empty());
    assert!(!errors_for(&unary(UnaryOp::Not, integer(3)), &env).is_empty());
    assert!(!errors_for(&binary(integer(1), BinaryOp::Subtract, text("x")), &env).is_empty());
    assert!(!errors_for(&call(Builtin::Get, vec![list(vec![integer(1)]), text("key")]), &env).is_empty());
    assert!(!errors_for(&call(Builtin::Push, vec![record(vec![text("a"), integer(1)]), integer(2)]), &env)
        .is_empty());
}

#[test]
fn valid_expressions_have_no_errors() {
    let mut env = Environment::new();
    env.insert("hp", Type::Integer);
    assert!(errors_for(&binary(var("hp"), BinaryOp::Add, integer(1)), &env).is_empty());
    assert!(errors_for(&binary(text("a"), BinaryOp::Add, text("b")), &env).is_empty());
    assert!(errors_for(&call(Builtin::Len, vec![list(vec![integer(1), integer(2)])]), &env).is_empty());
    assert!(errors_for(
        &call(Builtin::Len, vec![list(vec![integer(1), integer(2), integer(3), integer(4), integer(5)])]),
        &env
    )
    .is_empty());
    assert!(errors_for(&call(Builtin::Get, vec![list(vec![integer(1), integer(2)]), integer(0)]), &env).is_empty());
    assert!(errors_for(&call(Builtin::Contains, vec![text("abc"), text("b")]), &env).is_empty());
    assert!(errors_for(&call(Builtin::Random, vec![integer(1), integer(6)]), &env).is_empty());
    assert!(errors_for(&call(Builtin::Chance, vec![integer(50)]), &env).is_empty());
    assert!(!errors_for(&call(Builtin::Random, vec![text("low"), integer(6)]), &env).is_empty());
    assert!(!errors_for(&call(Builtin::Chance, vec![boolean(false)]), &env).is_empty());
}

#[test]
fn constant_short_circuit_skips_unreachable_type_errors() {
    let env = Environment::new();
    let mismatch = || binary(integer(1), BinaryOp::Add, text("x"));
    assert!(errors_for(&binary(boolean(false), BinaryOp::And, mismatch()), &env).is_empty());
    assert!(errors_for(&binary(boolean(true), BinaryOp::Or, mismatch()), &env).is_empty());
    assert!(!errors_for(&binary(var("flag"), BinaryOp::And, mismatch()), &env).is_empty());
}

#[test]
fn contains_checks_record_and_string_keys() {
    let env = Environment::new();
    assert!(!errors_for(&call(Builtin::Contains, vec![text("abc"), integer(1)]), &env).is_empty());
    assert!(!errors_for(
        &call(Builtin::Contains, vec![record(vec![text("a"), integer(1)]), integer(1)]),
        &env
    )
    .is_empty());
    assert!(errors_for(&call(Builtin::Contains, vec![list(vec![integer(1)]), integer(1)]), &env).is_empty());
}

#[test]
fn unknown_variables_never_false_positive() {
    let env = Environment::new(); // everything is Unknown
    assert!(errors_for(&binary(var("mystery"), BinaryOp::Add, integer(1)), &env).is_empty());
    assert!(errors_for(&binary(var("if_flag"), BinaryOp::And, var("other")), &env).is_empty());
    assert!(errors_for(&call(Builtin::Get, vec![var("mystery"), var("key")]), &env).is_empty());
}

#[test]
fn every_type_and_builtin_path_is_reported() {
    assert_eq!(Type::Unknown.name(), "unknown");
    assert_eq!(Type::List.name(), "list");
    assert_eq!(Type::Record.name(), "record");
    assert_eq!(Type::of(&Value::List(Vec::new())), Type::List);
    assert_eq!(Type::of(&Value::Record(Vec::new())), Type::Record);

    let env = Environment::new();
    assert!(!errors_for(&unary(UnaryOp::Negate, text("x")), &env).is_empty());
    assert!(!errors_for(&binary(boolean(true), BinaryOp::Less, integer(1)), &env).is_empty());
    assert!(!errors_for(&binary(text("a"), BinaryOp::GreaterEqual, integer(3)), &env).is_empty());
    assert!(!errors_for(&call(Builtin::Len, vec![integer(1)]), &env).is_empty());
    assert!(!errors_for(&call(Builtin::Contains, vec![integer(1), integer(2)]), &env).is_empty());
    assert!(!errors_for(&record(vec![integer(1), integer(2)]), &env).is_empty());
    assert!(!errors_for(&call(Builtin::Put, vec![list(vec![integer(1)]), text("k"), integer(2)]), &env).is_empty());
    assert!(!errors_for(&call(Builtin::Remove, vec![list(vec![integer(1)]), text("k")]), &env).is_empty());
    assert!(errors_for(&call(Builtin::Put, vec![list(vec![integer(1)]), integer(0), integer(2)]), &env).is_empty());
    assert!(errors_for(&call(Builtin::Remove, vec![record(vec![text("a"), integer(1)]), text("a")]), &env)
        .is_empty());
    assert!(errors_for(&call(Builtin::Len, vec![text("ab")]), &env).is_empty());
    assert!(errors_for(&call(Builtin::Len, vec![record(vec![text("a"), integer(1)])]), &env).is_empty());
    assert!(errors_for(
        &call(Builtin::Contains, vec![record(vec![text("a"), integer(1)]), text("a")]),
        &env
    )
    .is_empty());
    let interpolation = Expr::Interpolate {
        parts: vec![
            StrPart::Literal("hello ".to_string()),
            StrPart::Hole(Box::new(binary(integer(1), BinaryOp::Subtract, boolean(true)))),
        ],
    };
    assert!(errors_for(&interpolation, &env).iter().any(|message| message.contains("arithmetic")));
    let hole = Expr::Interpolate { parts: vec![StrPart::Hole(Box::new(var("hp")))] };
    assert!(errors_for(&hole, &env).is_empty());

    let mut errors = Vec::new();
    let too_many_args = call(Builtin::Len, vec![integer(1), integer(2)]);
    infer(&too_many_args, &env, &mut errors);
    assert!(errors.iter().any(|error| error.message.contains("does not accept")));

    let mut errors = Vec::new();
    assert_eq!(infer(&call(Builtin::Get, Vec::new()), &env, &mut errors), Type::Unknown);

    let mut errors = Vec::new();
    assert_eq!(infer(&call(Builtin::Put, Vec::new()), &env, &mut errors), Type::Unknown);

    let mut errors = Vec::new();
    assert_eq!(infer(&call(Builtin::Remove, Vec::new()), &env, &mut errors), Type::Unknown);
}
