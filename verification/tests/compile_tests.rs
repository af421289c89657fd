use velin_core::compile::{compile_expression, compile_expression_into, fold_plan, ExprChunk, ExprOp};
use velin_core::slots::{SlotTable, RNG_STATE_SLOT};
use velin_core::syntax::{Expr, Span, StrPart};
use velin_core::value::{BinaryOp, Builtin, UnaryOp, Value};

fn integer(n: i64) -> Expr {
    Expr::Value(Value::Integer(n))
}

fn boolean(b: bool) -> Expr {
    Expr::Value(Value::Boolean(b))
}

fn var(name: &str) -> Expr {
    Expr::Variable(name.to_string())
}

fn binary(left: Expr, op: BinaryOp, right: Expr) -> Expr {
    Expr::Binary { left: Box::new(left), op, right: Box::new(right) }
}

fn call(function: Builtin, arguments: Vec<Expr>) -> Expr {
    Expr::Invoke { function, arguments }
}

/// `1 + 2 * 3`
fn seven() -> Expr {
    binary(integer(1), BinaryOp::Add, binary(integer(2), BinaryOp::Multiply, integer(3)))
}

/// `hp - 10 > 0 and (level * 2 + 5) <= 100 or defeated == false`
fn guard() -> Expr {
    let alive = binary(binary(var("hp"), BinaryOp::Subtract, integer(10)), BinaryOp::Greater, integer(0));
    let capped = binary(
        binary(binary(var("level"), BinaryOp::Multiply, integer(2)), BinaryOp::Add, integer(5)),
        BinaryOp::LessEqual,
        integer(100),
    );
    let standing = binary(var("defeated"), BinaryOp::Equal, boolean(false));
    binary(binary(alive, BinaryOp::And, capped), BinaryOp::Or, standing)
}

fn x_plus_two_plus_two() -> Expr {
    binary(binary(var("x"), BinaryOp::Add, integer(2)), BinaryOp::Add, integer(2))
}

#[test]
fn expr_constants_are_deduplicated() {
    let mut slots = SlotTable::new();
    let chunk = compile_expression(&x_plus_two_plus_two(), &mut slots, 1);
    assert_eq!(chunk.constants.len(), 1);
    assert_eq!(chunk.ops.len(), 5);
}

#[test]
fn expr_tests_constants_are_deduplicated() {
    let mut slots = SlotTable::new();
    let chunk = compile_expression(&x_plus_two_plus_two(), &mut slots, 1);
    assert_eq!(chunk.constants.len(), 1);
    assert_eq!(chunk.ops.len(), 5);
}

#[test]
fn expr_folds_successful_constant_subtrees_but_preserves_runtime_errors() {
    let mut slots = SlotTable::new();
    let chunk = compile_expression(&seven(), &mut slots, 1);
    assert_eq!(chunk.ops, vec![ExprOp::Const(0)]);
    assert_eq!(chunk.constants, vec![Value::Integer(7)]);

    let dynamic = binary(var("x"), BinaryOp::Add, binary(integer(2), BinaryOp::Multiply, integer(3)));
    let chunk = compile_expression(&dynamic, &mut slots, 1);
    assert_eq!(chunk.ops.len(), 3);
    assert_eq!(chunk.constants, vec![Value::Integer(6)]);

    let failing = binary(integer(1), BinaryOp::Divide, integer(0));
    let chunk = compile_expression(&failing, &mut slots, 1);
    assert!(matches!(chunk.ops.last(), Some(ExprOp::Binary(BinaryOp::Divide))));

    let short = binary(boolean(false), BinaryOp::And, var("missing"));
    let chunk = compile_expression(&short, &mut slots, 1);
    assert_eq!(chunk.constants, vec![Value::Boolean(false)]);
    assert_eq!(chunk.ops, vec![ExprOp::Const(0)]);
}

#[test]
fn expr_tests_folds_successful_constant_subtrees_but_preserves_runtime_errors() {
    let mut slots = SlotTable::new();
    let chunk = compile_expression(&seven(), &mut slots, 1);
    assert_eq!(chunk.ops, vec![ExprOp::Const(0)]);
    assert_eq!(chunk.constants, vec![Value::Integer(7)]);

    let dynamic = binary(var("x"), BinaryOp::Add, binary(integer(2), BinaryOp::Multiply, integer(3)));
    let chunk = compile_expression(&dynamic, &mut slots, 1);
    assert_eq!(chunk.ops.len(), 3);
    assert_eq!(chunk.constants, vec![Value::Integer(6)]);

    let failing = binary(integer(1), BinaryOp::Divide, integer(0));
    let chunk = compile_expression(&failing, &mut slots, 1);
    assert!(matches!(chunk.ops.last(), Some(ExprOp::Binary(BinaryOp::Divide))));

    let short = binary(boolean(false), BinaryOp::And, var("missing"));
    let chunk = compile_expression(&short, &mut slots, 1);
    assert_eq!(chunk.constants, vec![Value::Boolean(false)]);
    assert_eq!(chunk.ops, vec![ExprOp::Const(0)]);
}

#[test]
fn expr_dynamic_expressions_without_constant_subtrees_skip_the_fold_plan() {
    assert!(fold_plan(&guard(), 1).is_empty());
}

#[test]
fn expr_tests_dynamic_expressions_without_constant_subtrees_skip_the_fold_plan() {
    assert!(fold_plan(&guard(), 1).is_empty());
    // A foldable subtree makes a plan with one entry per node.
    assert_eq!(fold_plan(&seven(), 1).len(), 5);
}

fn random_of_sum() -> Expr {
    call(Builtin::Random, vec![binary(integer(1), BinaryOp::Add, integer(2)), integer(6)])
}

#[test]
fn expr_folds_pure_arguments_but_not_random_calls() {
    let mut slots = SlotTable::new();
    let chunk = compile_expression(&random_of_sum(), &mut slots, 1);
    assert_eq!(chunk.constants, vec![Value::Integer(3), Value::Integer(6)]);
    assert!(matches!(chunk.ops.last(), Some(ExprOp::Random { .. })));
}

#[test]
fn expr_tests_folds_pure_arguments_but_not_random_calls() {
    let mut slots = SlotTable::new();
    let chunk = compile_expression(&random_of_sum(), &mut slots, 1);
    assert_eq!(chunk.constants, vec![Value::Integer(3), Value::Integer(6)]);
    assert!(matches!(chunk.ops.last(), Some(ExprOp::Random { .. })));
}

fn answer() -> Expr {
    Expr::Interpolate {
        parts: vec![
            StrPart::Literal("answer ".to_string()),
            StrPart::Hole(Box::new(binary(integer(1), BinaryOp::Add, integer(2)))),
        ],
    }
}

#[test]
fn expr_folds_constant_interpolation_without_building_an_ast_copy() {
    let mut slots = SlotTable::new();
    let chunk = compile_expression(&answer(), &mut slots, 1);
    assert_eq!(chunk.ops, vec![ExprOp::Const(0)]);
    assert_eq!(chunk.constants, vec![Value::String("answer 3".into())]);
}

#[test]
fn expr_tests_folds_constant_interpolation_without_building_an_ast_copy() {
    let mut slots = SlotTable::new();
    let chunk = compile_expression(&answer(), &mut slots, 1);
    assert_eq!(chunk.ops, vec![ExprOp::Const(0)]);
    assert_eq!(chunk.constants, vec![Value::String("answer 3".into())]);
}

fn hp_minus_hp() -> Expr {
    binary(var("hp"), BinaryOp::Subtract, var("hp"))
}

#[test]
fn expr_variables_are_interned_into_slots() {
    let mut slots = SlotTable::new();
    let chunk = compile_expression(&hp_minus_hp(), &mut slots, 1);
    assert_eq!(slots.len(), 1); // both loads share one slot
    assert!(matches!(chunk.ops[0], ExprOp::Load { slot: 0, .. }));
    assert!(matches!(chunk.ops[1], ExprOp::Load { slot: 0, .. }));
}

#[test]
fn expr_tests_variables_are_interned_into_slots() {
    let mut slots = SlotTable::new();
    let chunk = compile_expression(&hp_minus_hp(), &mut slots, 1);
    assert_eq!(slots.len(), 1);
    assert!(matches!(chunk.ops[0], ExprOp::Load { slot: 0, .. }));
    assert!(matches!(chunk.ops[1], ExprOp::Load { slot: 0, .. }));
}

fn a_op_b(op: BinaryOp) -> Expr {
    binary(var("a"), op, var("b"))
}

#[test]
fn expr_and_emits_a_forward_guard_over_the_right_operand() {
    let mut slots = SlotTable::new();
    let chunk = compile_expression(&a_op_b(BinaryOp::And), &mut slots, 1);
    // Load a, JumpIfFalse END, Load b, Binary And -> END == 4
    match chunk.ops[1] {
        ExprOp::JumpIfFalse(target) => assert_eq!(target as usize, chunk.ops.len()),
        ref other => panic!("expected JumpIfFalse guard, got {other:?}"),
    }
}

#[test]
fn expr_tests_and_emits_a_forward_guard_over_the_right_operand() {
    let mut slots = SlotTable::new();
    let chunk = compile_expression(&a_op_b(BinaryOp::And), &mut slots, 1);
    match chunk.ops[1] {
        ExprOp::JumpIfFalse(target) => assert_eq!(target as usize, chunk.ops.len()),
        ref other => panic!("expected JumpIfFalse guard, got {other:?}"),
    }
}

#[test]
fn expr_or_emits_a_jump_if_true_guard() {
    let mut slots = SlotTable::new();
    let chunk = compile_expression(&a_op_b(BinaryOp::Or), &mut slots, 1);
    match chunk.ops[1] {
        ExprOp::JumpIfTrue(target) => assert_eq!(target as usize, chunk.ops.len()),
        ref other => panic!("expected JumpIfTrue guard, got {other:?}"),
    }
}

#[test]
fn expr_tests_or_emits_a_jump_if_true_guard() {
    let mut slots = SlotTable::new();
    let chunk = compile_expression(&a_op_b(BinaryOp::Or), &mut slots, 1);
    match chunk.ops[1] {
        ExprOp::JumpIfTrue(target) => assert_eq!(target as usize, chunk.ops.len()),
        ref other => panic!("expected JumpIfTrue guard, got {other:?}"),
    }
}

fn check_shared_rng_slot() {
    let mut slots = SlotTable::new();
    let random = call(Builtin::Random, vec![integer(1), integer(6)]);
    let chance = call(Builtin::Chance, vec![integer(25)]);
    let random_chunk = compile_expression(&random, &mut slots, 1);
    let chance_chunk = compile_expression(&chance, &mut slots, 2);
    let state_slot = slots.rng_state().expect("RNG slot allocated");
    assert!(matches!(
        random_chunk.ops.last(),
        Some(ExprOp::Random { state_slot: slot }) if *slot == state_slot
    ));
    assert!(matches!(
        chance_chunk.ops.last(),
        Some(ExprOp::Chance { state_slot: slot }) if *slot == state_slot
    ));
    assert_eq!(slots.names().iter().filter(|name| name.as_str() == RNG_STATE_SLOT).count(), 1);
}

#[test]
fn expr_random_builtins_emit_dedicated_ops_with_one_shared_state_slot() {
    check_shared_rng_slot();
}

#[test]
fn expr_tests_random_builtins_emit_dedicated_ops_with_one_shared_state_slot() {
    check_shared_rng_slot();
}

#[test]
fn lowering_keeps_evaluation_order_and_annotated_columns() {
    let mut slots = SlotTable::new();
    // not (hp < 3), with `hp` annotated at column 5
    let spanned = Expr::Spanned { span: Span { line: 1, column: 5 }, expression: Box::new(var("hp")) };
    let expression = Expr::Unary { op: UnaryOp::Not, value: Box::new(binary(spanned, BinaryOp::Less, integer(3))) };
    let chunk = compile_expression(&expression, &mut slots, 9);
    assert_eq!(chunk.line, 9);
    assert_eq!(
        chunk.ops,
        vec![
            ExprOp::Load { slot: 0, column: 5 },
            ExprOp::Const(0),
            ExprOp::Binary(BinaryOp::Less),
            ExprOp::Unary(UnaryOp::Not),
        ]
    );
    // Interpolation pushes text and holes, then concatenates them.
    let greeting = Expr::Interpolate {
        parts: vec![StrPart::Literal("hi ".to_string()), StrPart::Hole(Box::new(var("name")))],
    };
    let mut chunk = ExprChunk::new(1);
    compile_expression_into(&greeting, &mut slots, 3, &mut chunk);
    assert_eq!(chunk.line, 3);
    assert_eq!(chunk.ops, vec![ExprOp::Const(0), ExprOp::Load { slot: 1, column: 1 }, ExprOp::Concat(2)]);
    assert_eq!(chunk.constants, vec![Value::String("hi ".to_string())]);
    // Calls pass their argument count.
    let length = call(Builtin::Len, vec![var("name")]);
    let chunk = compile_expression(&length, &mut slots, 1);
    assert_eq!(chunk.ops, vec![ExprOp::Load { slot: 1, column: 1 }, ExprOp::Call { function: Builtin::Len, argc: 1 }]);
}

#[test]
fn compiled_code_is_exact_for_folded_and_guarded_expressions() {
    let mut slots = SlotTable::new();
    let folded = compile_expression(&seven(), &mut slots, 1);
    assert_eq!(folded.ops, vec![ExprOp::Const(0)]);
    assert_eq!(folded.constants, vec![Value::Integer(7)]);
    let failing = compile_expression(&binary(integer(1), BinaryOp::Divide, integer(0)), &mut slots, 1);
    assert_eq!(failing.ops, vec![ExprOp::Const(0), ExprOp::Const(1), ExprOp::Binary(BinaryOp::Divide)]);
    assert_eq!(failing.constants, vec![Value::Integer(1), Value::Integer(0)]);
    assert!(slots.is_empty());

    let guarded = compile_expression(&binary(var("a"), BinaryOp::And, var("b")), &mut slots, 1);
    assert_eq!(
        guarded.ops,
        vec![
            ExprOp::Load { slot: 0, column: 1 },
            ExprOp::JumpIfFalse(4),
            ExprOp::Load { slot: 1, column: 1 },
            ExprOp::Binary(BinaryOp::And),
        ]
    );
    assert!(guarded.constants.is_empty());
    assert_eq!(slots.names(), &["a".to_string(), "b".to_string()]);
}

#[test]
fn repeated_values_and_names_share_one_entry() {
    let mut slots = SlotTable::new();
    slots.intern("b");
    let expression = binary(
        binary(var("a"), BinaryOp::Add, var("b")),
        BinaryOp::Add,
        binary(var("a"), BinaryOp::Add, binary(var("x"), BinaryOp::Add, integer(2))),
    );
    let chunk = compile_expression(&expression, &mut slots, 3);
    assert_eq!(slots.names(), &["b".to_string(), "a".to_string(), "x".to_string()]);
    assert_eq!(chunk.constants, vec![Value::Integer(2)]);
    assert_eq!(chunk.ops[0], ExprOp::Load { slot: 1, column: 1 });
    assert_eq!(chunk.ops[1], ExprOp::Load { slot: 0, column: 1 });
    assert_eq!(chunk.ops[3], ExprOp::Load { slot: 1, column: 1 });
}
