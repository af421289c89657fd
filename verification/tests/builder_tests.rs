use velin_core::builder::ProgramBuilder;
use velin_core::program::Op;
use velin_core::syntax::Expr;
use velin_core::value::{BinaryOp, Builtin, Value};

#[test]
fn builder_shares_slots_across_expressions() {
    let mut builder = ProgramBuilder::new();
    let hp = builder.slot("hp");
    let e1 = builder.expr(&Expr::Variable("hp".into()), 1);
    let e2 = builder.expr(
        &Expr::Binary {
            left: Box::new(Expr::Variable("hp".into())),
            op: BinaryOp::Subtract,
            right: Box::new(Expr::Value(Value::Integer(1))),
        },
        2,
    );
    assert_ne!(e1, e2);
    let program = builder.build();
    assert_eq!(program.slots.get("hp"), Some(hp));
    assert!(matches!(program.ops.last(), Some(Op::Halt)));
    assert_eq!(program.chunks.len(), 2);
    assert_eq!(program.expr_ops.len(), 4);
    assert_eq!(program.chunk(e1).unwrap().ops.len(), 1);
    assert_eq!(program.chunk(e2).unwrap().ops.len(), 3);
}

#[test]
fn builder_specializes_constant_copies_and_integer_guards() {
    let mut builder = ProgramBuilder::new();
    let source = builder.slot("source");
    let target = builder.slot("target");

    let constant = builder.set_op(target, &Expr::Value(Value::Integer(7)), 2);
    assert!(matches!(
        constant,
        Op::SetConst {
            slot,
            value: Value::Integer(7),
            line: 2
        } if slot == target
    ));
    let copy = builder.set_op(target, &Expr::Variable("source".into()), 3);
    assert!(matches!(
        copy,
        Op::CopySlot {
            slot,
            source: copy_source,
            line: 3,
            ..
        } if slot == target && copy_source == source
    ));
    assert!(builder.chunks().is_empty());

    let comparison = Expr::Binary {
        left: Box::new(Expr::Variable("source".into())),
        op: BinaryOp::Less,
        right: Box::new(Expr::Value(Value::Integer(10))),
    };
    let guard = builder.jump_if_false_op(&comparison, 4, 9);
    assert!(matches!(
        guard,
        Op::JumpIfIntegerCompare {
            slot,
            comparison: BinaryOp::Less,
            value: 10,
            target: 9,
            ..
        } if slot == source
    ));
    assert_eq!(builder.chunks().len(), 1);
}

#[test]
fn builder_does_not_propagate_random_expressions() {
    let mut builder = ProgramBuilder::new();
    let target = builder.slot("target");
    let initial = builder.set_op(target, &Expr::Value(Value::Integer(1)), 1);
    builder.push(initial);
    let random = Expr::Invoke {
        function: Builtin::Random,
        arguments: vec![Expr::Value(Value::Integer(1)), Expr::Value(Value::Integer(2))],
    };
    let operation = builder.set_op(target, &random, 2);
    assert!(matches!(operation, Op::SetSlot { .. }));
}

#[test]
fn builder_folds_constant_guards_and_threads_jump_chains() {
    let mut builder = ProgramBuilder::new();
    let condition = builder.expr(&Expr::Value(Value::Boolean(false)), 1);
    builder.push(Op::JumpIfFalse { condition, target: 1 });
    builder.push(Op::Jump(3));
    builder.push(Op::Halt);
    builder.push(Op::Halt);
    let program = builder.build();
    assert_eq!(program.ops[0], Op::Jump(3));

    let mut cyclic = ProgramBuilder::new();
    cyclic.push(Op::Jump(1));
    cyclic.push(Op::Jump(0));
    let program = cyclic.build();
    assert_eq!(program.ops, vec![Op::Jump(1), Op::Jump(0)]);
}

#[test]
fn true_guards_fall_through_and_guards_with_computed_conditions_stay() {
    let mut builder = ProgramBuilder::new();
    let flag = builder.slot("flag");
    let always = builder.expr(&Expr::Value(Value::Boolean(true)), 1);
    let computed = builder.expr(&Expr::Variable("flag".into()), 2);
    builder.push(Op::JumpIfFalse { condition: always, target: 3 });
    builder.push(Op::JumpIfFalse { condition: computed, target: 4 });
    builder.push(Op::SetConst { slot: flag, value: Value::Integer(1), line: 3 });
    builder.push(Op::Jump(4));
    builder.push(Op::Jump(5));
    builder.push(Op::SetConst { slot: flag, value: Value::Integer(2), line: 4 });
    let program = builder.build();
    assert_eq!(
        program.ops,
        vec![
            Op::Jump(1),
            Op::JumpIfFalse { condition: computed, target: 5 },
            Op::SetConst { slot: flag, value: Value::Integer(1), line: 3 },
            Op::Jump(5),
            Op::Jump(5),
            Op::SetConst { slot: flag, value: Value::Integer(2), line: 4 },
            Op::Halt,
        ]
    );
}

#[test]
fn patching_retargets_conditional_jumps() {
    let mut builder = ProgramBuilder::new();
    let guard = builder.jump_if_false_op(&Expr::Variable("ready".into()), 1, 0);
    let pc = builder.push(guard);
    assert_eq!(builder.here(), 1);
    builder.push(Op::Halt);
    builder.patch_condition_target(pc, 2);
    builder.patch(1, Op::Jump(2));
    let program = builder.build();
    // The last instruction is a jump, so no `Halt` is added.
    assert_eq!(program.ops, vec![Op::JumpIfFalse { condition: 0, target: 2 }, Op::Jump(2)]);
}
