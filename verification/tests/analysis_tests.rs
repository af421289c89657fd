use velin_core::abstract_eval::{abstract_step, reachable_loads, AbstractValue, ExpressionWorkspace};
use velin_core::bytecode::{ExprChunk, ExprOp};
use velin_core::debug::{DebugLocation, DebugTable};
use velin_core::flow::{apply_transfer, merge_into, HostSignature, HostSignatures, TypeCheckKind};
use velin_core::ir::{IrOp, IrTerminator, TypedIr};
use velin_core::loads::LoadSet;
use velin_core::program::{Op, Program, UpdateOp};
use velin_core::slots::SlotTable;
use velin_core::types::Type;
use velin_core::value::{BinaryOp, Value};

fn chunk(ops: Vec<ExprOp>, constants: Vec<Value>, registers: u16) -> ExprChunk {
    ExprChunk { ops, constants, registers, result: 0, line: 3 }
}

#[test]
fn constant_short_circuits_skip_unreachable_loads() {
    // false and x: the load of x is never reached.
    let skipped = chunk(
        vec![
            ExprOp::Const { dst: 0, constant: 0 },
            ExprOp::JumpIfFalse { condition: 0, target: 3 },
            ExprOp::Load { dst: 0, slot: 4, column: 9 },
        ],
        vec![Value::Boolean(false)],
        1,
    );
    let mut workspace = ExpressionWorkspace::new();
    let loads = reachable_loads(&skipped.as_chunk_ref(), &mut workspace);
    assert!(loads.as_slice().is_empty());

    let taken = chunk(
        vec![
            ExprOp::Load { dst: 1, slot: 2, column: 1 },
            ExprOp::JumpIfFalse { condition: 1, target: 3 },
            ExprOp::Load { dst: 0, slot: 1, column: 7 },
            ExprOp::Load { dst: 0, slot: 1, column: 7 },
        ],
        Vec::new(),
        2,
    );
    let loads = reachable_loads(&taken.as_chunk_ref(), &mut workspace);
    assert_eq!(loads.as_slice(), &[(1, 7), (2, 1)]);
}

#[test]
fn abstract_steps_follow_known_booleans() {
    let c = chunk(
        vec![
            ExprOp::Const { dst: 0, constant: 0 },
            ExprOp::JumpIfTrue { condition: 0, target: 3 },
            ExprOp::Unary { dst: 0, op: velin_core::value::UnaryOp::Negate, source: 0 },
        ],
        vec![Value::Boolean(true)],
        1,
    );
    let r = c.as_chunk_ref();
    let mut loads = LoadSet::new();
    let after = abstract_step(&r, 0, vec![AbstractValue::Unknown], &mut loads);
    assert_eq!(after, vec![(1, vec![AbstractValue::Boolean(Some(true))])]);
    let jumped = abstract_step(&r, 1, vec![AbstractValue::Boolean(Some(true))], &mut loads);
    assert_eq!(jumped, vec![(3, vec![AbstractValue::Boolean(Some(true))])]);
    let both = abstract_step(&r, 1, vec![AbstractValue::Unknown], &mut loads);
    assert_eq!(both.len(), 2);
    let fails = abstract_step(&r, 2, vec![AbstractValue::Boolean(None)], &mut loads);
    assert!(fails.is_empty());
}

#[test]
fn conditional_jumps_follow_their_condition_without_a_load_set() {
    let c = chunk(
        vec![
            ExprOp::JumpIfFalse { condition: 0, target: 2 },
            ExprOp::Const { dst: 0, constant: 0 },
        ],
        vec![Value::Integer(1)],
        1,
    );
    let r = c.as_chunk_ref();
    let mut loads = LoadSet::Uncomputed;
    let registers = vec![AbstractValue::Boolean(Some(false))];
    assert_eq!(abstract_step(&r, 0, registers.clone(), &mut loads), vec![(2, registers)]);
    let registers = vec![AbstractValue::Boolean(Some(true))];
    assert_eq!(abstract_step(&r, 0, registers.clone(), &mut loads), vec![(1, registers)]);
    let registers = vec![AbstractValue::NonBoolean];
    assert_eq!(abstract_step(&r, 0, registers.clone(), &mut loads), vec![(1, registers)]);
    let registers = vec![AbstractValue::Unknown];
    assert_eq!(abstract_step(&r, 0, registers.clone(), &mut loads), vec![(2, registers.clone()), (1, registers)]);
    assert!(matches!(loads, LoadSet::Uncomputed));
    // Registers outside the file read as unknown.
    assert_eq!(abstract_step(&r, 0, Vec::new(), &mut loads), vec![(2, Vec::new()), (1, Vec::new())]);
}

#[test]
fn typed_ir_splits_blocks_at_branches_and_numbers_values() {
    let mut slots = SlotTable::new();
    let value = slots.intern("value");
    let program = Program::from_chunks(
        vec![
            Op::SetConst { slot: value, value: Value::Integer(1), line: 1 },
            Op::Jump(3),
            Op::SetConst { slot: value, value: Value::Integer(2), line: 2 },
            Op::Halt,
        ],
        Vec::new(),
        slots,
    );
    let mut ir = TypedIr::from_program(&program);
    ir.optimize();
    assert_eq!(ir.entry(), 0);
    assert_eq!(ir.value_count(), 2);
    let blocks = ir.blocks();
    assert_eq!(blocks.len(), 3);
    assert_eq!((blocks[0].start_pc, blocks[1].start_pc, blocks[2].start_pc), (0, 2, 3));
    assert_eq!(blocks[0].terminator, IrTerminator::Jump(2));
    assert_eq!(blocks[1].terminator, IrTerminator::Fallthrough(2));
    assert_eq!(blocks[2].terminator, IrTerminator::Halt);
    assert_eq!((blocks[0].reachable, blocks[1].reachable, blocks[2].reachable), (true, false, true));
    assert_eq!(blocks[0].operations.len(), 2);
}

#[test]
fn keeps_reachability_and_ssa_values_bounded_for_empty_programs() {
    let program = Program::from_chunks(Vec::new(), Vec::new(), SlotTable::new());
    let ir = TypedIr::from_program(&program);
    assert_eq!(ir.entry(), 0);
    assert_eq!(ir.blocks().len(), 1);
    assert!(ir.blocks()[0].reachable);
    assert_eq!(ir.blocks()[0].start_pc, 0);
    assert!(ir.blocks()[0].operations.is_empty());
    assert_eq!(ir.blocks()[0].terminator, IrTerminator::Halt);
    assert_eq!(ir.value_count(), 0);
}

#[test]
fn host_signatures_answer_arity_and_argument_types() {
    let exact = HostSignature::exact(vec![Type::String, Type::Integer], Some(Type::Boolean));
    assert!(exact.accepts(2) && !exact.accepts(3));
    assert_eq!(exact.argument(1), Some(Type::Integer));
    assert_eq!(exact.argument(2), None);
    assert_eq!(exact.return_type(), Some(Type::Boolean));
    assert_eq!(exact.minimum_arguments(), 2);
    assert!(!exact.is_variadic());
    let variadic = HostSignature::variadic(vec![Type::String], Type::Unknown, None);
    assert!(variadic.accepts(1) && variadic.accepts(5) && !variadic.accepts(0));
    assert_eq!(variadic.argument(4), Some(Type::Unknown));
    assert_eq!(variadic.variadic_type(), Some(Type::Unknown));
    assert_eq!(variadic.arguments(), &[Type::String]);
    assert_ne!(TypeCheckKind::Condition, TypeCheckKind::Assignment);
}

#[test]
fn merging_keeps_only_agreeing_types() {
    let mut target = None;
    assert!(merge_into(&mut target, &[Type::Integer, Type::String]));
    assert!(!merge_into(&mut target, &[Type::Integer, Type::String]));
    assert!(merge_into(&mut target, &[Type::Integer, Type::Boolean]));
    assert_eq!(target, Some(vec![Type::Integer, Type::Unknown]));
}

#[test]
fn transfers_assign_types_and_host_results() {
    let mut hosts = HostSignatures::new();
    hosts.insert(7, HostSignature::exact(Vec::new(), Some(Type::Integer)));
    let mut state = vec![Type::Unknown, Type::Unknown];
    apply_transfer(&Op::SetSlot { slot: 0, value: 0 }, Some(Type::String), &hosts, &mut state);
    apply_transfer(&Op::host(7, Vec::new(), Some(1), 1), None, &hosts, &mut state);
    assert_eq!(state, vec![Type::String, Type::Integer]);
    apply_transfer(&Op::host(8, Vec::new(), Some(0), 1), None, &hosts, &mut state);
    assert_eq!(state, vec![Type::Unknown, Type::Integer]);
}

#[test]
fn debug_tables_locate_chunks_ops_and_columns() {
    let mut slots = SlotTable::new();
    let target = slots.intern("target");
    let program = Program::from_chunks(
        vec![
            Op::SetSlot { slot: target, value: 0 },
            Op::CopySlot { slot: target, source: target, line: 4, column: 12 },
            Op::Update { slot: target, operation: UpdateOp::AddInteger { value: 1 }, line: 5, column: 3 },
            Op::host(9, Vec::new(), None, 6),
            Op::SetSlot { slot: target, value: 7 },
            Op::Halt,
        ],
        vec![chunk(vec![ExprOp::Load { dst: 0, slot: 0, column: 8 }], Vec::new(), 1)],
        slots,
    );
    let table = DebugTable::from_program(&program);
    assert_eq!(table.chunk(0), Some(DebugLocation { line: 3, column: 0 }));
    assert_eq!(table.chunk(1), None);
    assert_eq!(table.op(0), Some(DebugLocation { line: 3, column: 0 }));
    assert_eq!(table.op(1), Some(DebugLocation { line: 4, column: 12 }));
    assert_eq!(table.op(3), Some(DebugLocation { line: 6, column: 0 }));
    assert_eq!(table.op(4), Some(DebugLocation { line: 0, column: 0 }));
    assert_eq!(table.expression_column(0), Some(8));
    assert_eq!(table.expression_column(1), None);
    assert_eq!(table.len(), 1 + 6 + 1);
    assert!(!table.is_empty());
    let _ = BinaryOp::Add;
}

#[test]
fn builds_reachable_typed_blocks_and_ssa_values() {
    let mut slots = SlotTable::new();
    let value = slots.intern("value");
    let program = Program::from_chunks(
        vec![
            Op::SetConst { slot: value, value: Value::Integer(1), line: 1 },
            Op::Jump(3),
            Op::SetConst { slot: value, value: Value::Integer(2), line: 2 },
            Op::Halt,
        ],
        vec![chunk(vec![ExprOp::Const { dst: 0, constant: 0 }], vec![Value::Integer(0)], 1)],
        slots,
    );
    let mut ir = TypedIr::from_program(&program);
    ir.optimize();
    assert!(ir.blocks().iter().any(|block| block.reachable));
    assert!(ir.value_count() >= 2);
    assert_eq!(ir.entry(), 0);
}

#[test]
fn lowers_copy_set_host_and_integer_compare_ops() {
    let mut slots = SlotTable::new();
    let source = slots.intern("source");
    let target = slots.intern("target");
    let program = Program::from_chunks(
        vec![
            Op::SetConst { slot: source, value: Value::Integer(1), line: 1 },
            Op::CopySlot { slot: target, source, line: 2, column: 1 },
            Op::SetSlot { slot: target, value: 0 },
            Op::host(1, Vec::new(), Some(target), 3),
            Op::JumpIfIntegerCompare {
                condition: 0,
                slot: source,
                comparison: BinaryOp::Equal,
                value: 1,
                target: 6,
            },
            Op::Update { slot: source, operation: UpdateOp::AddInteger { value: 1 }, line: 4, column: 1 },
            Op::Halt,
        ],
        vec![chunk(vec![ExprOp::Const { dst: 0, constant: 0 }], vec![Value::Integer(1)], 1)],
        slots,
    );
    let ir = TypedIr::from_program(&program);
    assert!(ir.value_count() > 0);
    assert_eq!(ir.entry(), 0);
    assert!(!ir.blocks().is_empty());
    assert!(ir
        .blocks()
        .iter()
        .any(|block| block.operations.iter().any(|operation| matches!(operation, IrOp::Slot { .. }))));
}
