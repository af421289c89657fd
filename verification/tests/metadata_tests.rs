use velin_core::bytecode::{ExprChunk, ExprOp};
use velin_core::metadata::{ExecutionMetadata, OpExecutionMetadata, QuickenedOperand};
use velin_core::program::{HostOp, Op, Program, UpdateOp};
use velin_core::slots::SlotTable;
use velin_core::validate::ValidatedProgram;
use velin_core::value::{Builtin, DataFootprint, DataMetrics, Value};

fn chunk(ops: Vec<ExprOp>, constants: Vec<Value>, registers: u16, result: u16, line: u32) -> ExprChunk {
    ExprChunk { ops, constants, registers, result, line }
}

fn metrics(values: usize, text_bytes: usize, max_depth: usize) -> DataMetrics {
    DataMetrics { footprint: DataFootprint { values, text_bytes }, max_depth }
}

fn sample() -> Program {
    let mut slots = SlotTable::new();
    let x = slots.intern("x");
    let rng = slots.intern_rng_state();
    Program::from_chunks(
        vec![
            Op::SetConst { slot: x, value: Value::String("abc".to_string()), line: 2 },
            Op::SetSlot { slot: x, value: 0 },
            Op::Update { slot: x, operation: UpdateOp::Add { rhs: 1 }, line: 9, column: 4 },
            Op::Update { slot: x, operation: UpdateOp::AddInteger { value: 1 }, line: 10, column: 4 },
            Op::JumpIfFalse { condition: 2, target: 6 },
            Op::Host(Box::new(HostOp { host_id: 3, args: vec![0], bind: None, line: 12 })),
            Op::Jump(0),
            Op::Halt,
        ],
        vec![
            // A single constant: its metrics are cached.
            chunk(vec![ExprOp::Const { dst: 0, constant: 0 }], vec![Value::Integer(5)], 1, 0, 3),
            // A single load: the result has the slot's metrics.
            chunk(vec![ExprOp::Load { dst: 0, slot: x, column: 1 }], Vec::new(), 1, 0, 4),
            // len(x, ...) over a constant and a slot: quickened.
            chunk(
                vec![
                    ExprOp::Const { dst: 0, constant: 0 },
                    ExprOp::Load { dst: 1, slot: x, column: 2 },
                    ExprOp::Call { dst: 2, function: Builtin::Contains, args: 0..2 },
                ],
                vec![Value::Integer(1)],
                3,
                2,
                5,
            ),
            // A random draw writes the random state.
            chunk(
                vec![
                    ExprOp::Const { dst: 0, constant: 0 },
                    ExprOp::Const { dst: 1, constant: 1 },
                    ExprOp::Random { dst: 2, args: 0..2, state_slot: rng },
                ],
                vec![Value::Integer(1), Value::Integer(6)],
                3,
                2,
                6,
            ),
        ],
        slots,
    )
}

#[test]
fn op_metadata_reports_lines_and_set_const_metrics() {
    let program = sample();
    let metadata = ExecutionMetadata::new(&program);
    let lines: Vec<u32> = (0..8).map(|pc| metadata.op(pc).unwrap().line).collect();
    assert_eq!(lines, vec![2, 3, 4, 10, 5, 12, 0, 0]);
    assert_eq!(metadata.op(8), None);
    assert_eq!(metadata.op(0), Some(OpExecutionMetadata { line: 2 }));
    assert_eq!(metadata.op_constant_metrics(0), Some(metrics(1, 3, 0)));
    assert_eq!(metadata.op_constant_metrics(1), None);
    assert_eq!(metadata.op_constant_metrics(99), None);
}

#[test]
fn chunk_metadata_caches_constants_loads_calls_and_draws() {
    let program = sample();
    let metadata = ExecutionMetadata::new(&program);
    let single = metadata.chunk(0).unwrap();
    assert!(!single.mutates_frame && !single.inherits_slot_metrics);
    assert_eq!(metadata.chunk_constant_metrics(0), Some(metrics(1, 0, 0)));
    assert!(metadata.quickened_call(0).is_none());

    let load = metadata.chunk(1).unwrap();
    assert!(load.inherits_slot_metrics && !load.mutates_frame);
    assert_eq!(metadata.chunk_constant_metrics(1), None);

    let call = metadata.quickened_call(2).unwrap();
    assert_eq!(call.function, Builtin::Contains);
    assert_eq!(call.operands, vec![QuickenedOperand::Constant(1), QuickenedOperand::Slot(0)]);
    assert_eq!(call.line, 5);
    assert_eq!(metadata.chunk_constant_metrics(2), None);

    let draw = metadata.chunk(3).unwrap();
    assert!(draw.mutates_frame);
    assert!(metadata.quickened_call(3).is_none());
    assert_eq!(metadata.chunk(4), None);
}

#[test]
fn program_constant_metrics_cover_the_whole_arena() {
    let program = sample();
    let metadata = ExecutionMetadata::new(&program);
    assert_eq!(metadata.program_constant_metrics().len(), program.constants.len());
    assert!(metadata.program_constant_metrics().iter().all(|m| *m == metrics(1, 0, 0)));
}

#[test]
fn calls_with_computed_operands_are_not_quickened() {
    let mut slots = SlotTable::new();
    let x = slots.intern("x");
    let program = Program::from_chunks(
        vec![Op::SetSlot { slot: x, value: 0 }, Op::Halt],
        vec![chunk(
            vec![
                ExprOp::Load { dst: 1, slot: x, column: 1 },
                ExprOp::Load { dst: 0, slot: x, column: 1 },
                ExprOp::Call { dst: 0, function: Builtin::Len, args: 0..2 },
            ],
            Vec::new(),
            2,
            0,
            1,
        )],
        slots,
    );
    let metadata = ExecutionMetadata::new(&program);
    // The loads fill the argument registers out of order.
    assert!(metadata.quickened_call(0).is_none());
}

#[test]
fn empty_programs_have_empty_metadata() {
    let program = Program::from_chunks(Vec::new(), Vec::new(), SlotTable::new());
    let metadata = ExecutionMetadata::new(&program);
    assert_eq!(metadata.op(0), None);
    assert_eq!(metadata.chunk(0), None);
    assert!(metadata.program_constant_metrics().is_empty());
}

#[test]
fn validated_programs_keep_the_program_and_compute_its_metadata() {
    let validated = ValidatedProgram::new(sample()).unwrap();
    assert_eq!(validated.program().ops.len(), 8);
    let metadata = validated.shared_execution_metadata();
    assert_eq!(metadata.op(0), Some(OpExecutionMetadata { line: 2 }));
    let (chunk, metrics, call) = metadata.chunk_plan(2).unwrap();
    assert!(!chunk.mutates_frame);
    assert_eq!(metrics, None);
    assert_eq!(call.unwrap().operands.len(), 2);
    assert_eq!(metadata.chunk_with_constant_metrics(0).unwrap().1, Some(metrics_of_integer()));
    assert!(metadata.chunk_plan(99).is_none());
    assert!(metadata.chunk_with_constant_metrics(99).is_none());

    let invalid = Program::from_chunks(vec![Op::Jump(2)], Vec::new(), SlotTable::new());
    let error = ValidatedProgram::new(invalid).err().unwrap();
    assert!(error.message.contains("jump target"));
}

fn metrics_of_integer() -> DataMetrics {
    metrics(1, 0, 0)
}
