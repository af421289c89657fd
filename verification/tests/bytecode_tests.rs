use velin_core::bytecode::{ExprChunk, ExprOp};
use velin_core::program::{HostOp, Op, Program, UpdateOp};
use velin_core::slots::SlotTable;
use velin_core::validate::MAX_PROGRAM_TEXT_BYTES;
use velin_core::value::{BinaryOp, Builtin, UnaryOp, Value};

fn program(chunk: ExprChunk) -> Program {
    let mut slots = SlotTable::new();
    slots.intern("x");
    Program::from_chunks(vec![Op::SetSlot { slot: 0, value: 0 }, Op::Halt], vec![chunk], slots)
}

fn constant_chunk(value: Value) -> ExprChunk {
    ExprChunk {
        ops: vec![ExprOp::Const { dst: 0, constant: 0 }],
        constants: vec![value],
        registers: 1,
        result: 0,
        line: 1,
    }
}

fn message(program: &Program) -> String {
    program.validate().unwrap_err().message
}

#[test]
fn chunk_builder_allocates_registers_and_interns_constants() {
    let mut chunk = ExprChunk::new(7);
    assert_eq!((chunk.registers, chunk.result, chunk.line), (1, 0, 7));
    assert_eq!(chunk.register(), 1);
    let range = chunk.register_range(3);
    assert_eq!((range.start, range.end), (2, 5));
    assert_eq!(chunk.registers, 5);
    assert_eq!(chunk.constant(Value::Integer(4)), 0);
    assert_eq!(chunk.constant(Value::String("a".into())), 1);
    assert_eq!(chunk.constant(Value::Integer(4)), 0);
    assert_eq!(chunk.constants.len(), 2);
    assert_eq!(chunk.push(ExprOp::Const { dst: 0, constant: 0 }), 0);
    assert_eq!(chunk.push(ExprOp::Const { dst: 1, constant: 1 }), 1);
    chunk.reset(usize::MAX);
    assert!(chunk.ops.is_empty() && chunk.constants.is_empty());
    assert_eq!((chunk.registers, chunk.line), (1, u32::MAX));
}

#[test]
fn packed_programs_give_back_each_chunk() {
    let first = constant_chunk(Value::Integer(1));
    let second = ExprChunk {
        ops: vec![
            ExprOp::Load { dst: 1, slot: 0, column: 4 },
            ExprOp::Unary { dst: 0, op: UnaryOp::Negate, source: 1 },
        ],
        constants: vec![Value::Boolean(true), Value::Integer(2)],
        registers: 2,
        result: 0,
        line: 9,
    };
    let program = Program::from_chunks(vec![Op::Halt], vec![first, second], SlotTable::new());
    assert_eq!(program.expr_ops.len(), 3);
    assert_eq!(program.constants.len(), 3);
    let chunk = program.chunk(1).unwrap();
    assert_eq!(chunk.ops.len(), 2);
    assert_eq!(chunk.constants, &[Value::Boolean(true), Value::Integer(2)]);
    assert_eq!((chunk.registers, chunk.result, chunk.line), (2, 0, 9));
    assert!(program.chunk(2).is_none());
}

#[test]
fn validates_register_flow_and_rejects_back_edges() {
    assert!(program(constant_chunk(Value::Integer(1))).validate().is_ok());
    let looping = ExprChunk {
        ops: vec![
            ExprOp::Const { dst: 0, constant: 0 },
            ExprOp::JumpIfTrue { condition: 0, target: 0 },
        ],
        constants: vec![Value::Boolean(true)],
        registers: 1,
        result: 0,
        line: 1,
    };
    assert_eq!(
        message(&program(looping)),
        "expression chunk 0 op 1 has invalid non-forward jump target 0"
    );
    let undefined = ExprChunk {
        ops: vec![ExprOp::Binary { dst: 0, left: 0, op: BinaryOp::Add, right: 1 }],
        constants: Vec::new(),
        registers: 2,
        result: 0,
        line: 1,
    };
    assert_eq!(
        message(&program(undefined)),
        "expression chunk 0 op 0 reads undefined register 0"
    );
    let one_branch = ExprChunk {
        ops: vec![
            ExprOp::Const { dst: 0, constant: 0 },
            ExprOp::JumpIfTrue { condition: 0, target: 3 },
            ExprOp::Const { dst: 1, constant: 0 },
        ],
        constants: vec![Value::Boolean(true)],
        registers: 2,
        result: 1,
        line: 1,
    };
    assert_eq!(
        message(&program(one_branch)),
        "expression chunk 0 leaves result register 1 undefined"
    );
}

#[test]
fn rejects_malformed_instructions_with_their_position() {
    let random_call = ExprChunk {
        ops: vec![ExprOp::Call { dst: 0, function: Builtin::Random, args: 0..0 }],
        constants: Vec::new(),
        registers: 1,
        result: 0,
        line: 1,
    };
    assert_eq!(
        message(&program(random_call)),
        "expression chunk 0 op 0 must use the dedicated random opcode"
    );
    let bad_range = ExprChunk {
        ops: vec![ExprOp::Concat { dst: 0, values: 1..3 }],
        constants: Vec::new(),
        registers: 2,
        result: 0,
        line: 1,
    };
    assert_eq!(
        bad_range.validate(0).unwrap_err().message,
        "expression chunk 0 op 0 has invalid register range 1..3"
    );
    let bad_arity = ExprChunk {
        ops: vec![ExprOp::Call { dst: 0, function: Builtin::Len, args: 0..0 }],
        constants: Vec::new(),
        registers: 1,
        result: 0,
        line: 1,
    };
    assert_eq!(
        bad_arity.validate(0).unwrap_err().message,
        "expression chunk 0 op 0 has invalid builtin argument count 0"
    );
    let missing_constant = ExprChunk {
        ops: vec![ExprOp::Const { dst: 0, constant: 3 }],
        constants: Vec::new(),
        registers: 1,
        result: 0,
        line: 1,
    };
    assert_eq!(
        missing_constant.validate(0).unwrap_err().message,
        "expression chunk 0 op 0 references missing constant 3"
    );
    let no_registers = ExprChunk { ops: Vec::new(), constants: Vec::new(), registers: 0, result: 0, line: 1 };
    assert_eq!(no_registers.validate(0).unwrap_err().message, "expression chunk 0 has no registers");
    let missing_slot = ExprChunk {
        ops: vec![ExprOp::Load { dst: 0, slot: 1, column: 1 }],
        constants: Vec::new(),
        registers: 1,
        result: 0,
        line: 1,
    };
    assert_eq!(
        missing_slot.validate(1).unwrap_err().message,
        "expression chunk 0 op 0 references missing slot 1"
    );
    let oversized = constant_chunk(Value::String("x".repeat(MAX_PROGRAM_TEXT_BYTES + 1)));
    assert_eq!(
        oversized.validate(0).unwrap_err().message,
        "expression chunk 0 has an invalid constant: data text exceeds 1 MiB"
    );
    assert_eq!(
        constant_chunk(Value::Integer(1)).validate(70000).unwrap_err().message,
        "variable slots exceeds limit 65536 (found 70000)"
    );
}

#[test]
fn rejects_invalid_program_indices() {
    let mut invalid = program(constant_chunk(Value::Integer(1)));
    invalid.ops[0] = Op::SetSlot { slot: 9, value: 0 };
    assert_eq!(message(&invalid), "op 0 references missing slot 9");
    invalid.ops[0] = Op::Jump(99);
    assert_eq!(message(&invalid), "op 0 references jump target 99 past program end 2");
    invalid.ops[0] = Op::Update { slot: 0, operation: UpdateOp::Put { key: 0, value: 4 }, line: 1, column: 1 };
    assert_eq!(message(&invalid), "op 0 references missing expression chunk 4");
    invalid.ops[0] = Op::JumpIfIntegerCompare {
        condition: 0,
        slot: 0,
        comparison: BinaryOp::Add,
        value: 1,
        target: 1,
    };
    assert_eq!(message(&invalid), "op 0 has an invalid integer comparison");
    invalid.ops[0] = Op::Host(Box::new(HostOp::new(1, vec![0; 129], None, 1)));
    assert_eq!(message(&invalid), "host arguments at op 0 exceeds limit 128 (found 129)");
    invalid.ops[0] = Op::host(1, vec![0, 3], None, 1);
    assert_eq!(message(&invalid), "op 0 references missing expression chunk 3");
    invalid.ops[0] = Op::host(1, vec![0], Some(5), 1);
    assert_eq!(message(&invalid), "op 0 references missing slot 5");

    let mut bad_range = program(constant_chunk(Value::Integer(1)));
    bad_range.chunks[0].ops.end += 1;
    assert_eq!(message(&bad_range), "expression chunk 0 has an invalid arena range");

    let jump_only = Program {
        ops: vec![Op::Jump(2)],
        chunks: Vec::new(),
        expr_ops: Vec::new(),
        constants: Vec::new(),
        slots: SlotTable::new(),
    };
    assert!(jump_only.validate().is_err());
}

#[test]
fn update_and_host_constructors_compact_positions() {
    let update = Op::update(3, UpdateOp::AddInteger { value: 2 }, usize::MAX, 5);
    assert_eq!(
        update,
        Op::Update { slot: 3, operation: UpdateOp::AddInteger { value: 2 }, line: u32::MAX, column: 5 }
    );
    let host = HostOp::new(4, vec![1, 2], Some(0), 12);
    assert_eq!((host.host_id, host.args.clone(), host.bind, host.line), (4, vec![1, 2], Some(0), 12));
}

#[test]
fn rejects_undefined_sources_for_every_register_instruction_shape() {
    let cases = [
        ExprOp::Unary { dst: 0, op: UnaryOp::Negate, source: 1 },
        ExprOp::Call { dst: 0, function: Builtin::Len, args: 1..2 },
        ExprOp::Random { dst: 0, args: 1..3, state_slot: 0 },
        ExprOp::Chance { dst: 0, args: 1..2, state_slot: 0 },
        ExprOp::Concat { dst: 0, values: 1..2 },
        ExprOp::JumpIfFalse { condition: 0, target: 1 },
        ExprOp::JumpIfTrue { condition: 0, target: 1 },
    ];

    for op in cases {
        let registers = match op {
            ExprOp::Random { .. } => 3,
            _ => 2,
        };
        let chunk = ExprChunk { ops: vec![op], constants: Vec::new(), registers, result: 0, line: 1 };
        assert!(program(chunk).validate().unwrap_err().message.contains("reads undefined register"));
    }
}

#[test]
fn validate_tests_rejects_invalid_program_indices() {
    let chunk = constant_chunk(Value::Integer(1));
    let mut invalid = program(chunk);
    invalid.ops[0] = Op::SetSlot { slot: 9, value: 0 };
    assert!(invalid.validate().unwrap_err().message.contains("missing slot"));
    invalid.ops[0] = Op::Jump(99);
    assert!(invalid.validate().unwrap_err().message.contains("past program end"));

    let mut invalid_range = program(constant_chunk(Value::Integer(1)));
    invalid_range.chunks[0].ops.end += 1;
    assert!(invalid_range.validate().unwrap_err().message.contains("invalid arena range"));
}

#[test]
fn validate_tests_standalone_chunk_validation_checks_frame_width_and_constants() {
    let missing_slot = ExprChunk {
        ops: vec![ExprOp::Load { dst: 0, slot: 1, column: 1 }],
        constants: Vec::new(),
        registers: 1,
        result: 0,
        line: 1,
    };
    assert!(missing_slot.validate(1).unwrap_err().message.contains("missing slot"));

    let oversized = ExprChunk {
        ops: vec![ExprOp::Const { dst: 0, constant: 0 }],
        constants: vec![Value::String("x".repeat(MAX_PROGRAM_TEXT_BYTES + 1))],
        registers: 1,
        result: 0,
        line: 1,
    };
    assert!(oversized.validate(0).is_err());
}

#[test]
fn random_ops_require_the_reserved_rng_slot_and_dedicated_encoding() {
    let random_chunk = ExprChunk {
        ops: vec![
            ExprOp::Const { dst: 1, constant: 0 },
            ExprOp::Const { dst: 2, constant: 1 },
            ExprOp::Random { dst: 0, args: 1..3, state_slot: 0 },
        ],
        constants: vec![Value::Integer(1), Value::Integer(6)],
        registers: 3,
        result: 0,
        line: 1,
    };
    let mut slots = SlotTable::new();
    slots.intern("user");
    slots.intern_rng_state();
    let program = Program::from_chunks(vec![Op::Halt], vec![random_chunk], slots);
    let error = program.validate().unwrap_err();
    assert!(error.message.contains("does not match reserved RNG slot"));

    let call_chunk = ExprChunk {
        ops: vec![
            ExprOp::Const { dst: 1, constant: 0 },
            ExprOp::Const { dst: 2, constant: 1 },
            ExprOp::Call { dst: 0, function: Builtin::Random, args: 1..3 },
        ],
        constants: vec![Value::Integer(1), Value::Integer(6)],
        registers: 3,
        result: 0,
        line: 1,
    };
    let mut slots = SlotTable::new();
    slots.intern_rng_state();
    let program = Program::from_chunks(vec![Op::Halt], vec![call_chunk], slots);
    let error = program.validate().unwrap_err();
    assert!(error.message.contains("dedicated random opcode"));
}

#[test]
fn rejects_invalid_register_ranges_before_execution() {
    let invalid_range = ExprChunk {
        ops: vec![ExprOp::Concat { dst: 0, values: 1..3 }],
        constants: Vec::new(),
        registers: 2,
        result: 0,
        line: 1,
    };
    assert!(invalid_range.validate(0).unwrap_err().message.contains("invalid register range"));
}

#[test]
fn validates_every_program_operation_shape() {
    let mut slots = SlotTable::new();
    let target = slots.intern("target");
    let source = slots.intern("source");
    let chunk = constant_chunk(Value::Integer(1));
    let program = Program::from_chunks(
        vec![
            Op::SetSlot { slot: target, value: 0 },
            Op::SetConst { slot: target, value: Value::Integer(1), line: 3 },
            Op::CopySlot { slot: target, source, line: 4, column: 2 },
            Op::Update { slot: target, operation: UpdateOp::Add { rhs: 0 }, line: 5, column: 1 },
            Op::Update { slot: target, operation: UpdateOp::AddInteger { value: 1 }, line: 6, column: 1 },
            Op::Update { slot: target, operation: UpdateOp::Push { value: 0 }, line: 7, column: 1 },
            Op::Update { slot: target, operation: UpdateOp::Put { key: 0, value: 0 }, line: 8, column: 1 },
            Op::Update { slot: target, operation: UpdateOp::Remove { key: 0 }, line: 9, column: 1 },
            Op::JumpIfFalse { condition: 0, target: 10 },
            Op::JumpIfIntegerCompare { condition: 0, slot: source, comparison: BinaryOp::Equal, value: 1, target: 11 },
            Op::host(0, vec![0], Some(source), 11),
            Op::Halt,
        ],
        vec![chunk],
        slots,
    );
    assert!(program.validate().is_ok());
}

#[test]
fn rejects_invalid_integer_comparisons_and_host_slots() {
    let mut slots = SlotTable::new();
    let slot = slots.intern("x");
    let invalid_comparison = Program::from_chunks(
        vec![
            Op::JumpIfIntegerCompare { condition: 0, slot, comparison: BinaryOp::Add, value: 1, target: 2 },
            Op::Halt,
        ],
        vec![constant_chunk(Value::Integer(1))],
        slots,
    );
    assert!(invalid_comparison.validate().unwrap_err().message.contains("invalid integer comparison"));

    let mut slots = SlotTable::new();
    slots.intern("x");
    let invalid_host_slot = Program::from_chunks(vec![Op::host(0, Vec::new(), Some(9), 1), Op::Halt], Vec::new(), slots);
    assert!(invalid_host_slot.validate().unwrap_err().message.contains("missing slot"));
}

#[test]
fn random_ops_must_draw_from_the_reserved_slot() {
    let random_chunk = |state_slot: u32| ExprChunk {
        ops: vec![
            ExprOp::Const { dst: 1, constant: 0 },
            ExprOp::Chance { dst: 0, args: 1..2, state_slot },
        ],
        constants: vec![Value::Integer(50)],
        registers: 2,
        result: 0,
        line: 1,
    };
    let mut slots = SlotTable::new();
    slots.intern("user");
    let rng = slots.intern_rng_state();
    let program = Program::from_chunks(vec![Op::Halt], vec![random_chunk(rng)], slots);
    assert!(program.validate().is_ok());

    let mut slots = SlotTable::new();
    slots.intern("user");
    slots.intern_rng_state();
    let program = Program::from_chunks(vec![Op::Halt], vec![random_chunk(0)], slots);
    assert_eq!(
        message(&program),
        "expression chunk 0 op 1 random state slot 0 does not match reserved RNG slot"
    );

    // Without a reserved slot no random instruction is accepted.
    let mut slots = SlotTable::new();
    slots.intern("user");
    let program = Program::from_chunks(vec![Op::Halt], vec![random_chunk(0)], slots);
    assert!(message(&program).contains("does not match reserved RNG slot"));
}
