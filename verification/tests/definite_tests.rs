use velin_core::bytecode::{ExprChunk, ExprOp};
use velin_core::definite::{definite_assignment, definite_assignment_slots, UnassignedUse};
use velin_core::program::{Op, Program, UpdateOp};
use velin_core::slots::SlotTable;
use velin_core::value::{BinaryOp, Builtin, UnaryOp, Value};

fn load(slot: u32, column: u32, line: u32) -> ExprChunk {
    ExprChunk { ops: vec![ExprOp::Load { dst: 0, slot, column }], constants: Vec::new(), registers: 1, result: 0, line }
}

fn constant(value: Value, line: u32) -> ExprChunk {
    ExprChunk { ops: vec![ExprOp::Const { dst: 0, constant: 0 }], constants: vec![value], registers: 1, result: 0, line }
}

fn finding(name: &str, line: usize, column: usize) -> UnassignedUse {
    UnassignedUse { name: name.to_string(), line, column }
}

#[test]
fn read_after_assignment_is_clean() {
    // set hp = 30; set hp = hp - 1
    let mut slots = SlotTable::new();
    let hp = slots.intern("hp");
    let minus = ExprChunk {
        ops: vec![
            ExprOp::Load { dst: 0, slot: hp, column: 10 },
            ExprOp::Const { dst: 1, constant: 0 },
            ExprOp::Binary { dst: 0, op: BinaryOp::Subtract, left: 0, right: 1 },
        ],
        constants: vec![Value::Integer(1)],
        registers: 2,
        result: 0,
        line: 2,
    };
    let program = Program::from_chunks(
        vec![Op::SetSlot { slot: hp, value: 0 }, Op::SetSlot { slot: hp, value: 1 }],
        vec![constant(Value::Integer(30), 1), minus],
        slots,
    );
    assert!(definite_assignment(&program, &[]).is_empty());
}

#[test]
fn read_before_any_assignment_is_flagged() {
    // set y = x   (x never assigned)
    let mut slots = SlotTable::new();
    let y = slots.intern("y");
    let x = slots.intern("x");
    let program = Program::from_chunks(vec![Op::SetSlot { slot: y, value: 0 }], vec![load(x, 9, 5)], slots);
    assert_eq!(definite_assignment(&program, &[]), vec![finding("x", 5, 9)]);
}

#[test]
fn assignment_on_only_one_branch_is_flagged() {
    // if cond { only = 1 }; sink = only
    let mut slots = SlotTable::new();
    let cond = slots.intern("cond");
    let only = slots.intern("only");
    let sink = slots.intern("sink");
    let program = Program::from_chunks(
        vec![
            Op::JumpIfFalse { condition: 0, target: 2 },
            Op::SetSlot { slot: only, value: 1 },
            Op::SetSlot { slot: sink, value: 2 },
        ],
        vec![load(cond, 4, 1), constant(Value::Integer(1), 2), load(only, 8, 3)],
        slots,
    );
    let preset = vec!["cond".to_string()];
    assert_eq!(definite_assignment(&program, &preset), vec![finding("only", 3, 8)]);
    // Without the preset, the condition read is flagged too, first.
    assert_eq!(
        definite_assignment(&program, &[]),
        vec![finding("cond", 1, 4), finding("only", 3, 8)]
    );
}

#[test]
fn assignment_on_both_branches_is_clean() {
    // if cond { v = 1 } else { v = 2 }; sink = v
    let mut slots = SlotTable::new();
    let cond = slots.intern("cond");
    let v = slots.intern("v");
    let sink = slots.intern("sink");
    let program = Program::from_chunks(
        vec![
            Op::JumpIfFalse { condition: 0, target: 3 },
            Op::SetConst { slot: v, value: Value::Integer(1), line: 2 },
            Op::Jump(4),
            Op::SetConst { slot: v, value: Value::Integer(2), line: 3 },
            Op::SetSlot { slot: sink, value: 1 },
            Op::Halt,
        ],
        vec![load(cond, 4, 1), load(v, 8, 4)],
        slots,
    );
    assert!(definite_assignment(&program, &["cond".to_string()]).is_empty());
}

#[test]
fn preset_variables_count_as_assigned() {
    let mut slots = SlotTable::new();
    let sink = slots.intern("sink");
    let seed = slots.intern("seed");
    let program = Program::from_chunks(vec![Op::SetSlot { slot: sink, value: 0 }], vec![load(seed, 1, 1)], slots);
    assert!(definite_assignment(&program, &["seed".to_string()]).is_empty());
    assert!(definite_assignment_slots(&program, &[seed]).is_empty());
    // A preset name the program never uses changes nothing.
    assert_eq!(
        definite_assignment(&program, &["other".to_string()]),
        vec![finding("seed", 1, 1)]
    );
}

#[test]
fn loop_carried_assignment_is_not_definite_on_entry() {
    // while cond { sink = counter; counter = 1 }
    let mut slots = SlotTable::new();
    let cond = slots.intern("cond");
    let counter = slots.intern("counter");
    let sink = slots.intern("sink");
    let program = Program::from_chunks(
        vec![
            Op::JumpIfFalse { condition: 0, target: 4 },
            Op::SetSlot { slot: sink, value: 1 },
            Op::SetConst { slot: counter, value: Value::Integer(1), line: 3 },
            Op::Jump(0),
            Op::Halt,
        ],
        vec![load(cond, 7, 1), load(counter, 9, 2)],
        slots,
    );
    assert_eq!(
        definite_assignment(&program, &["cond".to_string()]),
        vec![finding("counter", 2, 9)]
    );
}

#[test]
fn direct_slot_reads_and_updates_are_checked() {
    let mut slots = SlotTable::new();
    let a = slots.intern("a");
    let b = slots.intern("b");
    let list = slots.intern("list");
    let program = Program::from_chunks(
        vec![
            Op::CopySlot { slot: b, source: a, line: 4, column: 6 },
            Op::update(list, UpdateOp::Push { value: 0 }, 5, 2),
            Op::update(b, UpdateOp::AddInteger { value: 1 }, 6, 3),
        ],
        vec![load(a, 11, 5)],
        slots,
    );
    assert_eq!(
        definite_assignment(&program, &[]),
        vec![finding("a", 4, 6), finding("list", 5, 2), finding("a", 5, 11)]
    );
}

#[test]
fn host_arguments_and_bindings_are_tracked() {
    let mut slots = SlotTable::new();
    let got = slots.intern("got");
    let sink = slots.intern("sink");
    let missing = slots.intern("missing");
    let program = Program::from_chunks(
        vec![
            Op::host(7, vec![0, 1], Some(got), 1),
            Op::SetSlot { slot: sink, value: 2 },
        ],
        vec![load(missing, 3, 1), constant(Value::Integer(2), 1), load(got, 5, 2)],
        slots,
    );
    assert_eq!(definite_assignment(&program, &[]), vec![finding("missing", 1, 3)]);
}

#[test]
fn unreachable_blocks_report_nothing() {
    let mut slots = SlotTable::new();
    let sink = slots.intern("sink");
    let ghost = slots.intern("ghost");
    let program = Program::from_chunks(
        vec![Op::Jump(2), Op::SetSlot { slot: sink, value: 0 }, Op::Halt],
        vec![load(ghost, 1, 9)],
        slots,
    );
    assert!(definite_assignment(&program, &[]).is_empty());
}

#[test]
fn slots_without_names_are_reported_as_question_marks() {
    let mut slots = SlotTable::new();
    let sink = slots.intern("sink");
    let x = slots.intern("x");
    let program = Program::from_chunks(
        vec![Op::SetSlot { slot: sink, value: 0 }],
        vec![load(x, 2, 3)],
        slots.without_names(),
    );
    assert_eq!(definite_assignment_slots(&program, &[]), vec![finding("?", 3, 2)]);
}

#[test]
fn empty_programs_have_no_findings() {
    let program = Program::from_chunks(Vec::new(), Vec::new(), SlotTable::new());
    assert!(definite_assignment(&program, &[]).is_empty());
}

fn chunk(ops: Vec<ExprOp>, constants: Vec<Value>, registers: u16, line: u32) -> ExprChunk {
    ExprChunk { ops, constants, registers, result: 0, line }
}

#[test]
fn program_entry_remains_a_predecessor_when_it_has_a_back_edge() {
    // y = x + 1; x = 1; goto 0
    let mut slots = SlotTable::new();
    let y = slots.intern("y");
    let x = slots.intern("x");
    let read_x = chunk(
        vec![
            ExprOp::Load { dst: 0, slot: x, column: 1 },
            ExprOp::Const { dst: 1, constant: 0 },
            ExprOp::Binary { dst: 0, left: 0, op: BinaryOp::Add, right: 1 },
        ],
        vec![Value::Integer(1)],
        2,
        1,
    );
    let program = Program::from_chunks(
        vec![Op::SetSlot { slot: y, value: 0 }, Op::SetSlot { slot: x, value: 1 }, Op::Jump(0)],
        vec![read_x, constant(Value::Integer(1), 2)],
        slots,
    );
    let findings = definite_assignment(&program, &[]);
    assert_eq!(findings.len(), 1);
    assert_eq!(findings[0].name, "x");
}

#[test]
fn unreachable_reads_are_ignored() {
    let mut slots = SlotTable::new();
    let y = slots.intern("y");
    let missing = slots.intern("missing");
    let program = Program::from_chunks(
        vec![Op::Jump(2), Op::SetSlot { slot: y, value: 0 }, Op::Halt],
        vec![load(missing, 1, 2)],
        slots,
    );
    assert!(definite_assignment(&program, &[]).is_empty());
}

#[test]
fn constant_short_circuit_reads_are_ignored() {
    // result = false and missing
    let mut slots = SlotTable::new();
    let result = slots.intern("result");
    let missing = slots.intern("missing");
    let and = chunk(
        vec![
            ExprOp::Const { dst: 0, constant: 0 },
            ExprOp::JumpIfFalse { condition: 0, target: 3 },
            ExprOp::Load { dst: 0, slot: missing, column: 11 },
        ],
        vec![Value::Boolean(false)],
        1,
        1,
    );
    let program = Program::from_chunks(vec![Op::SetSlot { slot: result, value: 0 }], vec![and], slots);
    assert!(definite_assignment(&program, &[]).is_empty());
}

fn analyze(ops: Vec<ExprOp>, constants: Vec<Value>, registers: u16) -> Vec<UnassignedUse> {
    // Slot 0 is the sink, slot 1 is an unassigned variable `x`.
    let mut slots = SlotTable::new();
    let sink = slots.intern("sink");
    slots.intern("x");
    let program = Program::from_chunks(
        vec![Op::SetSlot { slot: sink, value: 0 }],
        vec![chunk(ops, constants, registers, 1)],
        slots,
    );
    definite_assignment(&program, &[])
}

#[test]
fn abstract_interpreter_covers_expression_ops() {
    let x = || ExprOp::Load { dst: 1, slot: 1, column: 5 };
    // not true, -3, 1 + 2: no loads at all.
    assert!(analyze(
        vec![ExprOp::Const { dst: 0, constant: 0 }, ExprOp::Unary { dst: 0, op: UnaryOp::Not, source: 0 }],
        vec![Value::Boolean(true)],
        1
    )
    .is_empty());
    assert!(analyze(
        vec![ExprOp::Const { dst: 0, constant: 0 }, ExprOp::Unary { dst: 0, op: UnaryOp::Negate, source: 0 }],
        vec![Value::Integer(3)],
        1
    )
    .is_empty());
    for op in [
        BinaryOp::Add,
        BinaryOp::Subtract,
        BinaryOp::Multiply,
        BinaryOp::Divide,
        BinaryOp::Equal,
        BinaryOp::NotEqual,
        BinaryOp::Less,
        BinaryOp::LessEqual,
        BinaryOp::Greater,
        BinaryOp::GreaterEqual,
    ] {
        assert!(analyze(
            vec![
                ExprOp::Const { dst: 0, constant: 0 },
                ExprOp::Const { dst: 1, constant: 1 },
                ExprOp::Binary { dst: 0, left: 0, op, right: 1 },
            ],
            vec![Value::Integer(1), Value::Integer(2)],
            2
        )
        .is_empty());
    }
    // true or x: the right operand is skipped.
    assert!(analyze(
        vec![
            ExprOp::Const { dst: 0, constant: 0 },
            ExprOp::JumpIfTrue { condition: 0, target: 3 },
            x(),
        ],
        vec![Value::Boolean(true)],
        2
    )
    .is_empty());
    // false or x, 1 or x, x or true: x is read.
    for constant in [Value::Boolean(false), Value::Integer(1)] {
        assert_eq!(
            analyze(
                vec![
                    ExprOp::Const { dst: 0, constant: 0 },
                    ExprOp::JumpIfTrue { condition: 0, target: 3 },
                    x(),
                ],
                vec![constant],
                2
            ),
            vec![finding("x", 1, 5)]
        );
    }
    assert_eq!(
        analyze(
            vec![
                x(),
                ExprOp::JumpIfTrue { condition: 1, target: 3 },
                ExprOp::Const { dst: 0, constant: 0 },
            ],
            vec![Value::Boolean(true)],
            2
        ),
        vec![finding("x", 1, 5)]
    );
    // Built-ins, random draws and interpolation.
    assert!(analyze(
        vec![
            ExprOp::Const { dst: 1, constant: 0 },
            ExprOp::Call { dst: 0, function: Builtin::Len, args: 1..2 },
        ],
        vec![Value::String("ab".to_string())],
        2
    )
    .is_empty());
    assert!(analyze(
        vec![
            ExprOp::Const { dst: 1, constant: 0 },
            ExprOp::Const { dst: 2, constant: 1 },
            ExprOp::Random { dst: 0, args: 1..3, state_slot: 0 },
        ],
        vec![Value::Integer(1), Value::Integer(2)],
        3
    )
    .is_empty());
    assert!(analyze(
        vec![
            ExprOp::Const { dst: 1, constant: 0 },
            ExprOp::Chance { dst: 0, args: 1..2, state_slot: 0 },
        ],
        vec![Value::Integer(50)],
        2
    )
    .is_empty());
    assert_eq!(
        analyze(
            vec![
                ExprOp::Const { dst: 0, constant: 0 },
                x(),
                ExprOp::Concat { dst: 0, values: 0..2 },
            ],
            vec![Value::String("hello ".to_string())],
            2
        ),
        vec![finding("x", 1, 5)]
    );
}

#[test]
fn host_bind_counts_as_assignment_and_empty_programs_are_clean() {
    let mut slots = SlotTable::new();
    let answer = slots.intern("answer");
    let sink = slots.intern("sink");
    let program = Program::from_chunks(
        vec![Op::host(0, Vec::new(), Some(answer), 1), Op::SetSlot { slot: sink, value: 0 }],
        vec![load(answer, 1, 2)],
        slots,
    );
    assert!(definite_assignment(&program, &[]).is_empty());

    let empty = Program {
        ops: Vec::new(),
        chunks: Vec::new(),
        expr_ops: Vec::new(),
        constants: Vec::new(),
        slots: SlotTable::new(),
    };
    assert!(definite_assignment(&empty, &[]).is_empty());
}

#[test]
fn malformed_chunks_exercise_abstract_fallbacks() {
    let mut slots = SlotTable::new();
    slots.intern("x");
    let program = Program::from_chunks(
        vec![Op::SetSlot { slot: 0, value: 0 }],
        vec![ExprChunk {
            ops: vec![
                ExprOp::Const { dst: 0, constant: 99 },
                ExprOp::Unary { dst: 0, op: UnaryOp::Not, source: 7 },
                ExprOp::JumpIfTrue { condition: 0, target: 0 },
                ExprOp::Load { dst: 0, slot: 0, column: 1 },
            ],
            constants: Vec::new(),
            registers: 1,
            result: 0,
            line: 1,
        }],
        slots,
    );
    let _ = definite_assignment(&program, &[]);
}

#[test]
fn missing_chunks_do_not_panic_analysis() {
    let program = Program {
        ops: vec![Op::SetSlot { slot: 0, value: 99 }],
        chunks: Vec::new(),
        expr_ops: Vec::new(),
        constants: Vec::new(),
        slots: SlotTable::new(),
    };
    assert!(definite_assignment(&program, &[]).is_empty());
}
