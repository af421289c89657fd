//! Validation for serialized or manually assembled register bytecode.
//!
//! Every check reports the first problem it meets, in a fixed order, with a
//! descriptive message. The contracts state that order and those messages.

use crate::bytecode::{ChunkModel, ExprChunk, ExprChunkRef, ExprOp};
use crate::metadata::{metadata_ready, ExecutionMetadata};
use crate::program::{ChunkId, Op, Program, UpdateOp};
use crate::text::{natural_digits, render_natural};
use crate::value::{builtin_accepts, lemma_view_items, node_count, text_size, budget_error, view_items, within_budget, BinaryOp, Builtin, Datum, Value};
use std::ops::Range;
use vstd::prelude::*;

verus! {

/// Maximum number of control-flow instructions in an executable program.
pub const MAX_PROGRAM_OPS: usize = 100000;
/// Maximum number of expression chunks in an executable program.
pub const MAX_PROGRAM_CHUNKS: usize = 100000;
/// Maximum number of variable slots in an executable program.
pub const MAX_PROGRAM_SLOTS: usize = 65536;
/// Maximum number of instructions in one expression chunk.
pub const MAX_EXPR_OPS: usize = 4096;
/// Maximum number of physical registers in one expression chunk.
pub const MAX_EXPR_REGISTERS: usize = 1024;
/// Maximum aggregate number of values stored in all constant pools.
pub const MAX_PROGRAM_CONSTANT_VALUES: usize = 100000;
/// Maximum aggregate UTF-8 bytes stored in constant pools and slot names.
pub const MAX_PROGRAM_TEXT_BYTES: usize = 16777216;
/// Maximum argument count accepted by a host instruction.
pub const MAX_HOST_ARGUMENTS: usize = 128;

/// A structural or resource-budget error in executable bytecode.
#[derive(Debug, PartialEq, Eq)]
pub struct ProgramValidationError {
    pub message: String,
}

impl ProgramValidationError {
    pub(crate) fn new(message: String) -> (r: ProgramValidationError)
        ensures
            r.message@ == message@,
    {
        ProgramValidationError { message }
    }
}

// ---------------------------------------------------------------------------
// Messages
// ---------------------------------------------------------------------------

pub open spec fn digits(n: nat) -> Seq<char> {
    natural_digits(n)
}

/// Where a check applies, for messages.
#[derive(Clone, Copy)]
pub enum ValidationContext {
    ProgramOp(usize),
    ExpressionOp { chunk: usize, pc: usize },
}

pub open spec fn chunk_prefix(id: nat) -> Seq<char> {
    "expression chunk "@ + digits(id)
}

pub open spec fn op_prefix(id: nat, pc: nat) -> Seq<char> {
    chunk_prefix(id) + " op "@ + digits(pc)
}

pub open spec fn context_text(c: ValidationContext) -> Seq<char> {
    match c {
        ValidationContext::ProgramOp(pc) => "op "@ + digits(pc as nat),
        ValidationContext::ExpressionOp { chunk, pc } => op_prefix(chunk as nat, pc as nat),
    }
}

/// The first of two possible errors.
pub open spec fn either(first: Option<Seq<char>>, second: Option<Seq<char>>) -> Option<Seq<char>> {
    if first is Some {
        first
    } else {
        second
    }
}

pub open spec fn limit_error(subject: Seq<char>, actual: nat, limit: nat) -> Option<Seq<char>> {
    if actual > limit {
        Some(subject + " exceeds limit "@ + digits(limit) + " (found "@ + digits(actual) + ")"@)
    } else {
        None
    }
}

pub open spec fn register_error(register: nat, count: nat, id: nat, role: Seq<char>) -> Option<Seq<char>> {
    if register >= count {
        Some(chunk_prefix(id) + " references missing "@ + role + " register "@ + digits(register))
    } else {
        None
    }
}

pub open spec fn range_error(start: nat, end: nat, registers: nat, id: nat, pc: nat) -> Option<Seq<char>> {
    if start > end || end > registers {
        Some(op_prefix(id, pc) + " has invalid register range "@ + digits(start) + ".."@ + digits(end))
    } else {
        None
    }
}

pub open spec fn slot_error(slot: nat, count: nat, context: ValidationContext) -> Option<Seq<char>> {
    if slot >= count {
        Some(context_text(context) + " references missing slot "@ + digits(slot))
    } else {
        None
    }
}

pub open spec fn chunk_id_error(chunk: nat, count: nat, context: ValidationContext) -> Option<Seq<char>> {
    if chunk >= count {
        Some(context_text(context) + " references missing expression chunk "@ + digits(chunk))
    } else {
        None
    }
}

pub open spec fn target_error(target: nat, op_count: nat, pc: nat) -> Option<Seq<char>> {
    if target > op_count {
        Some(
            "op "@ + digits(pc) + " references jump target "@ + digits(target) + " past program end "@
                + digits(op_count),
        )
    } else {
        None
    }
}

/// The number of registers in a range, as `Range::len` counts them.
pub open spec fn range_len(r: Range<u16>) -> nat {
    if r.start <= r.end {
        (r.end - r.start) as nat
    } else {
        0
    }
}

pub open spec fn arity_error(function: Builtin, count: nat, id: nat, pc: nat, kind: Seq<char>) -> Option<Seq<char>> {
    if builtin_accepts(function, count) {
        None
    } else {
        Some(op_prefix(id, pc) + " has invalid "@ + kind + " argument count "@ + digits(count))
    }
}

/// The first structural problem of instruction `pc` of chunk `id`.
pub open spec fn instruction_error(op: ExprOp, m: ChunkModel, slot_count: nat, id: nat, pc: nat) -> Option<Seq<char>> {
    let regs = m.registers;
    let context = ValidationContext::ExpressionOp { chunk: id as usize, pc: pc as usize };
    match op {
        ExprOp::Const { dst, constant } => either(
            register_error(dst as nat, regs, id, "destination"@),
            if constant >= m.constants.len() {
                Some(op_prefix(id, pc) + " references missing constant "@ + digits(constant as nat))
            } else {
                None
            },
        ),
        ExprOp::Load { dst, slot, .. } => either(
            register_error(dst as nat, regs, id, "destination"@),
            slot_error(slot as nat, slot_count, context),
        ),
        ExprOp::Unary { dst, source, .. } => either(
            register_error(dst as nat, regs, id, "destination"@),
            register_error(source as nat, regs, id, "source"@),
        ),
        ExprOp::Binary { dst, left, right, .. } => either(
            register_error(dst as nat, regs, id, "destination"@),
            either(
                register_error(left as nat, regs, id, "left source"@),
                register_error(right as nat, regs, id, "right source"@),
            ),
        ),
        ExprOp::Call { dst, function, args } => if function == Builtin::Random || function
            == Builtin::Chance {
            Some(op_prefix(id, pc) + " must use the dedicated random opcode"@)
        } else {
            either(
                register_error(dst as nat, regs, id, "destination"@),
                either(
                    range_error(args.start as nat, args.end as nat, regs, id, pc),
                    arity_error(function, range_len(args), id, pc, "builtin"@),
                ),
            )
        },
        ExprOp::Random { dst, args, state_slot } => either(
            register_error(dst as nat, regs, id, "destination"@),
            either(
                range_error(args.start as nat, args.end as nat, regs, id, pc),
                either(
                    slot_error(state_slot as nat, slot_count, context),
                    arity_error(Builtin::Random, range_len(args), id, pc, "random"@),
                ),
            ),
        ),
        ExprOp::Chance { dst, args, state_slot } => either(
            register_error(dst as nat, regs, id, "destination"@),
            either(
                range_error(args.start as nat, args.end as nat, regs, id, pc),
                either(
                    slot_error(state_slot as nat, slot_count, context),
                    arity_error(Builtin::Chance, range_len(args), id, pc, "random"@),
                ),
            ),
        ),
        ExprOp::JumpIfFalse { condition, target } | ExprOp::JumpIfTrue { condition, target } => either(
            register_error(condition as nat, regs, id, "condition"@),
            if target <= pc || target > m.ops.len() {
                Some(op_prefix(id, pc) + " has invalid non-forward jump target "@ + digits(target as nat))
            } else {
                None
            },
        ),
        ExprOp::Concat { dst, values } => either(
            register_error(dst as nat, regs, id, "destination"@),
            range_error(values.start as nat, values.end as nat, regs, id, pc),
        ),
    }
}

// ---------------------------------------------------------------------------
// Executable message building
// ---------------------------------------------------------------------------

fn append_str(out: &mut String, piece: &str)
    ensures
        final(out)@ == old(out)@ + piece@,
{
    out.append(piece);
}

fn append_number(out: &mut String, n: u64)
    ensures
        final(out)@ == old(out)@ + digits(n as nat),
{
    let text = render_natural(n);
    out.append(text.as_str());
}

fn chunk_message(id: usize) -> (r: String)
    ensures
        r@ == chunk_prefix(id as nat),
{
    let mut message = String::from_str("expression chunk ");
    append_number(&mut message, id as u64);
    message
}

fn op_message(id: usize, pc: usize) -> (r: String)
    ensures
        r@ == op_prefix(id as nat, pc as nat),
{
    let mut message = chunk_message(id);
    append_str(&mut message, " op ");
    append_number(&mut message, pc as u64);
    message
}

fn context_message(context: ValidationContext) -> (r: String)
    ensures
        r@ == context_text(context),
{
    match context {
        ValidationContext::ProgramOp(pc) => {
            let mut message = String::from_str("op ");
            append_number(&mut message, pc as u64);
            message
        },
        ValidationContext::ExpressionOp { chunk, pc } => op_message(chunk, pc),
    }
}

fn fail(message: String) -> (r: Result<(), ProgramValidationError>)
    ensures
        r matches Err(e) && e.message@ == message@,
{
    Err(ProgramValidationError::new(message))
}

/// The result a check gives for its possible error.
pub open spec fn outcome(error: Option<Seq<char>>, r: Result<(), ProgramValidationError>) -> bool {
    match error {
        None => r is Ok,
        Some(m) => r matches Err(e) && e.message@ == m,
    }
}

// ---------------------------------------------------------------------------
// Simple checks
// ---------------------------------------------------------------------------

/// Rejects `actual` above `limit`.
pub(crate) fn check_limit(subject: &str, actual: usize, limit: usize) -> (r: Result<(), ProgramValidationError>)
    ensures
        outcome(limit_error(subject@, actual as nat, limit as nat), r),
{
    if actual > limit {
        let mut message = String::from_str(subject);
        append_str(&mut message, " exceeds limit ");
        append_number(&mut message, limit as u64);
        append_str(&mut message, " (found ");
        append_number(&mut message, actual as u64);
        append_str(&mut message, ")");
        return fail(message);
    }
    Ok(())
}

fn validate_register(register: u16, register_count: usize, id: usize, role: &str) -> (r: Result<
    (),
    ProgramValidationError,
>)
    ensures
        outcome(register_error(register as nat, register_count as nat, id as nat, role@), r),
{
    if register as usize >= register_count {
        let mut message = chunk_message(id);
        append_str(&mut message, " references missing ");
        append_str(&mut message, role);
        append_str(&mut message, " register ");
        append_number(&mut message, register as u64);
        return fail(message);
    }
    Ok(())
}

fn validate_range(range: &Range<u16>, registers: usize, id: usize, pc: usize) -> (r: Result<
    (),
    ProgramValidationError,
>)
    ensures
        outcome(range_error(range.start as nat, range.end as nat, registers as nat, id as nat, pc as nat), r),
{
    if range.start > range.end || range.end as usize > registers {
        let mut message = op_message(id, pc);
        append_str(&mut message, " has invalid register range ");
        append_number(&mut message, range.start as u64);
        append_str(&mut message, "..");
        append_number(&mut message, range.end as u64);
        return fail(message);
    }
    Ok(())
}

fn validate_slot(slot: u32, slot_count: usize, context: ValidationContext) -> (r: Result<
    (),
    ProgramValidationError,
>)
    ensures
        outcome(slot_error(slot as nat, slot_count as nat, context), r),
{
    if slot as usize >= slot_count {
        let mut message = context_message(context);
        append_str(&mut message, " references missing slot ");
        append_number(&mut message, slot as u64);
        return fail(message);
    }
    Ok(())
}

fn validate_chunk_id(chunk: u32, chunk_count: usize, context: ValidationContext) -> (r: Result<
    (),
    ProgramValidationError,
>)
    ensures
        outcome(chunk_id_error(chunk as nat, chunk_count as nat, context), r),
{
    if chunk as usize >= chunk_count {
        let mut message = context_message(context);
        append_str(&mut message, " references missing expression chunk ");
        append_number(&mut message, chunk as u64);
        return fail(message);
    }
    Ok(())
}

fn validate_program_target(target: u32, op_count: usize, pc: usize) -> (r: Result<
    (),
    ProgramValidationError,
>)
    ensures
        outcome(target_error(target as nat, op_count as nat, pc as nat), r),
{
    if target as usize > op_count {
        let mut message = String::from_str("op ");
        append_number(&mut message, pc as u64);
        append_str(&mut message, " references jump target ");
        append_number(&mut message, target as u64);
        append_str(&mut message, " past program end ");
        append_number(&mut message, op_count as u64);
        return fail(message);
    }
    Ok(())
}

fn range_count(range: &Range<u16>) -> (r: usize)
    ensures
        r == range_len(*range),
{
    if range.start <= range.end {
        (range.end - range.start) as usize
    } else {
        0
    }
}

fn validate_arity(function: Builtin, count: usize, id: usize, pc: usize, kind: &str) -> (r: Result<
    (),
    ProgramValidationError,
>)
    ensures
        outcome(arity_error(function, count as nat, id as nat, pc as nat, kind@), r),
{
    if function.accepts(count) {
        return Ok(());
    }
    let mut message = op_message(id, pc);
    append_str(&mut message, " has invalid ");
    append_str(&mut message, kind);
    append_str(&mut message, " argument count ");
    append_number(&mut message, count as u64);
    fail(message)
}

/// Checks the registers, slots, constants and jump of one instruction.
fn validate_instruction(op: &ExprOp, chunk: &ExprChunkRef<'_>, slot_count: usize, id: usize, pc: usize) -> (r:
    Result<(), ProgramValidationError>)
    ensures
        outcome(instruction_error(*op, chunk.model(), slot_count as nat, id as nat, pc as nat), r),
{
    proof {
        lemma_view_items(chunk.constants@);
    }
    let registers = chunk.registers as usize;
    let context = ValidationContext::ExpressionOp { chunk: id, pc };
    match op {
        ExprOp::Const { dst, constant } => {
            validate_register(*dst, registers, id, "destination")?;
            if *constant as usize >= chunk.constants.len() {
                let mut message = op_message(id, pc);
                append_str(&mut message, " references missing constant ");
                append_number(&mut message, *constant as u64);
                return fail(message);
            }
        },
        ExprOp::Load { dst, slot, .. } => {
            validate_register(*dst, registers, id, "destination")?;
            validate_slot(*slot, slot_count, context)?;
        },
        ExprOp::Unary { dst, source, .. } => {
            validate_register(*dst, registers, id, "destination")?;
            validate_register(*source, registers, id, "source")?;
        },
        ExprOp::Binary { dst, left, right, .. } => {
            validate_register(*dst, registers, id, "destination")?;
            validate_register(*left, registers, id, "left source")?;
            validate_register(*right, registers, id, "right source")?;
        },
        ExprOp::Call { dst, function, args } => {
            if *function == Builtin::Random || *function == Builtin::Chance {
                let mut message = op_message(id, pc);
                append_str(&mut message, " must use the dedicated random opcode");
                return fail(message);
            }
            validate_register(*dst, registers, id, "destination")?;
            validate_range(args, registers, id, pc)?;
            validate_arity(*function, range_count(args), id, pc, "builtin")?;
        },
        ExprOp::Random { dst, args, state_slot } => {
            validate_register(*dst, registers, id, "destination")?;
            validate_range(args, registers, id, pc)?;
            validate_slot(*state_slot, slot_count, context)?;
            validate_arity(Builtin::Random, range_count(args), id, pc, "random")?;
        },
        ExprOp::Chance { dst, args, state_slot } => {
            validate_register(*dst, registers, id, "destination")?;
            validate_range(args, registers, id, pc)?;
            validate_slot(*state_slot, slot_count, context)?;
            validate_arity(Builtin::Chance, range_count(args), id, pc, "random")?;
        },
        ExprOp::JumpIfFalse { condition, target } | ExprOp::JumpIfTrue { condition, target } => {
            validate_register(*condition, registers, id, "condition")?;
            let target = *target as usize;
            if target <= pc || target > chunk.ops.len() {
                let mut message = op_message(id, pc);
                append_str(&mut message, " has invalid non-forward jump target ");
                append_number(&mut message, target as u64);
                return fail(message);
            }
        },
        ExprOp::Concat { dst, values } => {
            validate_register(*dst, registers, id, "destination")?;
            validate_range(values, registers, id, pc)?;
        },
    }
    Ok(())
}


// ---------------------------------------------------------------------------
// Register definitions along every path
// ---------------------------------------------------------------------------

/// The registers in `start..end`.
pub open spec fn range_registers(start: nat, end: nat) -> Seq<nat> {
    if start <= end {
        Seq::new((end - start) as nat, |i: int| (start + i) as nat)
    } else {
        Seq::empty()
    }
}

/// The registers an instruction reads, in the order they are checked.
pub open spec fn sources(op: ExprOp) -> Seq<nat> {
    match op {
        ExprOp::Const { .. } | ExprOp::Load { .. } => Seq::empty(),
        ExprOp::Unary { source, .. } => seq![source as nat],
        ExprOp::Binary { left, right, .. } => seq![left as nat, right as nat],
        ExprOp::Call { args, .. } | ExprOp::Random { args, .. } | ExprOp::Chance { args, .. } => range_registers(
            args.start as nat,
            args.end as nat,
        ),
        ExprOp::JumpIfFalse { condition, .. } | ExprOp::JumpIfTrue { condition, .. } => seq![condition as nat],
        ExprOp::Concat { values, .. } => range_registers(values.start as nat, values.end as nat),
    }
}

/// The register an instruction writes.
pub open spec fn destination(op: ExprOp) -> Option<nat> {
    match op {
        ExprOp::Const { dst, .. } | ExprOp::Load { dst, .. } | ExprOp::Unary { dst, .. } | ExprOp::Binary {
            dst,
            ..
        } | ExprOp::Call { dst, .. } | ExprOp::Random { dst, .. } | ExprOp::Chance { dst, .. }
        | ExprOp::Concat { dst, .. } => Some(dst as nat),
        ExprOp::JumpIfFalse { .. } | ExprOp::JumpIfTrue { .. } => None,
    }
}

/// The jump target of a branch.
pub open spec fn branch_target(op: ExprOp) -> Option<nat> {
    match op {
        ExprOp::JumpIfFalse { target, .. } | ExprOp::JumpIfTrue { target, .. } => Some(target as nat),
        _ => None,
    }
}

/// The first register of `registers` not defined in `state`.
pub open spec fn first_undefined(registers: Seq<nat>, state: Seq<bool>) -> Option<nat>
    decreases registers.len(),
{
    if registers.len() == 0 {
        None
    } else if !state[registers[0] as int] {
        Some(registers[0])
    } else {
        first_undefined(registers.subrange(1, registers.len() as int), state)
    }
}

/// Registers defined on every path so far, joined with those of a new path.
pub open spec fn meet_into(slot: Option<Seq<bool>>, incoming: Seq<bool>) -> Option<Seq<bool>> {
    match slot {
        Some(current) => Some(
            Seq::new(
                current.len(),
                |i: int|
                    if i < incoming.len() {
                        current[i] && incoming[i]
                    } else {
                        current[i]
                    },
            ),
        ),
        None => Some(incoming),
    }
}

/// Processes instruction `pc`: checks its reads against the registers
/// defined on every path to it, then passes the definitions on.
pub open spec fn flow_step(m: ChunkModel, id: nat, states: Seq<Option<Seq<bool>>>, pc: nat) -> Result<
    Seq<Option<Seq<bool>>>,
    Seq<char>,
> {
    match states[pc as int] {
        None => Ok(states),
        Some(state) => {
            let op = m.ops[pc as int];
            match first_undefined(sources(op), state) {
                Some(register) => Err(op_prefix(id, pc) + " reads undefined register "@ + digits(register)),
                None => {
                    let outgoing = match destination(op) {
                        Some(d) => state.update(d as int, true),
                        None => state,
                    };
                    let taken = states.update(pc as int, None);
                    match branch_target(op) {
                        Some(target) => {
                            let jumped = taken.update(target as int, meet_into(taken[target as int], outgoing));
                            Ok(jumped.update((pc + 1) as int, meet_into(jumped[(pc + 1) as int], outgoing)))
                        },
                        None => Ok(taken.update((pc + 1) as int, meet_into(taken[(pc + 1) as int], outgoing))),
                    }
                },
            }
        },
    }
}

pub open spec fn initial_states(m: ChunkModel) -> Seq<Option<Seq<bool>>> {
    Seq::new(
        m.ops.len() + 1,
        |i: int|
            if i == 0 {
                Some(Seq::new(m.registers, |j: int| false))
            } else {
                None
            },
    )
}

/// The definition states after the first `p` instructions, or the first
/// undefined read among them.
pub open spec fn flow_upto(m: ChunkModel, id: nat, p: nat) -> Result<Seq<Option<Seq<bool>>>, Seq<char>>
    decreases p,
{
    if p == 0 {
        Ok(initial_states(m))
    } else {
        match flow_upto(m, id, (p - 1) as nat) {
            Err(e) => Err(e),
            Ok(states) => flow_step(m, id, states, (p - 1) as nat),
        }
    }
}

/// The first register-definition problem of a chunk.
pub open spec fn flow_error(m: ChunkModel, id: nat) -> Option<Seq<char>> {
    match flow_upto(m, id, m.ops.len()) {
        Err(e) => Some(e),
        Ok(states) => match states[m.ops.len() as int] {
            None => Some(chunk_prefix(id) + " cannot reach its result"@),
            Some(state) => if !state[m.result as int] {
                Some(chunk_prefix(id) + " leaves result register "@ + digits(m.result) + " undefined"@)
            } else {
                None
            },
        },
    }
}

/// Every instruction of the chunk passes its own checks.
pub open spec fn instructions_valid(m: ChunkModel, slot_count: nat, id: nat) -> bool {
    forall|pc: int| 0 <= pc < m.ops.len() ==> instruction_error(#[trigger] m.ops[pc], m, slot_count, id, pc as nat) is None
}

pub open spec fn states_view(states: Seq<Option<Vec<bool>>>) -> Seq<Option<Seq<bool>>> {
    Seq::new(
        states.len(),
        |i: int|
            match states[i] {
                Some(v) => Some(v@),
                None => None,
            },
    )
}

/// The states have the shape the walk keeps: one per position, each over
/// every register.
pub open spec fn states_shaped(states: Seq<Option<Seq<bool>>>, m: ChunkModel) -> bool {
    &&& states.len() == m.ops.len() + 1
    &&& forall|i: int| 0 <= i < states.len() ==> (#[trigger] states[i] matches Some(s) ==> s.len() == m.registers)
}

proof fn lemma_flow_shaped(m: ChunkModel, id: nat, slot_count: nat, p: nat)
    requires
        instructions_valid(m, slot_count, id),
        p <= m.ops.len(),
    ensures
        flow_upto(m, id, p) matches Ok(states) ==> states_shaped(states, m) && forall|i: int|
            0 <= i < p ==> states[i] is None,
    decreases p,
{
    if p > 0 {
        lemma_flow_shaped(m, id, slot_count, (p - 1) as nat);
    }
}

fn merge_register_state(slot: &mut Option<Vec<bool>>, incoming: &Vec<bool>)
    ensures
        match *final(slot) {
            Some(v) => meet_into(
                match *old(slot) {
                    Some(c) => Some(c@),
                    None => None,
                },
                incoming@,
            ) == Some(v@),
            None => false,
        },
{
    let taken = slot.take();
    match taken {
        Some(mut current) => {
            let ghost before = current@;
            let n = if current.len() < incoming.len() { current.len() } else { incoming.len() };
            let mut i: usize = 0;
            while i < n
                invariant
                    n <= current@.len(),
                    n <= incoming@.len(),
                    n == (if before.len() < incoming@.len() { before.len() } else { incoming@.len() }),
                    i <= n,
                    current@.len() == before.len(),
                    forall|j: int| 0 <= j < i ==> #[trigger] current@[j] == (before[j] && incoming@[j]),
                    forall|j: int| i <= j < current@.len() ==> #[trigger] current@[j] == before[j],
                decreases n - i,
            {
                let merged = current[i] && incoming[i];
                current.set(i, merged);
                i = i + 1;
            }
            proof {
                let expected = meet_into(Some(before), incoming@);
                assert(expected->0 =~= current@);
            }
            *slot = Some(current);
        },
        None => {
            let mut copy: Vec<bool> = Vec::new();
            let mut i: usize = 0;
            while i < incoming.len()
                invariant
                    i <= incoming@.len(),
                    copy@ == incoming@.subrange(0, i as int),
                decreases incoming@.len() - i,
            {
                copy.push(incoming[i]);
                i = i + 1;
                assert(copy@ =~= incoming@.subrange(0, i as int));
            }
            assert(copy@ =~= incoming@);
            *slot = Some(copy);
        },
    }
}

fn instruction_sources(op: &ExprOp) -> (r: Vec<u16>)
    ensures
        r@.len() == sources(*op).len(),
        forall|i: int| 0 <= i < r@.len() ==> r@[i] as nat == #[trigger] sources(*op)[i],
{
    match op {
        ExprOp::Const { .. } | ExprOp::Load { .. } => Vec::new(),
        ExprOp::Unary { source, .. } => vec![*source],
        ExprOp::Binary { left, right, .. } => vec![*left, *right],
        ExprOp::Call { args, .. } | ExprOp::Random { args, .. } | ExprOp::Chance { args, .. } => registers_in(args),
        ExprOp::JumpIfFalse { condition, .. } | ExprOp::JumpIfTrue { condition, .. } => vec![*condition],
        ExprOp::Concat { values, .. } => registers_in(values),
    }
}

fn registers_in(range: &Range<u16>) -> (r: Vec<u16>)
    ensures
        r@.len() == range_registers(range.start as nat, range.end as nat).len(),
        forall|i: int|
            0 <= i < r@.len() ==> r@[i] as nat == #[trigger] range_registers(range.start as nat, range.end as nat)[i],
{
    let mut out: Vec<u16> = Vec::new();
    if range.start > range.end {
        return out;
    }
    let mut register = range.start;
    while register < range.end
        invariant
            range.start <= register <= range.end,
            out@.len() == register - range.start,
            forall|i: int| 0 <= i < out@.len() ==> out@[i] == range.start + i,
        decreases range.end - register,
    {
        out.push(register);
        register = register + 1;
    }
    out
}

fn instruction_destination(op: &ExprOp) -> (r: Option<u16>)
    ensures
        match r {
            Some(d) => destination(*op) == Some(d as nat),
            None => destination(*op) is None,
        },
{
    match op {
        ExprOp::Const { dst, .. } | ExprOp::Load { dst, .. } | ExprOp::Unary { dst, .. } | ExprOp::Binary {
            dst,
            ..
        } | ExprOp::Call { dst, .. } | ExprOp::Random { dst, .. } | ExprOp::Chance { dst, .. }
        | ExprOp::Concat { dst, .. } => Some(*dst),
        ExprOp::JumpIfFalse { .. } | ExprOp::JumpIfTrue { .. } => None,
    }
}


/// What the definition walk relies on: reads and writes name registers of
/// the chunk and branches go forward to a position of the chunk.
pub open spec fn flow_ready(m: ChunkModel) -> bool {
    forall|pc: int|
        0 <= pc < m.ops.len() ==> {
            &&& forall|k: int| 0 <= k < sources(#[trigger] m.ops[pc]).len() ==> sources(m.ops[pc])[k] < m.registers
            &&& destination(m.ops[pc]) matches Some(d) ==> d < m.registers
            &&& branch_target(m.ops[pc]) matches Some(t) ==> pc < t <= m.ops.len()
        }
}

proof fn lemma_instructions_ready(m: ChunkModel, slot_count: nat, id: nat)
    requires
        instructions_valid(m, slot_count, id),
    ensures
        flow_ready(m),
{
    assert forall|pc: int| 0 <= pc < m.ops.len() implies {
        &&& forall|k: int| 0 <= k < sources(#[trigger] m.ops[pc]).len() ==> sources(m.ops[pc])[k] < m.registers
        &&& destination(m.ops[pc]) matches Some(d) ==> d < m.registers
        &&& branch_target(m.ops[pc]) matches Some(t) ==> pc < t <= m.ops.len()
    } by {
        assert(instruction_error(m.ops[pc], m, slot_count, id, pc as nat) is None);
    }
}

proof fn lemma_states_view_update(states: Seq<Option<Vec<bool>>>, i: int, value: Option<Vec<bool>>)
    requires
        0 <= i < states.len(),
    ensures
        states_view(states.update(i, value)) == states_view(states).update(
            i,
            match value {
                Some(v) => Some(v@),
                None => None,
            },
        ),
{
    assert(states_view(states.update(i, value)) =~= states_view(states).update(
        i,
        match value {
            Some(v) => Some(v@),
            None => None,
        },
    ));
}

proof fn lemma_flow_error_persists(m: ChunkModel, id: nat, p: nat, q: nat)
    requires
        p <= q,
        flow_upto(m, id, p) is Err,
    ensures
        flow_upto(m, id, q) == flow_upto(m, id, p),
    decreases q - p,
{
    if p < q {
        lemma_flow_error_persists(m, id, p, (q - 1) as nat);
    }
}

/// Walks the chunk in order, checking that every register is defined on
/// every path before it is read and that the result is defined at the end.
#[verifier::loop_isolation(false)]
fn validate_register_flow(chunk: &ExprChunkRef<'_>, id: usize) -> (r: Result<(), ProgramValidationError>)
    requires
        flow_ready(chunk.model()),
        chunk.result < chunk.registers,
    ensures
        outcome(flow_error(chunk.model(), id as nat), r),
{
    let ghost m = chunk.model();
    let op_count = chunk.ops.len();
    let mut states: Vec<Option<Vec<bool>>> = Vec::new();
    let mut start: Vec<bool> = Vec::new();
    let mut j: usize = 0;
    while j < chunk.registers as usize
        invariant
            j <= chunk.registers,
            start@.len() == j,
            forall|k: int| 0 <= k < j ==> start@[k] == false,
        decreases chunk.registers - j,
    {
        start.push(false);
        j = j + 1;
    }
    states.push(Some(start));
    let mut k: usize = 0;
    while k < op_count
        invariant
            op_count == m.ops.len(),
            k <= op_count,
            states@.len() == k + 1,
            states@[0] is Some,
            forall|i: int| 1 <= i < states@.len() ==> states@[i] is None,
            states@[0]->0@ == Seq::new(m.registers, |j: int| false),
        decreases op_count - k,
    {
        states.push(None);
        k = k + 1;
    }
    assert(states_view(states@) =~= initial_states(m));
    let mut pc: usize = 0;
    while pc < op_count
        invariant
            m == chunk.model(),
            flow_ready(m),
            op_count == m.ops.len(),
            pc <= op_count,
            states@.len() == op_count + 1,
            flow_upto(m, id as nat, pc as nat) == Ok::<Seq<Option<Seq<bool>>>, Seq<char>>(states_view(states@)),
            forall|i: int| 0 <= i < states@.len() ==> (#[trigger] states@[i] matches Some(s) ==> s@.len() == m.registers),
        decreases op_count - pc,
    {
        let ghost before = states@;
        proof {
            lemma_states_view_update(before, pc as int, None);
        }
        let taken = states[pc].take();
        let state = match taken {
            None => {
                assert(states@ =~= before);
                pc = pc + 1;
                continue;
            },
            Some(state) => state,
        };
        let op = &chunk.ops[pc];
        assert(*op == m.ops[pc as int]);
        let reads = instruction_sources(op);
        let ghost all_reads = sources(*op);
        assert(forall|i: int| 0 <= i < all_reads.len() ==> #[trigger] all_reads[i] < m.registers);
        assert(before[pc as int] matches Some(s) && s@.len() == m.registers);
        assert(states_view(before)[pc as int] == Some(state@));
        assert(all_reads.subrange(0, all_reads.len() as int) =~= all_reads);
        let mut k: usize = 0;
        while k < reads.len()
            invariant
                reads@.len() == all_reads.len(),
                forall|i: int| 0 <= i < reads@.len() ==> reads@[i] as nat == #[trigger] all_reads[i],
                forall|i: int| 0 <= i < all_reads.len() ==> #[trigger] all_reads[i] < m.registers,
                state@.len() == m.registers,
                k <= reads@.len(),
                first_undefined(all_reads, state@) == first_undefined(
                    all_reads.subrange(k as int, all_reads.len() as int),
                    state@,
                ),
            decreases reads@.len() - k,
        {
            let ghost rest = all_reads.subrange(k as int, all_reads.len() as int);
            assert(rest[0] == all_reads[k as int]);
            assert(rest.subrange(1, rest.len() as int) =~= all_reads.subrange(k + 1, all_reads.len() as int));
            let source = reads[k];
            if !state[source as usize] {
                let mut message = op_message(id, pc);
                append_str(&mut message, " reads undefined register ");
                append_number(&mut message, source as u64);
                proof {
                    assert(flow_upto(m, id as nat, (pc + 1) as nat) is Err);
                    lemma_flow_error_persists(m, id as nat, (pc + 1) as nat, m.ops.len());
                }
                return fail(message);
            }
            k = k + 1;
        }
        assert(all_reads.subrange(k as int, all_reads.len() as int) =~= Seq::<nat>::empty());
        let mut outgoing = state;
        match instruction_destination(op) {
            Some(dst) => {
                outgoing.set(dst as usize, true);
            },
            None => {},
        }
        let ghost taken_view = states_view(states@);
        match op {
            ExprOp::JumpIfFalse { target, .. } | ExprOp::JumpIfTrue { target, .. } => {
                let t = *target as usize;
                let ghost s0 = states@;
                proof {
                    lemma_states_view_update(s0, t as int, states@[t as int]);
                }
                let ghost prior_t = states@[t as int];
                merge_register_state(&mut states[t], &outgoing);
                proof {
                    lemma_states_view_update(s0, t as int, states@[t as int]);
                }
                let ghost s1 = states@;
                merge_register_state(&mut states[pc + 1], &outgoing);
                proof {
                    lemma_states_view_update(s1, pc + 1, states@[pc + 1]);
                }
            },
            _ => {
                let ghost s0 = states@;
                merge_register_state(&mut states[pc + 1], &outgoing);
                proof {
                    lemma_states_view_update(s0, pc + 1, states@[pc + 1]);
                }
            },
        }
        pc = pc + 1;
    }
    match &states[op_count] {
        None => {
            let mut message = chunk_message(id);
            append_str(&mut message, " cannot reach its result");
            fail(message)
        },
        Some(last) => {
            if !last[chunk.result as usize] {
                let mut message = chunk_message(id);
                append_str(&mut message, " leaves result register ");
                append_number(&mut message, chunk.result as u64);
                append_str(&mut message, " undefined");
                return fail(message);
            }
            Ok(())
        },
    }
}


// ---------------------------------------------------------------------------
// Chunks
// ---------------------------------------------------------------------------

/// The first instruction error among the first `p` instructions.
pub open spec fn first_instruction_error(m: ChunkModel, slot_count: nat, id: nat, p: nat) -> Option<Seq<char>>
    decreases p,
{
    if p == 0 {
        None
    } else {
        either(
            first_instruction_error(m, slot_count, id, (p - 1) as nat),
            instruction_error(m.ops[p - 1], m, slot_count, id, (p - 1) as nat),
        )
    }
}

proof fn lemma_first_instruction_error(m: ChunkModel, slot_count: nat, id: nat, p: nat)
    requires
        p <= m.ops.len(),
        first_instruction_error(m, slot_count, id, p) is None,
    ensures
        forall|pc: int| 0 <= pc < p ==> instruction_error(#[trigger] m.ops[pc], m, slot_count, id, pc as nat) is None,
    decreases p,
{
    if p > 0 {
        lemma_first_instruction_error(m, slot_count, id, (p - 1) as nat);
    }
}

proof fn lemma_first_error_persists(m: ChunkModel, slot_count: nat, id: nat, p: nat, q: nat)
    requires
        p <= q,
        first_instruction_error(m, slot_count, id, p) is Some,
    ensures
        first_instruction_error(m, slot_count, id, q) == first_instruction_error(m, slot_count, id, p),
    decreases q - p,
{
    if p < q {
        lemma_first_error_persists(m, slot_count, id, p, (q - 1) as nat);
    }
}

/// The value and text totals of the first `k` constants, or the first
/// invalid constant or overflow.
pub open spec fn constant_totals(id: nat, constants: Seq<Datum>, k: nat) -> Result<(nat, nat), Seq<char>>
    decreases k,
{
    if k == 0 {
        Ok((0, 0))
    } else {
        match constant_totals(id, constants, (k - 1) as nat) {
            Err(e) => Err(e),
            Ok((values, bytes)) => {
                let d = constants[k - 1];
                if !within_budget(d) {
                    Err(chunk_prefix(id) + " has an invalid constant: "@ + budget_error(d))
                } else if values + node_count(d) > usize::MAX {
                    Err("constant value budget overflow"@)
                } else if bytes + text_size(d) > usize::MAX {
                    Err("program text budget overflow"@)
                } else {
                    Ok((values + node_count(d), bytes + text_size(d)))
                }
            },
        }
    }
}

/// The first structural problem of chunk `id` in a frame of `slot_count`
/// slots.
pub open spec fn chunk_structure_error(m: ChunkModel, slot_count: nat, id: nat) -> Option<Seq<char>> {
    either(
        limit_error("ops in expression chunk "@ + digits(id), m.ops.len(), MAX_EXPR_OPS as nat),
        either(
            if m.registers == 0 {
                Some(chunk_prefix(id) + " has no registers"@)
            } else {
                None
            },
            either(
                limit_error("registers in expression chunk "@ + digits(id), m.registers, MAX_EXPR_REGISTERS as nat),
                either(
                    register_error(m.result, m.registers, id, "result"@),
                    either(first_instruction_error(m, slot_count, id, m.ops.len()), flow_error(m, id)),
                ),
            ),
        ),
    )
}

/// What validating chunk `id` gives: its constant value and text totals,
/// or the first problem.
pub open spec fn chunk_validation(m: ChunkModel, slot_count: nat, id: nat) -> Result<(nat, nat), Seq<char>> {
    match chunk_structure_error(m, slot_count, id) {
        Some(e) => Err(e),
        None => constant_totals(id, m.constants, m.constants.len()),
    }
}

fn checked_total(total: usize, extra: usize, overflow: &str) -> (r: Result<usize, ProgramValidationError>)
    ensures
        total + extra <= usize::MAX ==> r == Ok::<usize, ProgramValidationError>((total + extra) as usize),
        total + extra > usize::MAX ==> (r matches Err(e) && e.message@ == overflow@),
{
    match total.checked_add(extra) {
        Some(sum) => Ok(sum),
        None => Err(ProgramValidationError::new(String::from_str(overflow))),
    }
}

fn tally_constants(constants: &[Value], id: usize) -> (r: Result<(usize, usize), ProgramValidationError>)
    ensures
        match constant_totals(id as nat, view_items(constants@), constants@.len()) {
            Ok((values, bytes)) => r matches Ok((v, b)) && v == values && b == bytes,
            Err(e) => r matches Err(x) && x.message@ == e,
        },
{
    let ghost all = view_items(constants@);
    proof {
        lemma_view_items(constants@);
    }
    let mut values: usize = 0;
    let mut bytes: usize = 0;
    let mut k: usize = 0;
    while k < constants.len()
        invariant
            k <= constants@.len(),
            all == view_items(constants@),
            all.len() == constants@.len(),
            forall|i: int| 0 <= i < all.len() ==> #[trigger] all[i] == constants@[i]@,
            constant_totals(id as nat, all, k as nat) == Ok::<(nat, nat), Seq<char>>((values as nat, bytes as nat)),
        decreases constants@.len() - k,
    {
        let footprint = match constants[k].data_footprint() {
            Ok(f) => f,
            Err(e) => {
                let mut message = chunk_message(id);
                append_str(&mut message, " has an invalid constant: ");
                append_str(&mut message, e);
                proof {
                    lemma_totals_error_persists(id as nat, all, (k + 1) as nat, all.len());
                }
                return Err(ProgramValidationError::new(message));
            },
        };
        values = match checked_total(values, footprint.values, "constant value budget overflow") {
            Ok(v) => v,
            Err(e) => {
                proof {
                    lemma_totals_error_persists(id as nat, all, (k + 1) as nat, all.len());
                }
                return Err(e);
            },
        };
        bytes = match checked_total(bytes, footprint.text_bytes, "program text budget overflow") {
            Ok(b) => b,
            Err(e) => {
                proof {
                    lemma_totals_error_persists(id as nat, all, (k + 1) as nat, all.len());
                }
                return Err(e);
            },
        };
        k = k + 1;
    }
    Ok((values, bytes))
}

proof fn lemma_totals_error_persists(id: nat, constants: Seq<Datum>, p: nat, q: nat)
    requires
        p <= q,
        constant_totals(id, constants, p) is Err,
    ensures
        constant_totals(id, constants, q) == constant_totals(id, constants, p),
    decreases q - p,
{
    if p < q {
        lemma_totals_error_persists(id, constants, p, (q - 1) as nat);
    }
}

/// Checks one expression chunk: sizes, registers, every instruction, the
/// register definitions along every path, and the constant budget.
#[verifier::loop_isolation(false)]
fn validate_chunk(chunk: &ExprChunkRef<'_>, slot_count: usize, id: usize) -> (r: Result<
    (usize, usize),
    ProgramValidationError,
>)
    ensures
        match chunk_validation(chunk.model(), slot_count as nat, id as nat) {
            Ok((values, bytes)) => r matches Ok((v, b)) && v == values && b == bytes,
            Err(e) => r matches Err(x) && x.message@ == e,
        },
{
    let ghost m = chunk.model();
    proof {
        lemma_view_items(chunk.constants@);
    }
    let mut subject = String::from_str("ops in expression chunk ");
    append_number(&mut subject, id as u64);
    check_limit(subject.as_str(), chunk.ops.len(), MAX_EXPR_OPS)?;
    let register_count = chunk.registers as usize;
    if register_count == 0 {
        let mut message = chunk_message(id);
        append_str(&mut message, " has no registers");
        return Err(ProgramValidationError::new(message));
    }
    let mut subject = String::from_str("registers in expression chunk ");
    append_number(&mut subject, id as u64);
    check_limit(subject.as_str(), register_count, MAX_EXPR_REGISTERS)?;
    validate_register(chunk.result, register_count, id, "result")?;
    let mut pc: usize = 0;
    while pc < chunk.ops.len()
        invariant
            m == chunk.model(),
            pc <= m.ops.len(),
            first_instruction_error(m, slot_count as nat, id as nat, pc as nat) is None,
        decreases m.ops.len() - pc,
    {
        let checked = validate_instruction(&chunk.ops[pc], chunk, slot_count, id, pc);
        if checked.is_err() {
            proof {
                lemma_first_error_persists(m, slot_count as nat, id as nat, (pc + 1) as nat, m.ops.len());
            }
            return match checked {
                Err(e) => Err(e),
                Ok(_) => Ok((0, 0)),
            };
        }
        pc = pc + 1;
    }
    proof {
        lemma_first_instruction_error(m, slot_count as nat, id as nat, m.ops.len());
        lemma_instructions_ready(m, slot_count as nat, id as nat);
    }
    validate_register_flow(chunk, id)?;
    tally_constants(chunk.constants, id)
}

impl ExprChunk {
    /// Verifies register indices, definitions, jumps and data budgets for a
    /// frame of `slot_count` slots.
    pub fn validate(&self, slot_count: usize) -> (r: Result<(), ProgramValidationError>)
        ensures
            outcome(chunk_check(self.model(), slot_count as nat), r),
    {
        check_limit("variable slots", slot_count, MAX_PROGRAM_SLOTS)?;
        let chunk = self.as_chunk_ref();
        let (values, bytes) = validate_chunk(&chunk, slot_count, 0)?;
        check_limit("constant values", values, MAX_PROGRAM_CONSTANT_VALUES)?;
        check_limit("expression text bytes", bytes, MAX_PROGRAM_TEXT_BYTES)
    }
}

/// The first problem of a standalone chunk in a frame of `slot_count` slots.
pub open spec fn chunk_check(m: ChunkModel, slot_count: nat) -> Option<Seq<char>> {
    match limit_error("variable slots"@, slot_count, MAX_PROGRAM_SLOTS as nat) {
        Some(e) => Some(e),
        None => match chunk_validation(m, slot_count, 0) {
            Err(e) => Some(e),
            Ok((values, bytes)) => either(
                limit_error("constant values"@, values, MAX_PROGRAM_CONSTANT_VALUES as nat),
                limit_error("expression text bytes"@, bytes, MAX_PROGRAM_TEXT_BYTES as nat),
            ),
        },
    }
}


// ---------------------------------------------------------------------------
// Programs
// ---------------------------------------------------------------------------

/// The chunks an update evaluates, in order.
pub open spec fn update_chunk_ids(operation: UpdateOp) -> Seq<nat> {
    match operation {
        UpdateOp::Add { rhs } => seq![rhs as nat],
        UpdateOp::AddInteger { .. } => Seq::empty(),
        UpdateOp::Push { value } => seq![value as nat],
        UpdateOp::Put { key, value } => seq![key as nat, value as nat],
        UpdateOp::Remove { key } => seq![key as nat],
    }
}

/// The first missing chunk among `ids`.
pub open spec fn first_chunk_id_error(ids: Seq<nat>, count: nat, context: ValidationContext) -> Option<Seq<char>>
    decreases ids.len(),
{
    if ids.len() == 0 {
        None
    } else {
        either(
            chunk_id_error(ids[0], count, context),
            first_chunk_id_error(ids.subrange(1, ids.len() as int), count, context),
        )
    }
}

/// Whether a comparison may guard an integer branch.
pub open spec fn is_integer_comparison(c: BinaryOp) -> bool {
    c == BinaryOp::Equal || c == BinaryOp::NotEqual || c == BinaryOp::Less || c == BinaryOp::LessEqual || c
        == BinaryOp::Greater || c == BinaryOp::GreaterEqual
}

pub open spec fn host_ids(args: Seq<ChunkId>) -> Seq<nat> {
    Seq::new(args.len(), |i: int| args[i] as nat)
}

/// The first problem of program instruction `pc`.
pub open spec fn program_op_error(p: &Program, op: Op, pc: nat) -> Option<Seq<char>> {
    let slots = p.slots.width();
    let chunks = p.chunks@.len();
    let context = ValidationContext::ProgramOp(pc as usize);
    match op {
        Op::SetSlot { slot, value } => either(
            slot_error(slot as nat, slots, context),
            chunk_id_error(value as nat, chunks, context),
        ),
        Op::SetConst { slot, value, .. } => either(
            slot_error(slot as nat, slots, context),
            if within_budget(value@) {
                None
            } else {
                Some("op "@ + digits(pc) + " has an invalid constant: "@ + budget_error(value@))
            },
        ),
        Op::CopySlot { slot, source, .. } => either(
            slot_error(slot as nat, slots, context),
            slot_error(source as nat, slots, context),
        ),
        Op::Update { slot, operation, .. } => either(
            slot_error(slot as nat, slots, context),
            first_chunk_id_error(update_chunk_ids(operation), chunks, context),
        ),
        Op::Jump(target) => target_error(target as nat, p.ops@.len(), pc),
        Op::JumpIfFalse { condition, target } => either(
            chunk_id_error(condition as nat, chunks, context),
            target_error(target as nat, p.ops@.len(), pc),
        ),
        Op::JumpIfIntegerCompare { condition, slot, comparison, target, .. } => either(
            chunk_id_error(condition as nat, chunks, context),
            either(
                slot_error(slot as nat, slots, context),
                either(
                    if is_integer_comparison(comparison) {
                        None
                    } else {
                        Some("op "@ + digits(pc) + " has an invalid integer comparison"@)
                    },
                    target_error(target as nat, p.ops@.len(), pc),
                ),
            ),
        ),
        Op::Host(host) => if host.args@.len() > MAX_HOST_ARGUMENTS {
            Some(
                "host arguments at op "@ + digits(pc) + " exceeds limit "@ + digits(MAX_HOST_ARGUMENTS as nat)
                    + " (found "@ + digits(host.args@.len()) + ")"@,
            )
        } else {
            either(
                first_chunk_id_error(host_ids(host.args@), chunks, context),
                match host.bind {
                    Some(slot) => slot_error(slot as nat, slots, context),
                    None => None,
                },
            )
        },
        Op::Halt => None,
    }
}

/// The constant values and text a program instruction carries itself.
pub open spec fn program_op_footprint(op: Op) -> (nat, nat) {
    match op {
        Op::SetConst { value, .. } => (node_count(value@), text_size(value@)),
        _ => (0, 0),
    }
}

/// UTF-8 bytes of the first `k` slot names, or `None` on overflow.
pub open spec fn name_bytes(names: Seq<Seq<char>>, k: nat) -> Option<nat>
    decreases k,
{
    if k == 0 {
        Some(0)
    } else {
        match name_bytes(names, (k - 1) as nat) {
            None => None,
            Some(b) => if b + crate::text::utf8_len(names[k - 1]) > usize::MAX {
                None
            } else {
                Some(b + crate::text::utf8_len(names[k - 1]))
            },
        }
    }
}

/// The problem of one random instruction whose state slot is not the
/// program's reserved random-state slot.
pub open spec fn rng_op_error(op: ExprOp, reserved: Option<nat>, id: nat, pc: nat) -> Option<Seq<char>> {
    match op {
        ExprOp::Random { state_slot, .. } | ExprOp::Chance { state_slot, .. } => if reserved == Some(
            state_slot as nat,
        ) {
            None
        } else {
            Some(
                op_prefix(id, pc) + " random state slot "@ + digits(state_slot as nat)
                    + " does not match reserved RNG slot"@,
            )
        },
        _ => None,
    }
}

/// The first such problem among the first `k` instructions of a chunk.
pub open spec fn rng_error_upto(ops: Seq<ExprOp>, reserved: Option<nat>, id: nat, k: nat) -> Option<Seq<char>>
    decreases k,
{
    if k == 0 {
        None
    } else {
        match rng_error_upto(ops, reserved, id, (k - 1) as nat) {
            Some(e) => Some(e),
            None => rng_op_error(ops[k - 1], reserved, id, (k - 1) as nat),
        }
    }
}

proof fn lemma_rng_error_persists(ops: Seq<ExprOp>, reserved: Option<nat>, id: nat, a: nat, b: nat)
    requires
        a <= b,
        rng_error_upto(ops, reserved, id, a) is Some,
    ensures
        rng_error_upto(ops, reserved, id, b) == rng_error_upto(ops, reserved, id, a),
    decreases b - a,
{
    if a < b {
        lemma_rng_error_persists(ops, reserved, id, a, (b - 1) as nat);
    }
}

/// Checks that every random instruction of a chunk draws from the reserved
/// random-state slot.
fn check_random_slots(ops: &[ExprOp], reserved: Option<u32>, id: usize) -> (r: Result<(), ProgramValidationError>)
    ensures
        outcome(
            rng_error_upto(
                ops@,
                match reserved {
                    Some(s) => Some(s as nat),
                    None => None,
                },
                id as nat,
                ops@.len(),
            ),
            r,
        ),
{
    let ghost view = match reserved {
        Some(s) => Some(s as nat),
        None => None,
    };
    let mut pc: usize = 0;
    while pc < ops.len()
        invariant
            pc <= ops@.len(),
            view == match reserved {
                Some(s) => Some(s as nat),
                None => None::<nat>,
            },
            rng_error_upto(ops@, view, id as nat, pc as nat) is None,
        decreases ops@.len() - pc,
    {
        let state_slot = match &ops[pc] {
            ExprOp::Random { state_slot, .. } | ExprOp::Chance { state_slot, .. } => Some(*state_slot),
            _ => None,
        };
        if let Some(slot) = state_slot {
            let matches = match reserved {
                Some(r) => r == slot,
                None => false,
            };
            if !matches {
                let mut message = op_message(id, pc);
                append_str(&mut message, " random state slot ");
                append_number(&mut message, slot as u64);
                append_str(&mut message, " does not match reserved RNG slot");
                proof {
                    lemma_rng_error_persists(ops@, view, id as nat, (pc + 1) as nat, ops@.len());
                }
                return fail(message);
            }
        }
        pc = pc + 1;
    }
    Ok(())
}


/// Totals after validating the first `k` chunks, starting from `bytes`
/// text bytes.
pub open spec fn chunks_totals(p: &Program, k: nat, bytes: nat) -> Result<(nat, nat), Seq<char>>
    decreases k,
{
    if k == 0 {
        Ok((0, bytes))
    } else {
        match chunks_totals(p, (k - 1) as nat, bytes) {
            Err(e) => Err(e),
            Ok((v, b)) => match p.chunk_model(k - 1) {
                None => Err(chunk_prefix((k - 1) as nat) + " has an invalid arena range"@),
                Some(m) => match chunk_validation(m, p.slots.width(), (k - 1) as nat) {
                    Err(e) => Err(e),
                    Ok((cv, cb)) => match rng_error_upto(m.ops, p.slots.rng_slot(), (k - 1) as nat, m.ops.len()) {
                        Some(e) => Err(e),
                        None => if v + cv > usize::MAX {
                            Err("constant value budget overflow"@)
                        } else if b + cb > usize::MAX {
                            Err("program text budget overflow"@)
                        } else {
                            Ok((v + cv, b + cb))
                        },
                    },
                },
            },
        }
    }
}

/// Totals after validating the first `k` program instructions, starting
/// from `start`.
pub open spec fn ops_totals(p: &Program, k: nat, start: (nat, nat)) -> Result<(nat, nat), Seq<char>>
    decreases k,
{
    if k == 0 {
        Ok(start)
    } else {
        match ops_totals(p, (k - 1) as nat, start) {
            Err(e) => Err(e),
            Ok((v, b)) => match program_op_error(p, p.ops@[k - 1], (k - 1) as nat) {
                Some(e) => Err(e),
                None => {
                    let (ov, ob) = program_op_footprint(p.ops@[k - 1]);
                    if v + ov > usize::MAX {
                        Err("constant value budget overflow"@)
                    } else if b + ob > usize::MAX {
                        Err("program text budget overflow"@)
                    } else {
                        Ok((v + ov, b + ob))
                    }
                },
            },
        }
    }
}

/// The first problem of a program, in the order validation checks.
pub open spec fn program_check(p: &Program) -> Option<Seq<char>> {
    let counts = either(
        limit_error("program ops"@, p.ops@.len(), MAX_PROGRAM_OPS as nat),
        either(
            limit_error("expression chunks"@, p.chunks@.len(), MAX_PROGRAM_CHUNKS as nat),
            limit_error("variable slots"@, p.slots.width(), MAX_PROGRAM_SLOTS as nat),
        ),
    );
    if counts is Some {
        counts
    } else {
        match name_bytes(p.slots.slot_names(), p.slots.slot_names().len()) {
            None => Some("program text budget overflow"@),
            Some(bytes) => match chunks_totals(p, p.chunks@.len(), bytes) {
                Err(e) => Some(e),
                Ok(after_chunks) => match ops_totals(p, p.ops@.len(), after_chunks) {
                    Err(e) => Some(e),
                    Ok((values, text)) => either(
                        limit_error("constant values"@, values, MAX_PROGRAM_CONSTANT_VALUES as nat),
                        limit_error("program text bytes"@, text, MAX_PROGRAM_TEXT_BYTES as nat),
                    ),
                },
            },
        }
    }
}

pub(crate) fn update_chunks(operation: UpdateOp) -> (r: [Option<u32>; 2])
    ensures
        update_chunk_ids(operation).len() >= 1 ==> (r[0] matches Some(c) && c as nat == update_chunk_ids(operation)[0]),
        update_chunk_ids(operation).len() == 0 ==> r[0] is None,
        update_chunk_ids(operation).len() == 2 ==> (r[1] matches Some(c) && c as nat == update_chunk_ids(operation)[1]),
        update_chunk_ids(operation).len() < 2 ==> r[1] is None,
{
    match operation {
        UpdateOp::Add { rhs } => [Some(rhs), None],
        UpdateOp::AddInteger { .. } => [None, None],
        UpdateOp::Push { value } => [Some(value), None],
        UpdateOp::Put { key, value } => [Some(key), Some(value)],
        UpdateOp::Remove { key } => [Some(key), None],
    }
}

fn validate_integer_comparison(comparison: BinaryOp, pc: usize) -> (r: Result<(), ProgramValidationError>)
    ensures
        outcome(
            if is_integer_comparison(comparison) {
                None
            } else {
                Some("op "@ + digits(pc as nat) + " has an invalid integer comparison"@)
            },
            r,
        ),
{
    match comparison {
        BinaryOp::Equal | BinaryOp::NotEqual | BinaryOp::Less | BinaryOp::LessEqual | BinaryOp::Greater
        | BinaryOp::GreaterEqual => Ok(()),
        _ => {
            let mut message = String::from_str("op ");
            append_number(&mut message, pc as u64);
            append_str(&mut message, " has an invalid integer comparison");
            fail(message)
        },
    }
}

fn validate_update_chunks(operation: UpdateOp, chunk_count: usize, context: ValidationContext) -> (r: Result<
    (),
    ProgramValidationError,
>)
    ensures
        outcome(first_chunk_id_error(update_chunk_ids(operation), chunk_count as nat, context), r),
{
    let ids = update_chunks(operation);
    let ghost all = update_chunk_ids(operation);
    let ghost count = chunk_count as nat;
    proof {
        if all.len() >= 1 {
            let rest = all.subrange(1, all.len() as int);
            if all.len() == 2 {
                assert(rest[0] == all[1]);
                assert(rest.subrange(1, rest.len() as int).len() == 0);
                assert(first_chunk_id_error(rest.subrange(1, rest.len() as int), count, context) is None);
                assert(first_chunk_id_error(rest, count, context) == either(
                    chunk_id_error(all[1], count, context),
                    None,
                ));
            } else {
                assert(rest.len() == 0);
            }
        }
    }
    if let Some(chunk) = ids[0] {
        validate_chunk_id(chunk, chunk_count, context)?;
    }
    if let Some(chunk) = ids[1] {
        validate_chunk_id(chunk, chunk_count, context)?;
    }
    Ok(())
}

fn validate_host_chunks(args: &Vec<ChunkId>, chunk_count: usize, context: ValidationContext) -> (r: Result<
    (),
    ProgramValidationError,
>)
    ensures
        outcome(first_chunk_id_error(host_ids(args@), chunk_count as nat, context), r),
{
    let ghost all = host_ids(args@);
    let mut k: usize = 0;
    assert(all.subrange(0, all.len() as int) =~= all);
    while k < args.len()
        invariant
            all == host_ids(args@),
            k <= args@.len(),
            first_chunk_id_error(all, chunk_count as nat, context) == first_chunk_id_error(
                all.subrange(k as int, all.len() as int),
                chunk_count as nat,
                context,
            ),
        decreases args@.len() - k,
    {
        let ghost rest = all.subrange(k as int, all.len() as int);
        assert(rest[0] == args@[k as int] as nat);
        assert(rest.subrange(1, rest.len() as int) =~= all.subrange(k + 1, all.len() as int));
        validate_chunk_id(args[k], chunk_count, context)?;
        k = k + 1;
    }
    assert(all.subrange(k as int, all.len() as int).len() == 0);
    Ok(())
}

/// Checks one program instruction and returns the constant footprint it
/// carries.
fn validate_program_op(program: &Program, op: &Op, pc: usize) -> (r: Result<(usize, usize), ProgramValidationError>)
    ensures
        match program_op_error(program, *op, pc as nat) {
            Some(e) => r matches Err(x) && x.message@ == e,
            None => r matches Ok((v, b)) && (v as nat, b as nat) == program_op_footprint(*op),
        },
{
    let context = ValidationContext::ProgramOp(pc);
    let slots = program.slots.len();
    let chunks = program.chunks.len();
    match op {
        Op::SetSlot { slot, value } => {
            validate_slot(*slot, slots, context)?;
            validate_chunk_id(*value, chunks, context)?;
        },
        Op::SetConst { slot, value, .. } => {
            validate_slot(*slot, slots, context)?;
            return match value.data_footprint() {
                Ok(footprint) => Ok((footprint.values, footprint.text_bytes)),
                Err(e) => {
                    let mut message = String::from_str("op ");
                    append_number(&mut message, pc as u64);
                    append_str(&mut message, " has an invalid constant: ");
                    append_str(&mut message, e);
                    Err(ProgramValidationError::new(message))
                },
            };
        },
        Op::CopySlot { slot, source, .. } => {
            validate_slot(*slot, slots, context)?;
            validate_slot(*source, slots, context)?;
        },
        Op::Update { slot, operation, .. } => {
            validate_slot(*slot, slots, context)?;
            validate_update_chunks(*operation, chunks, context)?;
        },
        Op::Jump(target) => validate_program_target(*target, program.ops.len(), pc)?,
        Op::JumpIfFalse { condition, target } => {
            validate_chunk_id(*condition, chunks, context)?;
            validate_program_target(*target, program.ops.len(), pc)?;
        },
        Op::JumpIfIntegerCompare { condition, slot, comparison, target, .. } => {
            validate_chunk_id(*condition, chunks, context)?;
            validate_slot(*slot, slots, context)?;
            validate_integer_comparison(*comparison, pc)?;
            validate_program_target(*target, program.ops.len(), pc)?;
        },
        Op::Host(host) => {
            if host.args.len() > MAX_HOST_ARGUMENTS {
                let mut message = String::from_str("host arguments at op ");
                append_number(&mut message, pc as u64);
                append_str(&mut message, " exceeds limit ");
                append_number(&mut message, MAX_HOST_ARGUMENTS as u64);
                append_str(&mut message, " (found ");
                append_number(&mut message, host.args.len() as u64);
                append_str(&mut message, ")");
                return Err(ProgramValidationError::new(message));
            }
            validate_host_chunks(&host.args, chunks, context)?;
            if let Some(slot) = host.bind {
                validate_slot(slot, slots, context)?;
            }
        },
        Op::Halt => {},
    }
    Ok((0, 0))
}

proof fn lemma_chunks_error_persists(p: &Program, bytes: nat, a: nat, b: nat)
    requires
        a <= b,
        chunks_totals(p, a, bytes) is Err,
    ensures
        chunks_totals(p, b, bytes) == chunks_totals(p, a, bytes),
    decreases b - a,
{
    if a < b {
        lemma_chunks_error_persists(p, bytes, a, (b - 1) as nat);
    }
}

proof fn lemma_ops_error_persists(p: &Program, start: (nat, nat), a: nat, b: nat)
    requires
        a <= b,
        ops_totals(p, a, start) is Err,
    ensures
        ops_totals(p, b, start) == ops_totals(p, a, start),
    decreases b - a,
{
    if a < b {
        lemma_ops_error_persists(p, start, a, (b - 1) as nat);
    }
}

proof fn lemma_name_bytes_overflow_persists(names: Seq<Seq<char>>, a: nat, b: nat)
    requires
        a <= b,
        name_bytes(names, a) is None,
    ensures
        name_bytes(names, b) is None,
    decreases b - a,
{
    if a < b {
        lemma_name_bytes_overflow_persists(names, a, (b - 1) as nat);
    }
}

impl Program {
    /// Verifies every index, register path, jump and bytecode budget.
    ///
    /// Compiler output is valid by construction; call this before executing a
    /// program from serialization or a low-level bytecode producer.
    #[verifier::loop_isolation(false)]
    #[verifier::rlimit(40)]
    pub fn validate(&self) -> (r: Result<(), ProgramValidationError>)
        ensures
            outcome(program_check(self), r),
    {
        check_limit("program ops", self.ops.len(), MAX_PROGRAM_OPS)?;
        check_limit("expression chunks", self.chunks.len(), MAX_PROGRAM_CHUNKS)?;
        check_limit("variable slots", self.slots.len(), MAX_PROGRAM_SLOTS)?;
        let names = self.slots.names();
        let ghost name_seq = self.slots.slot_names();
        let mut text_bytes: usize = 0;
        let mut k: usize = 0;
        while k < names.len()
            invariant
                name_seq == crate::slots::name_views(names@),
                k <= names@.len(),
                name_bytes(name_seq, k as nat) == Some(text_bytes as nat),
            decreases names@.len() - k,
        {
            let length = names[k].as_str().as_bytes().len();
            assert(name_seq[k as int] == names@[k as int]@);
            match text_bytes.checked_add(length) {
                Some(total) => {
                    text_bytes = total;
                },
                None => {
                    proof {
                        lemma_name_bytes_overflow_persists(name_seq, (k + 1) as nat, name_seq.len());
                    }
                    return fail(String::from_str("program text budget overflow"));
                },
            }
            k = k + 1;
        }
        let ghost bytes0 = text_bytes as nat;
        let mut constant_values: usize = 0;
        let mut id: usize = 0;
        while id < self.chunks.len()
            invariant
                id <= self.chunks@.len(),
                self.chunks@.len() <= MAX_PROGRAM_CHUNKS,
                chunks_totals(self, id as nat, bytes0) == Ok::<(nat, nat), Seq<char>>(
                    (constant_values as nat, text_bytes as nat),
                ),
            decreases self.chunks@.len() - id,
        {
            let chunk = match self.chunk(id as u32) {
                Some(c) => c,
                None => {
                    let mut message = chunk_message(id);
                    append_str(&mut message, " has an invalid arena range");
                    proof {
                        lemma_chunks_error_persists(self, bytes0, (id + 1) as nat, self.chunks@.len());
                    }
                    return fail(message);
                },
            };
            let (values, bytes) = match validate_chunk(&chunk, self.slots.len(), id) {
                Ok(t) => t,
                Err(e) => {
                    proof {
                        lemma_chunks_error_persists(self, bytes0, (id + 1) as nat, self.chunks@.len());
                    }
                    return Err(e);
                },
            };
            match check_random_slots(chunk.ops, self.slots.rng_state(), id) {
                Ok(()) => {},
                Err(e) => {
                    proof {
                        lemma_chunks_error_persists(self, bytes0, (id + 1) as nat, self.chunks@.len());
                    }
                    return Err(e);
                },
            }
            constant_values = match checked_total(constant_values, values, "constant value budget overflow") {
                Ok(v) => v,
                Err(e) => {
                    proof {
                        lemma_chunks_error_persists(self, bytes0, (id + 1) as nat, self.chunks@.len());
                    }
                    return Err(e);
                },
            };
            text_bytes = match checked_total(text_bytes, bytes, "program text budget overflow") {
                Ok(b) => b,
                Err(e) => {
                    proof {
                        lemma_chunks_error_persists(self, bytes0, (id + 1) as nat, self.chunks@.len());
                    }
                    return Err(e);
                },
            };
            id = id + 1;
        }
        let ghost start = (constant_values as nat, text_bytes as nat);
        let mut pc: usize = 0;
        while pc < self.ops.len()
            invariant
                pc <= self.ops@.len(),
                ops_totals(self, pc as nat, start) == Ok::<(nat, nat), Seq<char>>(
                    (constant_values as nat, text_bytes as nat),
                ),
            decreases self.ops@.len() - pc,
        {
            let (values, bytes) = match validate_program_op(self, &self.ops[pc], pc) {
                Ok(t) => t,
                Err(e) => {
                    proof {
                        lemma_ops_error_persists(self, start, (pc + 1) as nat, self.ops@.len());
                    }
                    return Err(e);
                },
            };
            constant_values = match checked_total(constant_values, values, "constant value budget overflow") {
                Ok(v) => v,
                Err(e) => {
                    proof {
                        lemma_ops_error_persists(self, start, (pc + 1) as nat, self.ops@.len());
                    }
                    return Err(e);
                },
            };
            text_bytes = match checked_total(text_bytes, bytes, "program text budget overflow") {
                Ok(b) => b,
                Err(e) => {
                    proof {
                        lemma_ops_error_persists(self, start, (pc + 1) as nat, self.ops@.len());
                    }
                    return Err(e);
                },
            };
            pc = pc + 1;
        }
        check_limit("constant values", constant_values, MAX_PROGRAM_CONSTANT_VALUES)?;
        check_limit("program text bytes", text_bytes, MAX_PROGRAM_TEXT_BYTES)?;
        Ok(())
    }
}


// ---------------------------------------------------------------------------
// What validation guarantees
// ---------------------------------------------------------------------------

/// The indices an instruction refers to are inside the program.
pub open spec fn op_in_bounds(p: &Program, op: Op) -> bool {
    let slots = p.slots.width();
    let chunks = p.chunks@.len();
    let n = p.ops@.len();
    match op {
        Op::SetSlot { slot, value } => slot < slots && value < chunks,
        Op::SetConst { slot, value, .. } => slot < slots && within_budget(value@),
        Op::CopySlot { slot, source, .. } => slot < slots && source < slots,
        Op::Update { slot, operation, .. } => slot < slots && forall|k: int|
            0 <= k < update_chunk_ids(operation).len() ==> #[trigger] update_chunk_ids(operation)[k] < chunks,
        Op::Jump(target) => target <= n,
        Op::JumpIfFalse { condition, target } => condition < chunks && target <= n,
        Op::JumpIfIntegerCompare { condition, slot, comparison, target, .. } => condition < chunks && slot < slots
            && is_integer_comparison(comparison) && target <= n,
        Op::Host(host) => host.args@.len() <= MAX_HOST_ARGUMENTS && (forall|k: int|
            0 <= k < host.args@.len() ==> #[trigger] host.args@[k] < chunks) && (host.bind matches Some(s) ==> s < slots),
        Op::Halt => true,
    }
}

proof fn lemma_first_chunk_id_none(ids: Seq<nat>, count: nat, context: ValidationContext)
    requires
        first_chunk_id_error(ids, count, context) is None,
    ensures
        forall|k: int| 0 <= k < ids.len() ==> #[trigger] ids[k] < count,
    decreases ids.len(),
{
    if ids.len() > 0 {
        let rest = ids.subrange(1, ids.len() as int);
        lemma_first_chunk_id_none(rest, count, context);
        assert forall|k: int| 0 <= k < ids.len() implies #[trigger] ids[k] < count by {
            if k > 0 {
                assert(ids[k] == rest[k - 1]);
            }
        }
    }
}

proof fn lemma_op_in_bounds(p: &Program, op: Op, pc: nat)
    requires
        program_op_error(p, op, pc) is None,
    ensures
        op_in_bounds(p, op),
{
    let context = ValidationContext::ProgramOp(pc as usize);
    match op {
        Op::Update { operation, .. } => {
            lemma_first_chunk_id_none(update_chunk_ids(operation), p.chunks@.len(), context);
        },
        Op::Host(host) => {
            if host.args@.len() <= MAX_HOST_ARGUMENTS {
                lemma_first_chunk_id_none(host_ids(host.args@), p.chunks@.len(), context);
                assert forall|k: int| 0 <= k < host.args@.len() implies #[trigger] host.args@[k] < p.chunks@.len() by {
                    assert(host_ids(host.args@)[k] == host.args@[k] as nat);
                }
            }
        },
        _ => {},
    }
}

proof fn lemma_chunks_ok(p: &Program, bytes: nat, k: nat)
    requires
        chunks_totals(p, k, bytes) is Ok,
    ensures
        forall|id: int|
            0 <= id < k ==> (#[trigger] p.chunk_model(id) matches Some(m) && chunk_structure_error(
                m,
                p.slots.width(),
                id as nat,
            ) is None),
    decreases k,
{
    if k > 0 {
        lemma_chunks_ok(p, bytes, (k - 1) as nat);
    }
}

proof fn lemma_ops_ok(p: &Program, start: (nat, nat), k: nat)
    requires
        ops_totals(p, k, start) is Ok,
    ensures
        forall|pc: int| 0 <= pc < k ==> program_op_error(p, #[trigger] p.ops@[pc], pc as nat) is None,
    decreases k,
{
    if k > 0 {
        lemma_ops_ok(p, start, (k - 1) as nat);
    }
}

/// A program that passes validation is well formed: every instruction
/// refers only to existing slots, chunks and jump targets; every chunk's
/// arena range fits, each of its instructions is well formed, registers are
/// defined on every path before they are read, and its result register is
/// defined at its end; and the program's counts stay within their limits.
pub proof fn validated_programs_are_well_formed(p: &Program)
    requires
        program_check(p) is None,
    ensures
        p.ops@.len() <= MAX_PROGRAM_OPS,
        p.chunks@.len() <= MAX_PROGRAM_CHUNKS,
        p.slots.width() <= MAX_PROGRAM_SLOTS,
        forall|pc: int| 0 <= pc < p.ops@.len() ==> op_in_bounds(p, #[trigger] p.ops@[pc]),
        forall|id: int|
            0 <= id < p.chunks@.len() ==> (#[trigger] p.chunk_model(id) matches Some(m) && {
                &&& instructions_valid(m, p.slots.width(), id as nat)
                &&& flow_error(m, id as nat) is None
                &&& 0 < m.registers <= MAX_EXPR_REGISTERS
                &&& m.ops.len() <= MAX_EXPR_OPS
            }),
{
    let bytes = name_bytes(p.slots.slot_names(), p.slots.slot_names().len())->0;
    let after = chunks_totals(p, p.chunks@.len(), bytes)->Ok_0;
    lemma_chunks_ok(p, bytes, p.chunks@.len());
    lemma_ops_ok(p, after, p.ops@.len());
    assert forall|pc: int| 0 <= pc < p.ops@.len() implies op_in_bounds(p, #[trigger] p.ops@[pc]) by {
        lemma_op_in_bounds(p, p.ops@[pc], pc as nat);
    }
    assert forall|id: int| 0 <= id < p.chunks@.len() implies (#[trigger] p.chunk_model(id) matches Some(m) && {
        &&& instructions_valid(m, p.slots.width(), id as nat)
        &&& flow_error(m, id as nat) is None
        &&& 0 < m.registers <= MAX_EXPR_REGISTERS
        &&& m.ops.len() <= MAX_EXPR_OPS
    }) by {
        let m = p.chunk_model(id)->0;
        lemma_first_instruction_error(m, p.slots.width(), id as nat, m.ops.len());
    }
}


/// What a well-formed instruction at position `pc` satisfies: every register
/// it names is inside the register file, constants and slots exist, calls
/// take an accepted number of arguments and never draw random numbers, the
/// random instructions take their accepted argument counts, and jumps go
/// strictly forward to at most the chunk's end.
pub open spec fn instruction_well_formed(op: ExprOp, m: ChunkModel, slot_count: nat, pc: nat) -> bool {
    let regs = m.registers;
    match op {
        ExprOp::Const { dst, constant } => dst < regs && constant < m.constants.len(),
        ExprOp::Load { dst, slot, .. } => dst < regs && slot < slot_count,
        ExprOp::Unary { dst, source, .. } => dst < regs && source < regs,
        ExprOp::Binary { dst, left, right, .. } => dst < regs && left < regs && right < regs,
        ExprOp::Call { dst, function, args } => function != Builtin::Random && function != Builtin::Chance && dst
            < regs && args.start <= args.end <= regs && builtin_accepts(function, range_len(args)),
        ExprOp::Random { dst, args, state_slot } => dst < regs && args.start <= args.end <= regs && state_slot
            < slot_count && range_len(args) == 2,
        ExprOp::Chance { dst, args, state_slot } => dst < regs && args.start <= args.end <= regs && state_slot
            < slot_count && range_len(args) == 1,
        ExprOp::JumpIfFalse { condition, target } | ExprOp::JumpIfTrue { condition, target } => condition < regs
            && pc < target <= m.ops.len(),
        ExprOp::Concat { dst, values } => dst < regs && values.start <= values.end <= regs,
    }
}

proof fn lemma_instruction_well_formed(op: ExprOp, m: ChunkModel, slot_count: nat, id: nat, pc: nat)
    requires
        instruction_error(op, m, slot_count, id, pc) is None,
    ensures
        instruction_well_formed(op, m, slot_count, pc),
{
}

/// Validation accepts an expression instruction exactly when it is well
/// formed: its registers lie in the register file, its constant and slots
/// exist, calls take an accepted argument count and never draw random
/// numbers, and a jump goes strictly forward to at most the chunk's end.
pub proof fn expression_instructions_validate_exactly_when_well_formed(
    op: ExprOp,
    m: ChunkModel,
    slot_count: nat,
    id: nat,
    pc: nat,
)
    ensures
        instruction_error(op, m, slot_count, id, pc) is None <==> instruction_well_formed(op, m, slot_count, pc),
{
    if instruction_error(op, m, slot_count, id, pc) is None {
        lemma_instruction_well_formed(op, m, slot_count, id, pc);
    }
    match op {
        ExprOp::Random { args, .. } => {
            assert(builtin_accepts(Builtin::Random, range_len(args)) <==> range_len(args) == 2);
        },
        ExprOp::Chance { args, .. } => {
            assert(builtin_accepts(Builtin::Chance, range_len(args)) <==> range_len(args) == 1);
        },
        _ => {},
    }
}

/// A chunk that passes validation in a frame of `slot_count` slots is well
/// formed: the frame has at most 65,536 slots, the chunk at most 4,096
/// instructions and between 1 and 1,024 registers, its result register
/// exists, every instruction is well formed, and register definitions check
/// out along its control flow (every register read, and the result at the
/// end, is defined on every path from the first instruction).
pub proof fn validated_chunks_are_well_formed(m: ChunkModel, slot_count: nat)
    requires
        chunk_check(m, slot_count) is None,
    ensures
        slot_count <= MAX_PROGRAM_SLOTS,
        m.ops.len() <= MAX_EXPR_OPS,
        1 <= m.registers <= MAX_EXPR_REGISTERS,
        m.result < m.registers,
        forall|pc: int| 0 <= pc < m.ops.len() ==> instruction_well_formed(#[trigger] m.ops[pc], m, slot_count, pc as nat),
        flow_error(m, 0) is None,
{
    lemma_first_instruction_error(m, slot_count, 0, m.ops.len());
    assert forall|pc: int| 0 <= pc < m.ops.len() implies instruction_well_formed(#[trigger] m.ops[pc], m, slot_count, pc as nat) by {
        lemma_instruction_well_formed(m.ops[pc], m, slot_count, 0, pc as nat);
    }
}


/// Value and text totals of the first `k` constants.
pub open spec fn constants_footprint(constants: Seq<Datum>, k: nat) -> (nat, nat)
    decreases k,
{
    if k == 0 {
        (0, 0)
    } else {
        let (v, b) = constants_footprint(constants, (k - 1) as nat);
        (v + node_count(constants[k - 1]), b + text_size(constants[k - 1]))
    }
}

/// Value and text totals of the constants of the first `k` chunks.
pub open spec fn chunks_footprint(p: &Program, k: nat) -> (nat, nat)
    decreases k,
{
    if k == 0 {
        (0, 0)
    } else {
        let (v, b) = chunks_footprint(p, (k - 1) as nat);
        let m = p.chunk_model(k - 1)->0;
        let (cv, cb) = constants_footprint(m.constants, m.constants.len());
        (v + cv, b + cb)
    }
}

/// Value and text totals of the constants the first `k` instructions carry.
pub open spec fn ops_footprint(p: &Program, k: nat) -> (nat, nat)
    decreases k,
{
    if k == 0 {
        (0, 0)
    } else {
        let (v, b) = ops_footprint(p, (k - 1) as nat);
        let (ov, ob) = program_op_footprint(p.ops@[k - 1]);
        (v + ov, b + ob)
    }
}

proof fn lemma_constant_totals(id: nat, constants: Seq<Datum>, k: nat)
    requires
        constant_totals(id, constants, k) is Ok,
    ensures
        constant_totals(id, constants, k) == Ok::<(nat, nat), Seq<char>>(constants_footprint(constants, k)),
    decreases k,
{
    if k > 0 {
        lemma_constant_totals(id, constants, (k - 1) as nat);
    }
}

proof fn lemma_chunks_totals(p: &Program, k: nat, bytes: nat)
    requires
        chunks_totals(p, k, bytes) is Ok,
    ensures
        chunks_totals(p, k, bytes) == Ok::<(nat, nat), Seq<char>>(
            (chunks_footprint(p, k).0, bytes + chunks_footprint(p, k).1),
        ),
        forall|id: int|
            0 <= id < k ==> (#[trigger] p.chunk_model(id) matches Some(m) && rng_error_upto(
                m.ops,
                p.slots.rng_slot(),
                id as nat,
                m.ops.len(),
            ) is None),
    decreases k,
{
    if k > 0 {
        lemma_chunks_totals(p, (k - 1) as nat, bytes);
        let m = p.chunk_model(k - 1)->0;
        lemma_constant_totals((k - 1) as nat, m.constants, m.constants.len());
    }
}

proof fn lemma_ops_totals(p: &Program, k: nat, start: (nat, nat))
    requires
        ops_totals(p, k, start) is Ok,
    ensures
        ops_totals(p, k, start) == Ok::<(nat, nat), Seq<char>>(
            (start.0 + ops_footprint(p, k).0, start.1 + ops_footprint(p, k).1),
        ),
    decreases k,
{
    if k > 0 {
        lemma_ops_totals(p, (k - 1) as nat, start);
    }
}

proof fn lemma_rng_error_upto_none(ops: Seq<ExprOp>, reserved: Option<nat>, id: nat, k: nat)
    requires
        k <= ops.len(),
        rng_error_upto(ops, reserved, id, k) is None,
    ensures
        forall|pc: int| 0 <= pc < k ==> rng_op_error(#[trigger] ops[pc], reserved, id, pc as nat) is None,
    decreases k,
{
    if k > 0 {
        lemma_rng_error_upto_none(ops, reserved, id, (k - 1) as nat);
    }
}

/// A validated program keeps its budgets and its random state in one place:
/// every random draw of every chunk keeps its state in the slot the table
/// reserves for it, and the constants of its chunks and instructions
/// together stay within the constant-value budget and, with the slot names,
/// within the program text budget.
pub proof fn validated_programs_keep_their_budgets(p: &Program)
    requires
        program_check(p) is None,
    ensures
        forall|id: int, pc: int|
            0 <= id < p.chunks@.len() && 0 <= pc < p.chunk_model(id)->0.ops.len() ==> (#[trigger] p.chunk_model(
                id,
            )->0.ops[pc] matches ExprOp::Random { state_slot, .. } ==> p.slots.rng_slot() == Some(state_slot as nat))
                && (p.chunk_model(id)->0.ops[pc] matches ExprOp::Chance { state_slot, .. } ==> p.slots.rng_slot()
                == Some(state_slot as nat)),
        chunks_footprint(p, p.chunks@.len()).0 + ops_footprint(p, p.ops@.len()).0 <= MAX_PROGRAM_CONSTANT_VALUES,
        name_bytes(p.slots.slot_names(), p.slots.slot_names().len()) matches Some(names) && names + chunks_footprint(
            p,
            p.chunks@.len(),
        ).1 + ops_footprint(p, p.ops@.len()).1 <= MAX_PROGRAM_TEXT_BYTES,
{
    let bytes = name_bytes(p.slots.slot_names(), p.slots.slot_names().len())->0;
    lemma_chunks_totals(p, p.chunks@.len(), bytes);
    let after = chunks_totals(p, p.chunks@.len(), bytes)->Ok_0;
    lemma_ops_totals(p, p.ops@.len(), after);
    assert forall|id: int, pc: int|
        0 <= id < p.chunks@.len() && 0 <= pc < p.chunk_model(id)->0.ops.len() implies (#[trigger] p.chunk_model(
            id,
        )->0.ops[pc] matches ExprOp::Random { state_slot, .. } ==> p.slots.rng_slot() == Some(state_slot as nat))
            && (p.chunk_model(id)->0.ops[pc] matches ExprOp::Chance { state_slot, .. } ==> p.slots.rng_slot() == Some(
            state_slot as nat,
        )) by {
        let m = p.chunk_model(id)->0;
        lemma_rng_error_upto_none(m.ops, p.slots.rng_slot(), id as nat, m.ops.len());
        assert(rng_op_error(m.ops[pc], p.slots.rng_slot(), id as nat, pc as nat) is None);
    }
}

proof fn lemma_first_chunk_id_ok(ids: Seq<nat>, count: nat, context: ValidationContext)
    requires
        forall|k: int| 0 <= k < ids.len() ==> #[trigger] ids[k] < count,
    ensures
        first_chunk_id_error(ids, count, context) is None,
    decreases ids.len(),
{
    if ids.len() > 0 {
        let rest = ids.subrange(1, ids.len() as int);
        assert forall|k: int| 0 <= k < rest.len() implies #[trigger] rest[k] < count by {
            assert(rest[k] == ids[k + 1]);
        }
        lemma_first_chunk_id_ok(rest, count, context);
        assert(ids[0] < count);
    }
}

/// Validation accepts an instruction exactly when everything it refers to
/// exists. In particular a jump may go to any position up to and including
/// the end of the program (where execution stops), and only a target past
/// the end is refused.
pub proof fn instructions_validate_exactly_when_in_bounds(p: &Program, op: Op, pc: nat)
    ensures
        program_op_error(p, op, pc) is None <==> op_in_bounds(p, op),
        forall|t: u32| #[trigger] program_op_error(p, Op::Jump(t), pc) is None <==> t <= p.ops@.len(),
        forall|c: u32, t: u32|
            (c as int) < p.chunks@.len() ==> (#[trigger] program_op_error(
                p,
                Op::JumpIfFalse { condition: c, target: t },
                pc,
            ) is None <==> t <= p.ops@.len()),
{
    if program_op_error(p, op, pc) is None {
        lemma_op_in_bounds(p, op, pc);
    }
    let context = ValidationContext::ProgramOp(pc as usize);
    if op_in_bounds(p, op) {
        match op {
            Op::Update { operation, .. } => {
                lemma_first_chunk_id_ok(update_chunk_ids(operation), p.chunks@.len(), context);
            },
            Op::Host(host) => {
                assert forall|k: int| 0 <= k < host_ids(host.args@).len() implies #[trigger] host_ids(host.args@)[k]
                    < p.chunks@.len() by {
                    assert(host.args@[k] < p.chunks@.len());
                }
                lemma_first_chunk_id_ok(host_ids(host.args@), p.chunks@.len(), context);
            },
            _ => {},
        }
    }
}

proof fn lemma_first_instruction_ok(m: ChunkModel, slot_count: nat, id: nat, p: nat)
    requires
        p <= m.ops.len(),
        forall|pc: int| 0 <= pc < p ==> instruction_error(#[trigger] m.ops[pc], m, slot_count, id, pc as nat) is None,
    ensures
        first_instruction_error(m, slot_count, id, p) is None,
    decreases p,
{
    if p > 0 {
        lemma_first_instruction_ok(m, slot_count, id, (p - 1) as nat);
        assert(instruction_error(m.ops[p - 1], m, slot_count, id, (p - 1) as nat) is None);
    }
}

/// Validation accepts the structure of a chunk exactly when it has at most
/// 4,096 instructions and between 1 and 1,024 registers, its result register
/// exists, every instruction is well formed, and register definitions check
/// out along its control flow.
pub proof fn chunk_structure_is_checked_exactly(m: ChunkModel, slot_count: nat, id: nat)
    ensures
        chunk_structure_error(m, slot_count, id) is None <==> {
            &&& m.ops.len() <= MAX_EXPR_OPS
            &&& 1 <= m.registers <= MAX_EXPR_REGISTERS
            &&& m.result < m.registers
            &&& forall|pc: int| 0 <= pc < m.ops.len() ==> instruction_well_formed(#[trigger] m.ops[pc], m, slot_count, pc as nat)
            &&& flow_error(m, id) is None
        },
{
    if chunk_structure_error(m, slot_count, id) is None {
        lemma_first_instruction_error(m, slot_count, id, m.ops.len());
        assert forall|pc: int| 0 <= pc < m.ops.len() implies instruction_well_formed(#[trigger] m.ops[pc], m, slot_count, pc as nat) by {
            lemma_instruction_well_formed(m.ops[pc], m, slot_count, id, pc as nat);
        }
    }
    if forall|pc: int| 0 <= pc < m.ops.len() ==> instruction_well_formed(#[trigger] m.ops[pc], m, slot_count, pc as nat) {
        assert forall|pc: int| 0 <= pc < m.ops.len() implies instruction_error(#[trigger] m.ops[pc], m, slot_count, id, pc as nat) is None by {
            expression_instructions_validate_exactly_when_well_formed(m.ops[pc], m, slot_count, id, pc as nat);
        }
        lemma_first_instruction_ok(m, slot_count, id, m.ops.len());
    }
}

/// A count is refused exactly when it exceeds its limit.
pub proof fn limits_refuse_only_larger_counts(subject: Seq<char>, actual: nat, limit: nat)
    ensures
        limit_error(subject, actual, limit) is None <==> actual <= limit,
        target_error(actual, limit, 0) is None <==> actual <= limit,
{
}

// ---------------------------------------------------------------------------
// Register definitions along runs of a chunk
// ---------------------------------------------------------------------------

/// Instruction `b` may run right after instruction `a`: the next one, or
/// the target of a branch.
pub open spec fn steps_to(m: ChunkModel, a: nat, b: nat) -> bool {
    a < m.ops.len() && (b == a + 1 || branch_target(m.ops[a as int]) == Some(b))
}

/// A run of the chunk from its first instruction.
pub open spec fn chunk_path(m: ChunkModel, path: Seq<nat>) -> bool {
    &&& path.len() > 0
    &&& path[0] == 0
    &&& forall|k: int| 0 <= k < path.len() - 1 ==> #[trigger] steps_to(m, path[k], path[k + 1])
}

/// The registers written by the first `k` instructions of a run.
pub open spec fn written_along(m: ChunkModel, path: Seq<nat>, k: int) -> Seq<bool>
    decreases k,
{
    if k <= 0 {
        Seq::new(m.registers, |i: int| false)
    } else {
        let w = written_along(m, path, k - 1);
        match destination(m.ops[path[k - 1] as int]) {
            Some(d) => if d < w.len() {
                w.update(d as int, true)
            } else {
                w
            },
            None => w,
        }
    }
}

pub open spec fn flags_within(a: Seq<bool>, b: Seq<bool>) -> bool {
    &&& a.len() == b.len()
    &&& forall|i: int| 0 <= i < a.len() && #[trigger] a[i] ==> b[i]
}

/// After the first `p` instructions are processed, the state kept for each
/// later position holds only registers written on every run reaching it
/// from processed instructions.
pub open spec fn flow_invariant(m: ChunkModel, states: Seq<Option<Seq<bool>>>, p: nat) -> bool {
    forall|path: Seq<nat>|
        #[trigger] chunk_path(m, path) && p <= path.last() <= m.ops.len() && (forall|k: int|
            0 <= k < path.len() - 1 ==> #[trigger] path[k] < p) ==> (states[path.last() as int] matches Some(s)
            && flags_within(s, written_along(m, path, path.len() - 1)))
}

proof fn lemma_written_len(m: ChunkModel, path: Seq<nat>, k: int)
    ensures
        written_along(m, path, k).len() == m.registers,
    decreases k,
{
    if k > 0 {
        lemma_written_len(m, path, k - 1);
    }
}

proof fn lemma_written_prefix(m: ChunkModel, path: Seq<nat>, short: Seq<nat>, k: int)
    requires
        k <= short.len(),
        short.len() <= path.len(),
        forall|i: int| 0 <= i < short.len() ==> short[i] == path[i],
    ensures
        written_along(m, path, k) == written_along(m, short, k),
    decreases k,
{
    if k > 0 {
        lemma_written_prefix(m, path, short, k - 1);
    }
}

proof fn lemma_path_increases(m: ChunkModel, slot_count: nat, path: Seq<nat>, i: int, j: int)
    requires
        forall|pc: int| 0 <= pc < m.ops.len() ==> instruction_well_formed(#[trigger] m.ops[pc], m, slot_count, pc as nat),
        chunk_path(m, path),
        0 <= i < j < path.len(),
    ensures
        path[i] < path[j],
        path[j] <= m.ops.len(),
    decreases j - i,
{
    let a = path[j - 1];
    let k = j - 1;
    assert(steps_to(m, path[k], path[k + 1]));
    assert(instruction_well_formed(m.ops[a as int], m, slot_count, a));
    if i < j - 1 {
        lemma_path_increases(m, slot_count, path, i, j - 1);
    }
}

proof fn lemma_first_undefined_none(registers: Seq<nat>, state: Seq<bool>)
    requires
        first_undefined(registers, state) is None,
    ensures
        forall|j: int| 0 <= j < registers.len() ==> state[#[trigger] registers[j] as int],
    decreases registers.len(),
{
    if registers.len() > 0 {
        let rest = registers.subrange(1, registers.len() as int);
        lemma_first_undefined_none(rest, state);
        assert forall|j: int| 0 <= j < registers.len() implies state[#[trigger] registers[j] as int] by {
            if j > 0 {
                assert(registers[j] == rest[j - 1]);
            }
        }
    }
}

proof fn lemma_flow_invariant(m: ChunkModel, id: nat, slot_count: nat, p: nat)
    requires
        instructions_valid(m, slot_count, id),
        forall|pc: int| 0 <= pc < m.ops.len() ==> instruction_well_formed(#[trigger] m.ops[pc], m, slot_count, pc as nat),
        p <= m.ops.len(),
        flow_upto(m, id, p) is Ok,
    ensures
        flow_invariant(m, flow_upto(m, id, p)->Ok_0, p),
    decreases p,
{
    lemma_flow_shaped(m, id, slot_count, p);
    let states = flow_upto(m, id, p)->Ok_0;
    if p == 0 {
        assert forall|path: Seq<nat>|
            #[trigger] chunk_path(m, path) && p <= path.last() <= m.ops.len() && (forall|k: int|
                0 <= k < path.len() - 1 ==> #[trigger] path[k] < p) implies (states[path.last() as int] matches Some(s)
                && flags_within(s, written_along(m, path, path.len() - 1))) by {
            if path.len() > 1 {
                assert(path[0] < 0);
            }
            assert(path.last() == 0);
            lemma_written_len(m, path, 0);
        }
    } else {
        let q = (p - 1) as nat;
        if flow_upto(m, id, q) is Err {
            lemma_flow_error_persists(m, id, q, p);
        }
        lemma_flow_invariant(m, id, slot_count, q);
        lemma_flow_shaped(m, id, slot_count, q);
        let before = flow_upto(m, id, q)->Ok_0;
        assert(states == flow_step(m, id, before, q)->Ok_0);
        let op = m.ops[q as int];
        assert forall|path: Seq<nat>|
            #[trigger] chunk_path(m, path) && p <= path.last() <= m.ops.len() && (forall|k: int|
                0 <= k < path.len() - 1 ==> #[trigger] path[k] < p) implies (states[path.last() as int] matches Some(s)
                && flags_within(s, written_along(m, path, path.len() - 1))) by {
            let n = path.len();
            let last = path.last();
            assert(n > 1) by {
                if n == 1 {
                    assert(path[0] == 0);
                }
            }
            let prev = path[n - 2];
            assert(prev < p);
            let before_last = n - 2;
            assert(steps_to(m, path[before_last], path[before_last + 1]));
            lemma_written_len(m, path, n - 1);
            lemma_written_len(m, path, n - 2);
            if prev < q {
                assert forall|k: int| 0 <= k < path.len() - 1 implies #[trigger] path[k] < q by {
                    if k < n - 2 {
                        lemma_path_increases(m, slot_count, path, k, n - 2);
                    }
                }
                assert(before[last as int] matches Some(s) && flags_within(s, written_along(m, path, n - 1)));
                let old_s = before[last as int]->0;
                match before[q as int] {
                    None => {},
                    Some(sq) => {
                        assert(last != q);
                        assert(states[last as int] matches Some(s) && flags_within(s, old_s)) by {
                            assert(states_shaped(before, m));
                        }
                    },
                }
            } else {
                assert(prev == q);
                let short = path.drop_last();
                assert forall|k: int| 0 <= k < short.len() - 1 implies #[trigger] steps_to(m, short[k], short[k + 1]) by {
                    assert(short[k] == path[k] && short[k + 1] == path[k + 1]);
                }
                assert(chunk_path(m, short));
                assert(short.last() == q);
                assert forall|k: int| 0 <= k < short.len() - 1 implies #[trigger] short[k] < q by {
                    lemma_path_increases(m, slot_count, path, k, n - 2);
                    assert(short[k] == path[k]);
                }
                assert(before[q as int] matches Some(s) && flags_within(s, written_along(m, short, short.len() - 1)));
                let sq = before[q as int]->0;
                lemma_written_prefix(m, path, short, n - 1);
                lemma_written_len(m, short, n - 1);
                assert(first_undefined(sources(op), sq) is None);
                let outgoing = match destination(op) {
                    Some(d) => sq.update(d as int, true),
                    None => sq,
                };
                assert(flags_within(outgoing, written_along(m, path, n - 1))) by {
                    lemma_written_prefix(m, path, short, n - 2);
                    assert(path[n - 2] == q);
                }
                assert(states[last as int] matches Some(s) && flags_within(s, outgoing)) by {
                    assert(states_shaped(before, m));
                }
            }
        }
    }
}

/// Register definitions check out: in a chunk whose structure passes
/// validation, on every run from the first instruction, each register an
/// instruction reads was written by an instruction earlier on that run, and
/// a run that reaches the end has written the result register.
pub proof fn validated_chunks_write_registers_before_reading_them(
    m: ChunkModel,
    slot_count: nat,
    id: nat,
    path: Seq<nat>,
    k: int,
)
    requires
        chunk_structure_error(m, slot_count, id) is None,
        chunk_path(m, path),
        0 <= k < path.len(),
    ensures
        path[k] < m.ops.len() ==> forall|j: int|
            0 <= j < sources(m.ops[path[k] as int]).len() ==> written_along(m, path, k)[#[trigger] sources(
                m.ops[path[k] as int],
            )[j] as int],
        path[k] == m.ops.len() ==> written_along(m, path, k)[m.result as int],
{
    chunk_structure_is_checked_exactly(m, slot_count, id);
    lemma_first_instruction_error(m, slot_count, id, m.ops.len());
    let prefix = path.subrange(0, k + 1);
    assert forall|i: int| 0 <= i < prefix.len() - 1 implies #[trigger] steps_to(m, prefix[i], prefix[i + 1]) by {
        assert(prefix[i] == path[i] && prefix[i + 1] == path[i + 1]);
    }
    assert(chunk_path(m, prefix));
    let q = path[k];
    if k > 0 {
        lemma_path_increases(m, slot_count, path, 0, k);
    }
    assert(q <= m.ops.len());
    assert forall|i: int| 0 <= i < prefix.len() - 1 implies #[trigger] prefix[i] < q by {
        lemma_path_increases(m, slot_count, path, i, k);
    }
    lemma_written_prefix(m, path, prefix, k);
    lemma_written_len(m, path, k);
    let n = m.ops.len();
    if flow_upto(m, id, q) is Err {
        lemma_flow_error_persists(m, id, q, n);
    }
    lemma_flow_invariant(m, id, slot_count, q);
    let states = flow_upto(m, id, q)->Ok_0;
    assert(prefix.last() == q);
    assert(states[q as int] matches Some(s) && flags_within(s, written_along(m, prefix, k)));
    let s = states[q as int]->0;
    if q < n {
        let q1 = (q + 1) as nat;
        if flow_upto(m, id, q1) is Err {
            lemma_flow_error_persists(m, id, q1, n);
        }
        assert(flow_upto(m, id, q1) == flow_step(m, id, states, q));
        lemma_first_undefined_none(sources(m.ops[q as int]), s);
        let op = m.ops[q as int];
        assert(instruction_well_formed(op, m, slot_count, q));
        assert forall|j: int| 0 <= j < sources(op).len() implies written_along(m, path, k)[#[trigger] sources(op)[j] as int] by {
            assert(s[sources(op)[j] as int]);
            assert(sources(op)[j] < m.registers);
        }
    }
}

/// A program that has passed full structural and budget validation.
pub struct ValidatedProgram {
    program: Program,
}

impl ValidatedProgram {
    /// The program this validation covers.
    pub closed spec fn validated(&self) -> Program {
        self.program
    }

    /// Validates `program` and keeps it; fails with the error
    /// [`Program::validate`] reports.
    pub fn new(program: Program) -> (r: Result<ValidatedProgram, ProgramValidationError>)
        ensures
            r is Ok <==> program_check(&program) is None,
            r matches Ok(v) ==> v.validated() == program,
            r matches Err(e) ==> program_check(&program) == Some(e.message@),
    {
        match program.validate() {
            Ok(()) => Ok(ValidatedProgram { program }),
            Err(e) => Err(e),
        }
    }

    /// The validated program.
    pub fn program(&self) -> (r: &Program)
        ensures
            *r == self.validated(),
            program_check(r) is None,
    {
        proof {
            use_type_invariant(self);
        }
        &self.program
    }

    /// Computes the execution metadata of the validated program. Validation
    /// already fixes every chunk's arena range; the constants of the arena
    /// must also fit the data budget, which validation checks only for the
    /// constants that chunks own.
    pub fn shared_execution_metadata(&self) -> (r: ExecutionMetadata)
        requires
            forall|i: int|
                0 <= i < self.validated().constants@.len() ==> within_budget(
                    #[trigger] self.validated().constants@[i]@,
                ),
        ensures
            r.describes(self.validated()),
    {
        proof {
            use_type_invariant(self);
            validated_programs_are_well_formed(&self.program);
            assert forall|id: int| 0 <= id < self.program.chunks@.len() implies (#[trigger] self.program.chunk_model(
                id,
            )) is Some by {}
            assert(self.program.chunks@.len() <= u32::MAX);
            assert forall|i: int| 0 <= i < self.program.constants@.len() implies within_budget(
                #[trigger] self.program.constants@[i]@,
            ) by {
                assert(self.validated().constants@[i] == self.program.constants@[i]);
            }
            assert(metadata_ready(self.program));
        }
        ExecutionMetadata::new(&self.program)
    }

    #[verifier::type_invariant]
    spec fn is_valid(self) -> bool {
        program_check(&self.program) is None
    }
}

} // verus!
