//! Incremental assembly of a stack-machine program.
//!
//! The builder owns one slot table shared across every expression, so a
//! variable has the same slot everywhere in the program. Expressions are
//! compiled on demand and packed into contiguous arenas; instructions refer to
//! them by chunk index. Finishing the program ends it with `Halt`, turns
//! conditional jumps on constant booleans into plain jumps, and threads jumps
//! through chains of unconditional jumps.

use crate::compile::{code, compiled, compile_expression_into, shape, ExprChunk, ExprChunkRef, ExprOp};
use crate::program::{ChunkId, Op, Pc};
use crate::slots::SlotTable;
use crate::syntax::Expr;
use crate::validate::is_integer_comparison;
use crate::value::{BinaryOp, Value};
use std::ops::Range;
use vstd::prelude::*;

verus! {

/// Ranges of one expression in a compiled program's arenas.
#[derive(Debug, PartialEq, Eq)]
pub struct CompiledChunk {
    pub ops: Range<u32>,
    pub constants: Range<u32>,
    pub line: u32,
}

/// A stack-machine program: instructions over expression chunks packed into
/// contiguous arenas, and the frame's slot table.
pub struct CompiledProgram {
    pub ops: Vec<Op>,
    pub chunks: Vec<CompiledChunk>,
    pub expr_ops: Vec<ExprOp>,
    pub constants: Vec<Value>,
    pub slots: SlotTable,
}

/// Incrementally assembles a [`CompiledProgram`].
pub struct ProgramBuilder {
    ops: Vec<Op>,
    chunks: Vec<CompiledChunk>,
    expr_ops: Vec<ExprOp>,
    constants: Vec<Value>,
    slots: SlotTable,
    scratch: ExprChunk,
}

/// The direct comparison a guard chunk reduces to: a slot compared with an
/// integer literal by one of the six comparisons.
pub open spec fn integer_comparison_model(ops: Seq<ExprOp>, constants: Seq<Value>) -> Option<(u32, BinaryOp, i64)> {
    if ops.len() == 3 && ops[0] is Load && ops[1] is Const && ops[2] is Binary {
        let slot = ops[0]->Load_slot;
        let index = ops[1]->Const_0;
        let comparison = ops[2]->Binary_0;
        if is_integer_comparison(comparison) && (index as int) < constants.len() && constants[index as int] is Integer {
            Some((slot, comparison, constants[index as int]->Integer_0))
        } else {
            None
        }
    } else {
        None
    }
}

/// The instructions with a final `Halt` unless they already end in `Halt`
/// or a jump.
pub open spec fn with_halt(ops: Seq<Op>) -> Seq<Op> {
    if ops.len() > 0 && (ops.last() is Halt || ops.last() is Jump) {
        ops
    } else {
        ops.push(Op::Halt)
    }
}

/// The boolean a chunk always yields, when it is a single boolean constant.
pub open spec fn constant_boolean_model(
    chunks: Seq<CompiledChunk>,
    expr_ops: Seq<ExprOp>,
    constants: Seq<Value>,
    id: u32,
) -> Option<bool> {
    if (id as int) < chunks.len() {
        let c = chunks[id as int];
        if c.ops.start <= c.ops.end <= expr_ops.len() && c.ops.end - c.ops.start == 1
            && expr_ops[c.ops.start as int] is Const {
            let index = c.constants.start + expr_ops[c.ops.start as int]->Const_0;
            if index <= u32::MAX && index < constants.len() && constants[index] is Boolean {
                Some(constants[index]->Boolean_0)
            } else {
                None
            }
        } else {
            None
        }
    } else {
        None
    }
}

/// Instruction `pc` with a guard on a constant boolean replaced by a jump:
/// to the next instruction when the guard is true, to its target otherwise.
pub open spec fn fold_branch(
    chunks: Seq<CompiledChunk>,
    expr_ops: Seq<ExprOp>,
    constants: Seq<Value>,
    op: Op,
    pc: int,
) -> Op {
    match op {
        Op::JumpIfFalse { condition, target } => match constant_boolean_model(chunks, expr_ops, constants, condition) {
            Some(true) => Op::Jump((pc + 1) as u32),
            Some(false) => Op::Jump(target),
            None => op,
        },
        _ => op,
    }
}

/// Where a jump to `target` ends up after following at most `fuel` plain
/// jumps; `None` for a cycle of plain jumps.
pub open spec fn resolve_target(ops: Seq<Op>, target: u32, fuel: nat) -> Option<u32>
    decreases fuel,
{
    if fuel == 0 {
        None
    } else if (target as int) < ops.len() && ops[target as int] is Jump {
        let next = ops[target as int]->Jump_0;
        if next == target {
            None
        } else {
            resolve_target(ops, next, (fuel - 1) as nat)
        }
    } else {
        Some(target)
    }
}

/// The jump target of an instruction, when it has one.
pub open spec fn target_of(op: Op) -> Option<u32> {
    match op {
        Op::Jump(t) => Some(t),
        Op::JumpIfFalse { target, .. } => Some(target),
        Op::JumpIfIntegerCompare { target, .. } => Some(target),
        _ => None,
    }
}

/// `op` with its jump target replaced by `target`.
pub open spec fn retarget(op: Op, target: u32) -> Op {
    match op {
        Op::Jump(_) => Op::Jump(target),
        Op::JumpIfFalse { condition, .. } => Op::JumpIfFalse { condition, target },
        Op::JumpIfIntegerCompare { condition, slot, comparison, value, .. } => Op::JumpIfIntegerCompare {
            condition,
            slot,
            comparison,
            value,
            target,
        },
        _ => op,
    }
}

/// Instruction `pc` of `ops` with its jump threaded to where the chain of
/// plain jumps it enters ends.
pub open spec fn thread_op(ops: Seq<Op>, pc: int) -> Op {
    match target_of(ops[pc]) {
        Some(t) => retarget(
            ops[pc],
            match resolve_target(ops, t, ops.len()) {
                Some(r) => r,
                None => t,
            },
        ),
        None => ops[pc],
    }
}

/// The instructions a finished program holds.
pub open spec fn finished_ops(
    ops: Seq<Op>,
    chunks: Seq<CompiledChunk>,
    expr_ops: Seq<ExprOp>,
    constants: Seq<Value>,
) -> Seq<Op> {
    let halted = with_halt(ops);
    let folded = Seq::new(halted.len(), |pc: int| fold_branch(chunks, expr_ops, constants, halted[pc], pc));
    Seq::new(folded.len(), |pc: int| thread_op(folded, pc))
}

/// A finished program ends in `Halt` or a jump, has one instruction more
/// than was pushed only when the pushed ones did not already end so, and
/// keeps every instruction that is not a jump where it was pushed; a jump's
/// condition chunk and comparison are kept, and only its target changes.
pub proof fn finished_programs_keep_their_instructions(
    ops: Seq<Op>,
    chunks: Seq<CompiledChunk>,
    expr_ops: Seq<ExprOp>,
    constants: Seq<Value>,
)
    ensures
        ({
            let out = finished_ops(ops, chunks, expr_ops, constants);
            &&& out.len() > 0
            &&& out.last() is Halt || out.last() is Jump
            &&& out.len() == if ops.len() > 0 && (ops.last() is Halt || ops.last() is Jump) {
                ops.len()
            } else {
                ops.len() + 1
            }
            &&& forall|pc: int|
                0 <= pc < ops.len() && target_of(ops[pc]) is None ==> #[trigger] out[pc] == ops[pc]
            &&& forall|pc: int|
                0 <= pc < ops.len() && ops[pc] is JumpIfIntegerCompare ==> (#[trigger] out[pc] is JumpIfIntegerCompare
                    && out[pc]->JumpIfIntegerCompare_condition == ops[pc]->JumpIfIntegerCompare_condition
                    && out[pc]->JumpIfIntegerCompare_slot == ops[pc]->JumpIfIntegerCompare_slot
                    && out[pc]->JumpIfIntegerCompare_comparison == ops[pc]->JumpIfIntegerCompare_comparison
                    && out[pc]->JumpIfIntegerCompare_value == ops[pc]->JumpIfIntegerCompare_value)
        }),
{
    let halted = with_halt(ops);
    let folded = Seq::new(halted.len(), |pc: int| fold_branch(chunks, expr_ops, constants, halted[pc], pc));
    let out = finished_ops(ops, chunks, expr_ops, constants);
    assert(out[out.len() - 1] == thread_op(folded, folded.len() - 1));
    assert(folded[folded.len() - 1] == fold_branch(chunks, expr_ops, constants, halted[halted.len() - 1], halted.len() - 1));
    assert forall|pc: int| 0 <= pc < ops.len() && target_of(ops[pc]) is None implies #[trigger] out[pc] == ops[pc] by {
        assert(halted[pc] == ops[pc]);
        assert(folded[pc] == ops[pc]);
    }
    assert forall|pc: int| 0 <= pc < ops.len() && ops[pc] is JumpIfIntegerCompare implies (#[trigger] out[pc] is JumpIfIntegerCompare
        && out[pc]->JumpIfIntegerCompare_condition == ops[pc]->JumpIfIntegerCompare_condition
        && out[pc]->JumpIfIntegerCompare_slot == ops[pc]->JumpIfIntegerCompare_slot
        && out[pc]->JumpIfIntegerCompare_comparison == ops[pc]->JumpIfIntegerCompare_comparison
        && out[pc]->JumpIfIntegerCompare_value == ops[pc]->JumpIfIntegerCompare_value) by {
        assert(halted[pc] == ops[pc]);
        assert(folded[pc] == ops[pc]);
    }
}

/// The arenas of `after` are those of `before` with chunk `c` appended.
pub open spec fn appended(before: ProgramBuilder, after: ProgramBuilder, c: ExprChunk) -> bool {
    &&& after.expr_op_seq() == before.expr_op_seq() + c.ops@
    &&& after.constant_seq() == before.constant_seq() + c.constants@
    &&& after.chunk_seq() == before.chunk_seq().push(
        CompiledChunk {
            ops: Range { start: before.expr_op_seq().len() as u32, end: after.expr_op_seq().len() as u32 },
            constants: Range { start: before.constant_seq().len() as u32, end: after.constant_seq().len() as u32 },
            line: c.line,
        },
    )
}

/// Room to compile `e` into the builder: the table and arenas stay within
/// their `u32` indices.
pub open spec fn room_for(b: ProgramBuilder, e: Expr) -> bool {
    &&& shape(e).0 <= usize::MAX
    &&& b.table().width() + code(e, 1, 0).len() < u32::MAX
    &&& b.expr_op_seq().len() + code(e, 1, 0).len() <= u32::MAX
    &&& b.constant_seq().len() + code(e, 1, 0).len() <= u32::MAX
    &&& b.chunk_seq().len() < u32::MAX
}

/// What an assignment compiles to: a direct constant store for a single
/// constant, a slot copy for a single load, otherwise an evaluation of the
/// pooled chunk.
pub open spec fn set_result(before: ProgramBuilder, after: ProgramBuilder, c: ExprChunk, slot: u32, r: Op) -> bool {
    let ops = c.ops@;
    if ops.len() == 1 && ops[0] is Const && (ops[0]->Const_0 as int) < c.constants@.len() {
        &&& after.chunk_seq() == before.chunk_seq()
        &&& after.expr_op_seq() == before.expr_op_seq()
        &&& after.constant_seq() == before.constant_seq()
        &&& r matches Op::SetConst { slot: s, value, line } && s == slot && line == c.line && value@
            == c.constants@[ops[0]->Const_0 as int]@
    } else if ops.len() == 1 && ops[0] is Load {
        &&& after.chunk_seq() == before.chunk_seq()
        &&& after.expr_op_seq() == before.expr_op_seq()
        &&& after.constant_seq() == before.constant_seq()
        &&& r == (Op::CopySlot { slot, source: ops[0]->Load_slot, line: c.line, column: ops[0]->Load_column })
    } else {
        &&& appended(before, after, c)
        &&& r == (Op::SetSlot { slot, value: before.chunk_seq().len() as u32 })
    }
}

/// What a guard compiles to: a direct integer comparison when the chunk is
/// one, otherwise a jump on the chunk's value; the chunk is pooled either way.
pub open spec fn guard_result(id: u32, c: ExprChunk, target: Pc) -> Op {
    match integer_comparison_model(c.ops@, c.constants@) {
        Some((slot, comparison, value)) => Op::JumpIfIntegerCompare { condition: id, slot, comparison, value, target },
        None => Op::JumpIfFalse { condition: id, target },
    }
}

fn integer_comparison(chunk: &ExprChunk) -> (r: Option<(u32, BinaryOp, i64)>)
    ensures
        r == integer_comparison_model(chunk.ops@, chunk.constants@),
{
    if chunk.ops.len() != 3 {
        return None;
    }
    let slot = match chunk.ops[0] {
        ExprOp::Load { slot, .. } => slot,
        _ => return None,
    };
    let index = match chunk.ops[1] {
        ExprOp::Const(index) => index,
        _ => return None,
    };
    let comparison = match chunk.ops[2] {
        ExprOp::Binary(comparison) => comparison,
        _ => return None,
    };
    match comparison {
        BinaryOp::Equal | BinaryOp::NotEqual | BinaryOp::Less | BinaryOp::LessEqual | BinaryOp::Greater
        | BinaryOp::GreaterEqual => {},
        _ => return None,
    }
    if (index as usize) >= chunk.constants.len() {
        return None;
    }
    match &chunk.constants[index as usize] {
        Value::Integer(value) => Some((slot, comparison, *value)),
        _ => None,
    }
}

fn constant_boolean(chunks: &Vec<CompiledChunk>, expr_ops: &Vec<ExprOp>, constants: &Vec<Value>, id: u32) -> (r: Option<bool>)
    ensures
        r == constant_boolean_model(chunks@, expr_ops@, constants@, id),
{
    if (id as usize) >= chunks.len() {
        return None;
    }
    let c = &chunks[id as usize];
    if c.ops.start > c.ops.end || (c.ops.end as usize) > expr_ops.len() || c.ops.end - c.ops.start != 1 {
        return None;
    }
    let index = match expr_ops[c.ops.start as usize] {
        ExprOp::Const(index) => index,
        _ => return None,
    };
    let index = match c.constants.start.checked_add(index) {
        Some(i) => i,
        None => return None,
    };
    if (index as usize) >= constants.len() {
        return None;
    }
    match &constants[index as usize] {
        Value::Boolean(value) => Some(*value),
        _ => None,
    }
}

fn resolve_jump_target(ops: &Vec<Op>, original: u32) -> (r: Option<u32>)
    ensures
        r == resolve_target(ops@, original, ops@.len()),
{
    let n = ops.len();
    let mut target = original;
    let mut i: usize = 0;
    while i < n
        invariant
            n == ops@.len(),
            i <= n,
            resolve_target(ops@, original, n as nat) == resolve_target(ops@, target, (n - i) as nat),
        decreases n - i,
    {
        if (target as usize) < n {
            match &ops[target as usize] {
                Op::Jump(next) => {
                    if *next == target {
                        return None;
                    }
                    target = *next;
                },
                _ => {
                    return Some(target);
                },
            }
        } else {
            return Some(target);
        }
        i = i + 1;
    }
    None
}

fn retargeted(op: &Op, target: u32) -> (r: Op)
    requires
        target_of(*op) is Some,
    ensures
        r == retarget(*op, target),
{
    match op {
        Op::Jump(_) => Op::Jump(target),
        Op::JumpIfFalse { condition, .. } => Op::JumpIfFalse { condition: *condition, target },
        Op::JumpIfIntegerCompare { condition, slot, comparison, value, .. } => Op::JumpIfIntegerCompare {
            condition: *condition,
            slot: *slot,
            comparison: *comparison,
            value: *value,
            target,
        },
        _ => Op::Halt,
    }
}

fn jump_target(op: &Op) -> (r: Option<u32>)
    ensures
        r == target_of(*op),
{
    match op {
        Op::Jump(t) => Some(*t),
        Op::JumpIfFalse { target, .. } => Some(*target),
        Op::JumpIfIntegerCompare { target, .. } => Some(*target),
        _ => None,
    }
}

impl CompiledProgram {
    /// Borrows expression `id` from the arenas, when its ranges fit.
    pub fn chunk(&self, id: ChunkId) -> (r: Option<ExprChunkRef<'_>>)
        ensures
            match r {
                Some(c) => {
                    let k = self.chunks@[id as int];
                    &&& (id as int) < self.chunks@.len()
                    &&& k.ops.start <= k.ops.end <= self.expr_ops@.len()
                    &&& k.constants.start <= k.constants.end <= self.constants@.len()
                    &&& c.ops@ == self.expr_ops@.subrange(k.ops.start as int, k.ops.end as int)
                    &&& c.constants@ == self.constants@.subrange(k.constants.start as int, k.constants.end as int)
                    &&& c.line == k.line
                },
                None => (id as int) >= self.chunks@.len() || {
                    let k = self.chunks@[id as int];
                    !(k.ops.start <= k.ops.end <= self.expr_ops@.len() && k.constants.start <= k.constants.end
                        <= self.constants@.len())
                },
            },
    {
        if id as usize >= self.chunks.len() {
            return None;
        }
        let k = &self.chunks[id as usize];
        if k.ops.start > k.ops.end || k.ops.end as usize > self.expr_ops.len() || k.constants.start > k.constants.end
            || k.constants.end as usize > self.constants.len() {
            return None;
        }
        let ops = vstd::slice::slice_subrange(self.expr_ops.as_slice(), k.ops.start as usize, k.ops.end as usize);
        let constants = vstd::slice::slice_subrange(
            self.constants.as_slice(),
            k.constants.start as usize,
            k.constants.end as usize,
        );
        Some(ExprChunkRef { ops, constants, line: k.line })
    }
}

impl ProgramBuilder {
    pub closed spec fn op_seq(&self) -> Seq<Op> {
        self.ops@
    }

    pub closed spec fn chunk_seq(&self) -> Seq<CompiledChunk> {
        self.chunks@
    }

    pub closed spec fn expr_op_seq(&self) -> Seq<ExprOp> {
        self.expr_ops@
    }

    pub closed spec fn constant_seq(&self) -> Seq<Value> {
        self.constants@
    }

    pub closed spec fn table(&self) -> SlotTable {
        self.slots
    }

    /// An empty builder with an empty slot table.
    pub fn new() -> (r: ProgramBuilder)
        ensures
            r.op_seq().len() == 0,
            r.chunk_seq().len() == 0,
            r.expr_op_seq().len() == 0,
            r.constant_seq().len() == 0,
            r.table().wf(),
            r.table().width() == 0,
            r.table().named(),
    {
        ProgramBuilder {
            ops: Vec::new(),
            chunks: Vec::new(),
            expr_ops: Vec::new(),
            constants: Vec::new(),
            slots: SlotTable::new(),
            scratch: ExprChunk::new(0),
        }
    }

    /// The expression chunks pooled so far.
    pub fn chunks(&self) -> (r: &[CompiledChunk])
        ensures
            r@ == self.chunk_seq(),
    {
        self.chunks.as_slice()
    }

    /// Interns a variable name, returning its frame slot.
    pub fn slot(&mut self, name: &str) -> (r: u32)
        requires
            old(self).table().wf(),
            old(self).table().width() < u32::MAX,
        ensures
            final(self).table().wf(),
            final(self).table().named() == old(self).table().named(),
            old(self).table().slot_of(name@) matches Some(s) ==> r == s && final(self).table() == old(self).table(),
            old(self).table().slot_of(name@) is None ==> r == old(self).table().width() && final(self).table().width()
                == old(self).table().width() + 1,
            final(self).table().named() ==> final(self).table().slot_of(name@) == Some(r as nat),
            final(self).op_seq() == old(self).op_seq(),
            final(self).chunk_seq() == old(self).chunk_seq(),
            final(self).expr_op_seq() == old(self).expr_op_seq(),
            final(self).constant_seq() == old(self).constant_seq(),
    {
        self.slots.intern(name)
    }

    fn append_scratch(&mut self) -> (r: ChunkId)
        requires
            old(self).chunks@.len() < u32::MAX,
            old(self).expr_ops@.len() + old(self).scratch.ops@.len() <= u32::MAX,
            old(self).constants@.len() + old(self).scratch.constants@.len() <= u32::MAX,
        ensures
            r == old(self).chunks@.len(),
            appended(*old(self), *final(self), old(self).scratch),
            final(self).ops == old(self).ops,
            final(self).slots == old(self).slots,
    {
        let id = self.chunks.len() as u32;
        let op_start = self.expr_ops.len() as u32;
        let mut k: usize = 0;
        let ghost before = self.expr_ops@;
        while k < self.scratch.ops.len()
            invariant
                self.ops == old(self).ops,
                self.chunks == old(self).chunks,
                self.constants == old(self).constants,
                self.slots == old(self).slots,
                self.scratch == old(self).scratch,
                before == old(self).expr_ops@,
                k <= self.scratch.ops@.len(),
                self.expr_ops@ == before + self.scratch.ops@.subrange(0, k as int),
                before.len() + self.scratch.ops@.len() <= u32::MAX,
            decreases self.scratch.ops@.len() - k,
        {
            let op = self.scratch.ops[k];
            self.expr_ops.push(op);
            assert(self.scratch.ops@.subrange(0, k + 1) =~= self.scratch.ops@.subrange(0, k as int).push(op));
            k = k + 1;
        }
        assert(self.scratch.ops@.subrange(0, k as int) =~= self.scratch.ops@);
        let op_end = self.expr_ops.len() as u32;
        let constant_start = self.constants.len() as u32;
        self.constants.append(&mut self.scratch.constants);
        let constant_end = self.constants.len() as u32;
        self.chunks.push(
            CompiledChunk {
                ops: Range { start: op_start, end: op_end },
                constants: Range { start: constant_start, end: constant_end },
                line: self.scratch.line,
            },
        );
        id
    }

    /// Compiles an expression and returns the index of its pooled chunk.
    pub fn expr(&mut self, expression: &Expr, line: usize) -> (r: ChunkId)
        requires
            old(self).table().wf(),
            room_for(*old(self), *expression),
        ensures
            r == old(self).chunk_seq().len(),
            final(self).op_seq() == old(self).op_seq(),
            exists|c: ExprChunk|
                compiled(*expression, line, c, old(self).table(), final(self).table()) && appended(
                    *old(self),
                    *final(self),
                    c,
                ),
    {
        compile_expression_into(expression, &mut self.slots, line, &mut self.scratch);
        let ghost c = self.scratch;
        let ghost before = *self;
        let id = self.append_scratch();
        proof {
            assert(appended(before, *self, c));
            assert(appended(*old(self), *self, c));
            assert(compiled(*expression, line, c, old(self).table(), self.table()));
        }
        id
    }
    /// Compiles an assignment, storing a constant or copying a slot directly
    /// when the expression needs no evaluation.
    pub fn set_op(&mut self, slot: u32, expression: &Expr, line: usize) -> (r: Op)
        requires
            old(self).table().wf(),
            room_for(*old(self), *expression),
        ensures
            final(self).op_seq() == old(self).op_seq(),
            exists|c: ExprChunk|
                compiled(*expression, line, c, old(self).table(), final(self).table()) && set_result(
                    *old(self),
                    *final(self),
                    c,
                    slot,
                    r,
                ),
    {
        compile_expression_into(expression, &mut self.slots, line, &mut self.scratch);
        let ghost c = self.scratch;
        if self.scratch.ops.len() == 1 {
            match self.scratch.ops[0] {
                ExprOp::Const(index) => {
                    if (index as usize) < self.scratch.constants.len() {
                        let value = self.scratch.constants[index as usize].duplicate();
                        let r = Op::SetConst { slot, value, line: self.scratch.line };
                        assert(set_result(*old(self), *self, c, slot, r));
                        return r;
                    }
                },
                ExprOp::Load { slot: source, column } => {
                    let r = Op::CopySlot { slot, source, line: self.scratch.line, column };
                    assert(set_result(*old(self), *self, c, slot, r));
                    return r;
                },
                _ => {},
            }
        }
        let ghost before = *self;
        let value = self.append_scratch();
        let r = Op::SetSlot { slot, value };
        proof {
            assert(appended(*old(self), *self, c));
            assert(set_result(*old(self), *self, c, slot, r));
        }
        r
    }

    /// Compiles a guard that jumps to `target` when false, comparing a slot
    /// with an integer directly when the guard is such a comparison.
    pub fn jump_if_false_op(&mut self, expression: &Expr, line: usize, target: Pc) -> (r: Op)
        requires
            old(self).table().wf(),
            room_for(*old(self), *expression),
        ensures
            final(self).op_seq() == old(self).op_seq(),
            exists|c: ExprChunk|
                compiled(*expression, line, c, old(self).table(), final(self).table()) && appended(
                    *old(self),
                    *final(self),
                    c,
                ) && r == guard_result(old(self).chunk_seq().len() as u32, c, target),
    {
        compile_expression_into(expression, &mut self.slots, line, &mut self.scratch);
        let ghost c = self.scratch;
        let comparison = integer_comparison(&self.scratch);
        let condition = self.append_scratch();
        let r = match comparison {
            Some((slot, comparison, value)) => Op::JumpIfIntegerCompare { condition, slot, comparison, value, target },
            None => Op::JumpIfFalse { condition, target },
        };
        proof {
            assert(appended(*old(self), *self, c));
        }
        r
    }

    /// Appends an instruction, returning its position.
    pub fn push(&mut self, op: Op) -> (r: Pc)
        requires
            old(self).op_seq().len() < u32::MAX,
        ensures
            r == old(self).op_seq().len(),
            final(self).op_seq() == old(self).op_seq().push(op),
            final(self).chunk_seq() == old(self).chunk_seq(),
            final(self).expr_op_seq() == old(self).expr_op_seq(),
            final(self).constant_seq() == old(self).constant_seq(),
            final(self).table() == old(self).table(),
    {
        let pc = self.ops.len() as u32;
        self.ops.push(op);
        pc
    }

    /// The position the next pushed instruction will take.
    pub fn here(&self) -> (r: Pc)
        requires
            self.op_seq().len() <= u32::MAX,
        ensures
            r == self.op_seq().len(),
    {
        self.ops.len() as u32
    }

    /// Overwrites a pushed instruction, to back-patch jumps.
    pub fn patch(&mut self, pc: Pc, op: Op)
        requires
            (pc as int) < old(self).op_seq().len(),
        ensures
            final(self).op_seq() == old(self).op_seq().update(pc as int, op),
            final(self).chunk_seq() == old(self).chunk_seq(),
            final(self).expr_op_seq() == old(self).expr_op_seq(),
            final(self).constant_seq() == old(self).constant_seq(),
            final(self).table() == old(self).table(),
    {
        self.ops.set(pc as usize, op);
    }

    /// Replaces the target of a conditional jump pushed with a placeholder.
    pub fn patch_condition_target(&mut self, pc: Pc, target: Pc)
        requires
            (pc as int) < old(self).op_seq().len(),
            old(self).op_seq()[pc as int] is JumpIfFalse || old(self).op_seq()[pc as int] is JumpIfIntegerCompare,
        ensures
            final(self).op_seq() == old(self).op_seq().update(pc as int, retarget(old(self).op_seq()[pc as int], target)),
            final(self).chunk_seq() == old(self).chunk_seq(),
            final(self).expr_op_seq() == old(self).expr_op_seq(),
            final(self).constant_seq() == old(self).constant_seq(),
            final(self).table() == old(self).table(),
    {
        let op = retargeted(&self.ops[pc as usize], target);
        self.ops.set(pc as usize, op);
    }

    /// Finishes the program: ends it with `Halt` unless it ends in `Halt` or
    /// a jump, replaces guards on constant booleans by jumps, and threads
    /// every jump through the chain of plain jumps it enters.
    pub fn build(self) -> (r: CompiledProgram)
        requires
            self.op_seq().len() < u32::MAX,
        ensures
            r.ops@ == finished_ops(self.op_seq(), self.chunk_seq(), self.expr_op_seq(), self.constant_seq()),
            r.chunks@ == self.chunk_seq(),
            r.expr_ops@ == self.expr_op_seq(),
            r.constants@ == self.constant_seq(),
            r.slots == self.table(),
    {
        let ghost original = self.ops@;
        let ProgramBuilder { ops, chunks, expr_ops, constants, slots, .. } = self;
        let mut ops = ops;
        let n0 = ops.len();
        let ends = n0 > 0 && match &ops[n0 - 1] {
            Op::Halt | Op::Jump(_) => true,
            _ => false,
        };
        if !ends {
            ops.push(Op::Halt);
        }
        let ghost halted = ops@;
        assert(halted == with_halt(original));
        let n = ops.len();
        let mut pc: usize = 0;
        while pc < n
            invariant
                n == ops@.len(),
                n == halted.len(),
                n <= u32::MAX,
                pc <= n,
                forall|i: int| 0 <= i < n ==> #[trigger] ops@[i] == (if i < pc {
                    fold_branch(chunks@, expr_ops@, constants@, halted[i], i)
                } else {
                    halted[i]
                }),
            decreases n - pc,
        {
            let guard = match &ops[pc] {
                Op::JumpIfFalse { condition, target } => Some((*condition, *target)),
                _ => None,
            };
            if let Some((condition, target)) = guard {
                match constant_boolean(&chunks, &expr_ops, &constants, condition) {
                    Some(true) => ops.set(pc, Op::Jump((pc + 1) as u32)),
                    Some(false) => ops.set(pc, Op::Jump(target)),
                    None => {},
                }
            }
            pc = pc + 1;
        }
        let ghost folded = ops@;
        assert(folded =~= Seq::new(halted.len(), |i: int| fold_branch(chunks@, expr_ops@, constants@, halted[i], i)));
        let mut targets: Vec<Option<u32>> = Vec::new();
        let mut k: usize = 0;
        while k < n
            invariant
                n == ops@.len(),
                ops@ == folded,
                k <= n,
                targets@.len() == k,
                forall|i: int| 0 <= i < k ==> #[trigger] targets@[i] == match target_of(folded[i]) {
                    Some(t) => Some(match resolve_target(folded, t, n as nat) {
                        Some(x) => x,
                        None => t,
                    }),
                    None => None::<u32>,
                },
            decreases n - k,
        {
            let next = match jump_target(&ops[k]) {
                Some(t) => Some(match resolve_jump_target(&ops, t) {
                    Some(x) => x,
                    None => t,
                }),
                None => None,
            };
            targets.push(next);
            k = k + 1;
        }
        let mut j: usize = 0;
        while j < n
            invariant
                n == ops@.len(),
                n == folded.len(),
                targets@.len() == n,
                j <= n,
                forall|i: int| 0 <= i < n ==> #[trigger] targets@[i] == match target_of(folded[i]) {
                    Some(t) => Some(match resolve_target(folded, t, n as nat) {
                        Some(x) => x,
                        None => t,
                    }),
                    None => None::<u32>,
                },
                forall|i: int| 0 <= i < n ==> #[trigger] ops@[i] == (if i < j {
                    thread_op(folded, i)
                } else {
                    folded[i]
                }),
            decreases n - j,
        {
            if let Some(target) = targets[j] {
                let op = retargeted(&ops[j], target);
                ops.set(j, op);
            }
            j = j + 1;
        }
        assert(ops@ =~= finished_ops(original, chunks@, expr_ops@, constants@));
        CompiledProgram { ops, chunks, expr_ops, constants, slots }
    }
}

} // verus!
