//! Program-level bytecode: control flow over expression chunks.
//!
//! A [`Program`] is a flat list of [`Op`]s indexed by a program counter, the
//! expression chunks those ops evaluate (packed into contiguous arenas), and
//! the [`SlotTable`] describing the variable frame. The only way to reach the
//! outside world is [`Op::Host`], an opaque effect handed to the embedder.

use crate::bytecode::{compact_position, compact_source_position, ChunkModel, ExprChunk, ExprChunkRef, ExprOp, Register};
use crate::slots::SlotTable;
use crate::value::{lemma_view_items, view_items, BinaryOp, Value};
use std::ops::Range;
use vstd::prelude::*;

verus! {

/// An index into [`Program::chunks`].
pub type ChunkId = u32;

/// A program-counter target: an index into [`Program::ops`].
pub type Pc = u32;

/// Ranges of one expression stored in a program's contiguous arenas.
#[derive(Debug, PartialEq, Eq)]
pub struct ProgramChunk {
    pub ops: Range<u32>,
    pub constants: Range<u32>,
    pub registers: Register,
    pub result: Register,
    pub line: u32,
}

/// An ownership-aware update of a slot from its current value.
///
/// The remaining operands stay chunks so they are evaluated before the
/// destination is taken; a failure leaves the old value untouched.
#[derive(Debug, Clone, Copy, PartialEq, Eq, Structural)]
pub enum UpdateOp {
    Add { rhs: ChunkId },
    AddInteger { value: i64 },
    Push { value: ChunkId },
    Put { key: ChunkId, value: ChunkId },
    Remove { key: ChunkId },
}

/// Payload of a host yield.
#[derive(Debug, PartialEq, Eq)]
pub struct HostOp {
    pub host_id: u32,
    pub args: Vec<ChunkId>,
    /// Destination for a required host return value, or `None` for a
    /// side-effect-only command.
    pub bind: Option<u32>,
    /// Source line used when a bound command resumes without a value.
    pub line: u32,
}

impl HostOp {
    /// Creates a host payload.
    pub fn new(host_id: u32, args: Vec<ChunkId>, bind: Option<u32>, line: usize) -> (r: HostOp)
        ensures
            r.host_id == host_id,
            r.args@ == args@,
            r.bind == bind,
            r.line == compact_position(line as nat),
    {
        HostOp { host_id, args, bind, line: compact_source_position(line) }
    }
}

/// A control-flow instruction.
#[derive(Debug, PartialEq, Eq)]
pub enum Op {
    /// Evaluate a chunk and store the result into a frame slot.
    SetSlot { slot: u32, value: ChunkId },
    /// Store a constant without entering the expression machine.
    SetConst { slot: u32, value: Value, line: u32 },
    /// Copy an assigned frame slot.
    CopySlot { slot: u32, source: u32, line: u32, column: u32 },
    /// Update `slot` from its current value.
    Update { slot: u32, operation: UpdateOp, line: u32, column: u32 },
    /// Unconditional jump.
    Jump(Pc),
    /// Evaluate a chunk; if it is boolean `false`, jump to the target.
    JumpIfFalse { condition: ChunkId, target: Pc },
    /// Compare an integer slot with a literal; jump when the result is false.
    /// `condition` keeps the original chunk for source-aware analysis.
    JumpIfIntegerCompare { condition: ChunkId, slot: u32, comparison: BinaryOp, value: i64, target: Pc },
    /// Yield an opaque host effect.
    Host(Box<HostOp>),
    /// Halt successfully.
    Halt,
}

impl Op {
    /// An ownership-aware update with a compact source position.
    pub fn update(slot: u32, operation: UpdateOp, line: usize, column: usize) -> (r: Op)
        ensures
            r == (Op::Update {
                slot,
                operation,
                line: compact_position(line as nat) as u32,
                column: compact_position(column as nat) as u32,
            }),
    {
        Op::Update {
            slot,
            operation,
            line: compact_source_position(line),
            column: compact_source_position(column),
        }
    }

    /// A boxed host instruction.
    pub fn host(host_id: u32, args: Vec<ChunkId>, bind: Option<u32>, line: usize) -> (r: Op)
        ensures
            r matches Op::Host(h) && h.host_id == host_id && h.args@ == args@ && h.bind == bind
                && h.line == compact_position(line as nat),
    {
        Op::Host(Box::new(HostOp::new(host_id, args, bind, line)))
    }
}

/// A compiled, executable program.
#[derive(Debug)]
pub struct Program {
    pub ops: Vec<Op>,
    pub chunks: Vec<ProgramChunk>,
    pub expr_ops: Vec<ExprOp>,
    pub constants: Vec<Value>,
    pub slots: SlotTable,
}

/// The chunk described by `c` within the given arenas, when its ranges fit.
pub open spec fn arena_model(c: ProgramChunk, ops: Seq<ExprOp>, constants: Seq<Value>) -> Option<ChunkModel> {
    if c.ops.start <= c.ops.end && c.ops.end <= ops.len() && c.constants.start <= c.constants.end
        && c.constants.end <= constants.len() {
        Some(
            ChunkModel {
                ops: ops.subrange(c.ops.start as int, c.ops.end as int),
                constants: view_items(constants.subrange(c.constants.start as int, c.constants.end as int)),
                registers: c.registers as nat,
                result: c.result as nat,
                line: c.line as nat,
            },
        )
    } else {
        None
    }
}

impl Program {
    /// The expression with index `id`, if it exists and its ranges fit.
    pub open spec fn chunk_model(&self, id: int) -> Option<ChunkModel> {
        if 0 <= id < self.chunks@.len() {
            arena_model(self.chunks@[id], self.expr_ops@, self.constants@)
        } else {
            None
        }
    }
}

/// Number of instructions in the first `k` chunks.
pub open spec fn ops_before(chunks: Seq<ExprChunk>, k: int) -> nat
    decreases k,
{
    if k <= 0 {
        0
    } else {
        ops_before(chunks, k - 1) + chunks[k - 1].ops@.len()
    }
}

/// Number of constants in the first `k` chunks.
pub open spec fn constants_before(chunks: Seq<ExprChunk>, k: int) -> nat
    decreases k,
{
    if k <= 0 {
        0
    } else {
        constants_before(chunks, k - 1) + chunks[k - 1].constants@.len()
    }
}

proof fn lemma_before_monotonic(chunks: Seq<ExprChunk>, i: int, k: int)
    requires
        0 <= i <= k,
    ensures
        ops_before(chunks, i) <= ops_before(chunks, k),
        constants_before(chunks, i) <= constants_before(chunks, k),
    decreases k - i,
{
    if i < k {
        lemma_before_monotonic(chunks, i, k - 1);
    }
}

fn append_reusable_chunk(
    chunks: &mut Vec<ProgramChunk>,
    expr_ops: &mut Vec<ExprOp>,
    constants: &mut Vec<Value>,
    chunk: &mut ExprChunk,
)
    requires
        old(expr_ops)@.len() + old(chunk).ops@.len() <= u32::MAX,
        old(constants)@.len() + old(chunk).constants@.len() <= u32::MAX,
    ensures
        final(expr_ops)@ == old(expr_ops)@ + old(chunk).ops@,
        final(constants)@ == old(constants)@ + old(chunk).constants@,
        final(chunks)@ == old(chunks)@.push(
            ProgramChunk {
                ops: Range { start: old(expr_ops)@.len() as u32, end: final(expr_ops)@.len() as u32 },
                constants: Range {
                    start: old(constants)@.len() as u32,
                    end: final(constants)@.len() as u32,
                },
                registers: old(chunk).registers,
                result: old(chunk).result,
                line: old(chunk).line,
            },
        ),
{
    let op_start = expr_ops.len() as u32;
    expr_ops.append(&mut chunk.ops);
    let op_end = expr_ops.len() as u32;
    let constant_start = constants.len() as u32;
    constants.append(&mut chunk.constants);
    let constant_end = constants.len() as u32;
    chunks.push(
        ProgramChunk {
            ops: Range { start: op_start, end: op_end },
            constants: Range { start: constant_start, end: constant_end },
            registers: chunk.registers,
            result: chunk.result,
            line: chunk.line,
        },
    );
}

impl Program {
    /// Packs independently allocated expression chunks into contiguous
    /// arenas; chunk `i` of the result is the `i`-th given chunk.
    pub fn from_chunks(ops: Vec<Op>, chunks: Vec<ExprChunk>, slots: SlotTable) -> (r: Program)
        requires
            ops_before(chunks@, chunks@.len() as int) <= u32::MAX,
            constants_before(chunks@, chunks@.len() as int) <= u32::MAX,
        ensures
            r.ops@ == ops@,
            r.slots == slots,
            r.chunks@.len() == chunks@.len(),
            r.expr_ops@.len() == ops_before(chunks@, chunks@.len() as int),
            r.constants@.len() == constants_before(chunks@, chunks@.len() as int),
            forall|i: int| 0 <= i < chunks@.len() ==> #[trigger] r.chunk_model(i) == Some(chunks@[i].model()),
    {
        let ghost all = chunks@;
        let total = chunks.len();
        let ghost n = chunks@.len() as int;
        let mut rest = chunks;
        let mut packed: Vec<ProgramChunk> = Vec::new();
        let mut expr_ops: Vec<ExprOp> = Vec::new();
        let mut constants: Vec<Value> = Vec::new();
        let mut k: usize = 0;
        while rest.len() > 0
            invariant
                n == all.len(),
                n == total,
                ops_before(all, n) <= u32::MAX,
                constants_before(all, n) <= u32::MAX,
                k <= n,
                rest@ == all.subrange(k as int, n),
                packed@.len() == k,
                expr_ops@.len() == ops_before(all, k as int),
                constants@.len() == constants_before(all, k as int),
                forall|i: int|
                    0 <= i < k ==> #[trigger] arena_model(packed@[i], expr_ops@, constants@) == Some(
                        all[i].model(),
                    ),
            decreases rest@.len(),
        {
            let mut chunk = rest.remove(0);
            assert(chunk == all[k as int]);
            proof {
                lemma_before_monotonic(all, k + 1, n);
            }
            let ghost old_ops = expr_ops@;
            let ghost old_constants = constants@;
            let ghost old_packed = packed@;
            append_reusable_chunk(&mut packed, &mut expr_ops, &mut constants, &mut chunk);
            proof {
                assert forall|i: int| 0 <= i < k + 1 implies #[trigger] arena_model(
                    packed@[i],
                    expr_ops@,
                    constants@,
                ) == Some(all[i].model()) by {
                    let c = packed@[i];
                    if i < k {
                        assert(c == old_packed[i]);
                        assert(arena_model(c, old_ops, old_constants) == Some(all[i].model()));
                        assert(expr_ops@.subrange(c.ops.start as int, c.ops.end as int) =~= old_ops.subrange(
                            c.ops.start as int,
                            c.ops.end as int,
                        ));
                        assert(constants@.subrange(c.constants.start as int, c.constants.end as int)
                            =~= old_constants.subrange(c.constants.start as int, c.constants.end as int));
                    } else {
                        assert(expr_ops@.subrange(c.ops.start as int, c.ops.end as int) =~= all[i].ops@);
                        assert(constants@.subrange(c.constants.start as int, c.constants.end as int)
                            =~= all[i].constants@);
                    }
                }
                assert(rest@ =~= all.subrange(k + 1, n));
            }
            k = k + 1;
        }
        Program { ops, chunks: packed, expr_ops, constants, slots }
    }

    /// Borrows one expression from the packed arenas.
    pub fn chunk(&self, id: ChunkId) -> (r: Option<ExprChunkRef<'_>>)
        ensures
            match r {
                Some(c) => self.chunk_model(id as int) == Some(c.model()),
                None => self.chunk_model(id as int) is None,
            },
    {
        if id as usize >= self.chunks.len() {
            return None;
        }
        let chunk = &self.chunks[id as usize];
        let op_start = chunk.ops.start as usize;
        let op_end = chunk.ops.end as usize;
        let constant_start = chunk.constants.start as usize;
        let constant_end = chunk.constants.end as usize;
        if op_start > op_end || op_end > self.expr_ops.len() || constant_start > constant_end
            || constant_end > self.constants.len() {
            return None;
        }
        let ops = vstd::slice::slice_subrange(self.expr_ops.as_slice(), op_start, op_end);
        let constants = vstd::slice::slice_subrange(self.constants.as_slice(), constant_start, constant_end);
        Some(
            ExprChunkRef {
                ops,
                constants,
                registers: chunk.registers,
                result: chunk.result,
                line: chunk.line,
            },
        )
    }
}

} // verus!
