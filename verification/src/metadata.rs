//! Properties of a program computed once, before it runs: the source line of
//! each instruction, the data metrics of every constant the machine copies
//! without evaluating, and the built-in calls whose operands can be read
//! straight from constants and slots.

use crate::bytecode::{ExprOp, Register};
use crate::program::{ChunkId, Op, Program, ProgramChunk, UpdateOp};
use crate::value::{nesting, node_count, text_size, within_budget, Builtin, DataFootprint, DataMetrics, Datum, Value};
use std::ops::Range;
use vstd::prelude::*;

verus! {

/// One directly addressable operand of a quickened built-in call: a
/// position in the program-wide constant arena, or a frame slot.
#[derive(Debug, Clone, Copy, PartialEq, Eq, Structural)]
pub enum QuickenedOperand {
    Constant(u32),
    Slot(u32),
}

/// A built-in call whose operands were resolved before execution.
#[derive(Debug, Clone, PartialEq, Eq)]
pub struct QuickenedCall {
    pub function: Builtin,
    pub operands: Vec<QuickenedOperand>,
    pub line: u32,
}

/// Execution properties of one expression chunk.
#[derive(Debug, Clone, Copy, PartialEq, Eq, Structural)]
pub struct ChunkExecutionMetadata {
    /// Registers the chunk's frame needs.
    pub registers: Register,
    /// The chunk draws random numbers, so it writes the random-state slot.
    pub mutates_frame: bool,
    /// The chunk is a single slot load, so its result has the slot's metrics.
    pub inherits_slot_metrics: bool,
}

/// Execution properties of one program instruction.
#[derive(Debug, Clone, Copy, PartialEq, Eq, Structural)]
pub struct OpExecutionMetadata {
    /// Source line reported for the instruction; zero when it has none.
    pub line: u32,
}

/// Precomputed properties of a program, indexed by chunk and by instruction.
pub struct ExecutionMetadata {
    chunks: Vec<ChunkExecutionMetadata>,
    chunk_metrics: Vec<Option<DataMetrics>>,
    quickened: Vec<Option<QuickenedCall>>,
    ops: Vec<OpExecutionMetadata>,
    op_metrics: Vec<Option<DataMetrics>>,
    program_constant_metrics: Vec<DataMetrics>,
}

/// The metrics of a value within the data budget; `None` outside it.
pub open spec fn measured(d: Datum) -> Option<DataMetrics> {
    if within_budget(d) {
        Some(
            DataMetrics {
                footprint: DataFootprint { values: node_count(d) as usize, text_bytes: text_size(d) as usize },
                max_depth: nesting(d) as usize,
            },
        )
    } else {
        None
    }
}

/// The line the machine reports for an instruction: the line of the chunk
/// it evaluates for assignments, conditions and value-carrying updates, its
/// own line otherwise, and zero for jumps and `Halt`.
pub open spec fn op_line(chunks: Seq<ProgramChunk>, op: Op) -> u32 {
    match op {
        Op::SetSlot { value, .. }
        | Op::Update { operation: UpdateOp::Add { rhs: value }, .. }
        | Op::Update { operation: UpdateOp::Push { value }, .. }
        | Op::JumpIfFalse { condition: value, .. }
        | Op::JumpIfIntegerCompare { condition: value, .. } => if (value as int) < chunks.len() {
            chunks[value as int].line
        } else {
            0
        },
        Op::SetConst { line, .. } | Op::CopySlot { line, .. } | Op::Update { line, .. } => line,
        Op::Host(host) => host.line,
        Op::Jump(_) | Op::Halt => 0,
    }
}

/// The metrics kept for an instruction: those of a `SetConst` constant.
pub open spec fn op_constant_model(op: Op) -> Option<DataMetrics> {
    match op {
        Op::SetConst { value, .. } => measured(value@),
        _ => None,
    }
}

/// The instructions of chunk `id`.
pub open spec fn chunk_ops(p: Program, id: int) -> Seq<ExprOp> {
    p.expr_ops@.subrange(p.chunks@[id].ops.start as int, p.chunks@[id].ops.end as int)
}

/// The execution properties of chunk `id`.
pub open spec fn chunk_metadata_model(p: Program, id: int) -> ChunkExecutionMetadata {
    let ops = chunk_ops(p, id);
    ChunkExecutionMetadata {
        registers: p.chunks@[id].registers,
        mutates_frame: exists|i: int| 0 <= i < ops.len() && (#[trigger] ops[i] is Random || ops[i] is Chance),
        inherits_slot_metrics: ops.len() == 1 && ops[0] is Load,
    }
}

/// The metrics of the constant a single-constant chunk copies.
pub open spec fn chunk_constant_model(p: Program, id: int) -> Option<DataMetrics> {
    let ops = chunk_ops(p, id);
    if ops.len() == 1 && ops[0] is Const {
        let index = p.chunks@[id].constants.start + ops[0]->Const_constant;
        if index <= u32::MAX && index < p.constants@.len() {
            measured(p.constants@[index]@)
        } else {
            None
        }
    } else {
        None
    }
}

/// The operand of a call that instruction `op` provides in register
/// `register`, when it is a plain constant or slot load.
pub open spec fn operand_model(op: ExprOp, register: int, constants_start: nat) -> Option<QuickenedOperand> {
    match op {
        ExprOp::Const { dst, constant } => if dst == register && constants_start + constant <= u32::MAX {
            Some(QuickenedOperand::Constant((constants_start + constant) as u32))
        } else {
            None
        },
        ExprOp::Load { dst, slot, .. } => if dst == register {
            Some(QuickenedOperand::Slot(slot))
        } else {
            None
        },
        _ => None,
    }
}

/// A chunk quickens when it ends in a call whose result is the chunk's
/// result and every earlier instruction loads the next argument register,
/// in order, from a constant or a slot.
pub open spec fn quickened_model(p: Program, id: int) -> Option<(Builtin, Seq<QuickenedOperand>, u32)> {
    quickened_of(p.chunks@[id], chunk_ops(p, id))
}

/// What the metadata of a program needs: every chunk's ranges fit the
/// arenas and every constant fits the data budget.
pub open spec fn metadata_ready(p: Program) -> bool {
    &&& p.chunks@.len() <= u32::MAX
    &&& forall|id: int| 0 <= id < p.chunks@.len() ==> (#[trigger] p.chunk_model(id)) is Some
    &&& forall|i: int| 0 <= i < p.constants@.len() ==> within_budget(#[trigger] p.constants@[i]@)
}

fn measure(value: &Value) -> (r: Option<DataMetrics>)
    ensures
        r == measured(value@),
{
    match value.data_metrics() {
        Ok(m) => Some(m),
        Err(_) => None,
    }
}

fn op_line_of(program: &Program, op: &Op) -> (r: u32)
    ensures
        r == op_line(program.chunks@, *op),
{
    match op {
        Op::SetSlot { value, .. }
        | Op::Update { operation: UpdateOp::Add { rhs: value }, .. }
        | Op::Update { operation: UpdateOp::Push { value }, .. }
        | Op::JumpIfFalse { condition: value, .. }
        | Op::JumpIfIntegerCompare { condition: value, .. } => if (*value as usize) < program.chunks.len() {
            program.chunks[*value as usize].line
        } else {
            0
        },
        Op::SetConst { line, .. } | Op::CopySlot { line, .. } | Op::Update { line, .. } => *line,
        Op::Host(host) => host.line,
        Op::Jump(_) | Op::Halt => 0,
    }
}

fn quicken_operand(op: &ExprOp, register: u32, constants_start: u32) -> (r: Option<QuickenedOperand>)
    ensures
        r == operand_model(*op, register as int, constants_start as nat),
{
    match op {
        ExprOp::Const { dst, constant } => {
            if *dst as u32 == register {
                match constants_start.checked_add(*constant) {
                    Some(index) => Some(QuickenedOperand::Constant(index)),
                    None => None,
                }
            } else {
                None
            }
        },
        ExprOp::Load { dst, slot, .. } => {
            if *dst as u32 == register {
                Some(QuickenedOperand::Slot(*slot))
            } else {
                None
            }
        },
        _ => None,
    }
}

fn quicken_call(chunk: &ProgramChunk, ops: &[ExprOp]) -> (r: Option<QuickenedCall>)
    ensures
        match r {
            Some(q) => quickened_of(*chunk, ops@) == Some((q.function, q.operands@, q.line)),
            None => quickened_of(*chunk, ops@) is None,
        },
{
    let n = ops.len();
    if n == 0 {
        return None;
    }
    assert(ops@.last() == ops@[n - 1]);
    let (dst, function, start, end) = match &ops[n - 1] {
        ExprOp::Call { dst, function, args } => (*dst, *function, args.start, args.end),
        _ => {
            return None;
        },
    };
    if dst != chunk.result || start > end || (end - start) as usize != n - 1 {
        return None;
    }
    let mut operands: Vec<QuickenedOperand> = Vec::new();
    let mut i: usize = 0;
    while i < n - 1
        invariant
            n == ops@.len(),
            n > 0,
            ops@.last() == (ExprOp::Call { dst, function, args: Range { start, end } }),
            dst == chunk.result,
            start <= end,
            (end - start) as int == n - 1,
            i <= n - 1,
            operands@.len() == i,
            forall|j: int|
                0 <= j < i ==> #[trigger] operand_model(ops@[j], start + j, chunk.constants.start as nat) == Some(
                    operands@[j],
                ),
        decreases n - 1 - i,
    {
        match quicken_operand(&ops[i], start as u32 + i as u32, chunk.constants.start) {
            Some(operand) => {
                operands.push(operand);
            },
            None => {
                proof {
                    let k = i as int;
                    assert(operand_model(ops@[k], start + k, chunk.constants.start as nat) is None);
                    assert(ops@.last() == ops@[n - 1]);
                    assert(!(forall|j: int|
                        0 <= j < n - 1 ==> #[trigger] operand_model(ops@[j], start + j, chunk.constants.start as nat) is Some));
                }
                return None;
            },
        }
        i = i + 1;
    }
    let ghost model = Seq::new(
        (n - 1) as nat,
        |j: int| operand_model(ops@[j], start + j, chunk.constants.start as nat)->0,
    );
    assert(operands@ =~= model);
    Some(QuickenedCall { function, operands, line: chunk.line })
}

/// The quickened call of a chunk with instructions `ops`.
pub open spec fn quickened_of(c: ProgramChunk, ops: Seq<ExprOp>) -> Option<(Builtin, Seq<QuickenedOperand>, u32)> {
    if ops.len() == 0 {
        None
    } else {
        match ops.last() {
            ExprOp::Call { dst, function, args } => {
                let n = ops.len() - 1;
                if dst == c.result && args.start <= args.end && args.end - args.start == n && forall|i: int|
                    0 <= i < n ==> #[trigger] operand_model(ops[i], args.start + i, c.constants.start as nat) is Some {
                    Some(
                        (
                            function,
                            Seq::new(
                                n as nat,
                                |i: int| operand_model(ops[i], args.start + i, c.constants.start as nat)->0,
                            ),
                            c.line,
                        ),
                    )
                } else {
                    None
                }
            },
            _ => None,
        }
    }
}



fn arena_metrics(program: &Program) -> (r: Vec<DataMetrics>)
    requires
        metadata_ready(*program),
    ensures
        r@.len() == program.constants@.len(),
        forall|i: int| 0 <= i < program.constants@.len() ==> Some(#[trigger] r@[i]) == measured(program.constants@[i]@),
{
    let mut out: Vec<DataMetrics> = Vec::new();
    let mut k: usize = 0;
    while k < program.constants.len()
        invariant
            metadata_ready(*program),
            k <= program.constants@.len(),
            out@.len() == k,
            forall|i: int| 0 <= i < k ==> Some(#[trigger] out@[i]) == measured(program.constants@[i]@),
        decreases program.constants@.len() - k,
    {
        assert(within_budget(program.constants@[k as int]@));
        match measure(&program.constants[k]) {
            Some(m) => out.push(m),
            None => {
                assert(false);
            },
        }
        k = k + 1;
    }
    out
}

fn draws_random(ops: &[ExprOp]) -> (r: bool)
    ensures
        r == exists|i: int| 0 <= i < ops@.len() && (#[trigger] ops@[i] is Random || ops@[i] is Chance),
{
    let mut i: usize = 0;
    while i < ops.len()
        invariant
            i <= ops@.len(),
            forall|j: int| 0 <= j < i ==> !(#[trigger] ops@[j] is Random || ops@[j] is Chance),
        decreases ops@.len() - i,
    {
        match &ops[i] {
            ExprOp::Random { .. } | ExprOp::Chance { .. } => {
                return true;
            },
            _ => {},
        }
        i = i + 1;
    }
    false
}

fn single_constant_metrics(info: &ProgramChunk, ops: &[ExprOp], arena: &Vec<DataMetrics>, constants: Ghost<Seq<Value>>) -> (r: Option<DataMetrics>)
    requires
        arena@.len() == constants@.len(),
        forall|i: int| 0 <= i < constants@.len() ==> Some(#[trigger] arena@[i]) == measured(constants@[i]@),
    ensures
        r == (if ops@.len() == 1 && ops@[0] is Const {
            let index = info.constants.start + ops@[0]->Const_constant;
            if index <= u32::MAX && index < constants@.len() {
                measured(constants@[index]@)
            } else {
                None
            }
        } else {
            None
        }),
{
    if ops.len() == 1 {
        match &ops[0] {
            ExprOp::Const { constant, .. } => match info.constants.start.checked_add(*constant) {
                Some(index) => if (index as usize) < arena.len() {
                    Some(arena[index as usize])
                } else {
                    None
                },
                None => None,
            },
            _ => None,
        }
    } else {
        None
    }
}

fn chunk_metadata(program: &Program, arena: &Vec<DataMetrics>) -> (r: (
    Vec<ChunkExecutionMetadata>,
    Vec<Option<DataMetrics>>,
    Vec<Option<QuickenedCall>>,
))
    requires
        metadata_ready(*program),
        arena@.len() == program.constants@.len(),
        forall|i: int| 0 <= i < program.constants@.len() ==> Some(#[trigger] arena@[i]) == measured(program.constants@[i]@),
    ensures
        r.0@.len() == program.chunks@.len(),
        r.1@.len() == program.chunks@.len(),
        r.2@.len() == program.chunks@.len(),
        forall|j: int|
            0 <= j < program.chunks@.len() ==> {
                &&& #[trigger] r.0@[j] == chunk_metadata_model(*program, j)
                &&& r.1@[j] == chunk_constant_model(*program, j)
                &&& call_view(r.2@[j]) == quickened_model(*program, j)
            },
{
    let mut chunks: Vec<ChunkExecutionMetadata> = Vec::new();
    let mut chunk_metrics: Vec<Option<DataMetrics>> = Vec::new();
    let mut quickened: Vec<Option<QuickenedCall>> = Vec::new();
    let count = program.chunks.len();
    let mut id: usize = 0;
    while id < count
        invariant
            metadata_ready(*program),
            count == program.chunks@.len(),
            arena@.len() == program.constants@.len(),
            forall|i: int| 0 <= i < program.constants@.len() ==> Some(#[trigger] arena@[i]) == measured(program.constants@[i]@),
            id <= count,
            chunks@.len() == id,
            chunk_metrics@.len() == id,
            quickened@.len() == id,
            forall|j: int|
                0 <= j < id ==> {
                    &&& #[trigger] chunks@[j] == chunk_metadata_model(*program, j)
                    &&& chunk_metrics@[j] == chunk_constant_model(*program, j)
                    &&& call_view(quickened@[j]) == quickened_model(*program, j)
                },
        decreases count - id,
    {
        assert(program.chunk_model(id as int) is Some);
        let chunk = match program.chunk(id as u32) {
            Some(chunk) => chunk,
            None => {
                assert(false);
                return (chunks, chunk_metrics, quickened);
            },
        };
        assert(chunk.ops@ == chunk_ops(*program, id as int));
        let info = &program.chunks[id];
        let mutates_frame = draws_random(chunk.ops);
        let inherits_slot_metrics = chunk.ops.len() == 1 && matches!(chunk.ops[0], ExprOp::Load { .. });
        let metrics = single_constant_metrics(info, chunk.ops, arena, Ghost(program.constants@));
        let call = quicken_call(info, chunk.ops);
        chunks.push(ChunkExecutionMetadata { registers: info.registers, mutates_frame, inherits_slot_metrics });
        chunk_metrics.push(metrics);
        quickened.push(call);
        id = id + 1;
    }
    (chunks, chunk_metrics, quickened)
}

fn op_metadata(program: &Program) -> (r: (Vec<OpExecutionMetadata>, Vec<Option<DataMetrics>>))
    ensures
        r.0@.len() == program.ops@.len(),
        r.1@.len() == program.ops@.len(),
        forall|j: int|
            0 <= j < program.ops@.len() ==> {
                &&& #[trigger] r.0@[j] == OpExecutionMetadata { line: op_line(program.chunks@, program.ops@[j]) }
                &&& r.1@[j] == op_constant_model(program.ops@[j])
            },
{
    let mut ops: Vec<OpExecutionMetadata> = Vec::new();
    let mut op_metrics: Vec<Option<DataMetrics>> = Vec::new();
    let mut pc: usize = 0;
    while pc < program.ops.len()
        invariant
            pc <= program.ops@.len(),
            ops@.len() == pc,
            op_metrics@.len() == pc,
            forall|j: int|
                0 <= j < pc ==> {
                    &&& #[trigger] ops@[j] == OpExecutionMetadata { line: op_line(program.chunks@, program.ops@[j]) }
                    &&& op_metrics@[j] == op_constant_model(program.ops@[j])
                },
        decreases program.ops@.len() - pc,
    {
        let op = &program.ops[pc];
        let metrics = match op {
            Op::SetConst { value, .. } => measure(value),
            _ => None,
        };
        let line = op_line_of(program, op);
        let ghost before_ops = ops@;
        let ghost before_metrics = op_metrics@;
        ops.push(OpExecutionMetadata { line });
        op_metrics.push(metrics);
        assert forall|j: int| 0 <= j < pc + 1 implies {
            &&& #[trigger] ops@[j] == OpExecutionMetadata { line: op_line(program.chunks@, program.ops@[j]) }
            &&& op_metrics@[j] == op_constant_model(program.ops@[j])
        } by {
            if j < pc {
                assert(ops@[j] == before_ops[j]);
                assert(op_metrics@[j] == before_metrics[j]);
            }
        }
        pc = pc + 1;
    }
    (ops, op_metrics)
}

/// The view of a quickened call: its function, operands and line.
pub open spec fn call_view(q: Option<QuickenedCall>) -> Option<(Builtin, Seq<QuickenedOperand>, u32)> {
    match q {
        Some(c) => Some((c.function, c.operands@, c.line)),
        None => None,
    }
}

impl ExecutionMetadata {
    /// Properties of each chunk.
    pub closed spec fn chunk_view(&self) -> Seq<ChunkExecutionMetadata> {
        self.chunks@
    }

    /// Metrics of the constant each chunk copies, if it is a single constant.
    pub closed spec fn chunk_metrics_view(&self) -> Seq<Option<DataMetrics>> {
        self.chunk_metrics@
    }

    /// The quickened call of each chunk.
    pub closed spec fn quickened_view(&self) -> Seq<Option<(Builtin, Seq<QuickenedOperand>, u32)>> {
        Seq::new(self.quickened@.len(), |i: int| call_view(self.quickened@[i]))
    }

    /// Properties of each instruction.
    pub closed spec fn op_view(&self) -> Seq<OpExecutionMetadata> {
        self.ops@
    }

    /// Metrics of each instruction's `SetConst` constant.
    pub closed spec fn op_metrics_view(&self) -> Seq<Option<DataMetrics>> {
        self.op_metrics@
    }

    /// Metrics of every constant of the program-wide arena.
    pub closed spec fn constant_metrics_view(&self) -> Seq<DataMetrics> {
        self.program_constant_metrics@
    }

    /// The metadata is that of `p`.
    pub open spec fn describes(&self, p: Program) -> bool {
        &&& self.chunk_view().len() == p.chunks@.len()
        &&& self.chunk_metrics_view().len() == p.chunks@.len()
        &&& self.quickened_view().len() == p.chunks@.len()
        &&& forall|id: int|
            0 <= id < p.chunks@.len() ==> {
                &&& #[trigger] self.chunk_view()[id] == chunk_metadata_model(p, id)
                &&& self.chunk_metrics_view()[id] == chunk_constant_model(p, id)
                &&& self.quickened_view()[id] == quickened_model(p, id)
            }
        &&& self.op_view().len() == p.ops@.len()
        &&& self.op_metrics_view().len() == p.ops@.len()
        &&& forall|pc: int|
            0 <= pc < p.ops@.len() ==> {
                &&& #[trigger] self.op_view()[pc] == OpExecutionMetadata { line: op_line(p.chunks@, p.ops@[pc]) }
                &&& self.op_metrics_view()[pc] == op_constant_model(p.ops@[pc])
            }
        &&& self.constant_metrics_view().len() == p.constants@.len()
        &&& forall|i: int|
            0 <= i < p.constants@.len() ==> Some(#[trigger] self.constant_metrics_view()[i]) == measured(
                p.constants@[i]@,
            )
    }

    /// Computes the metadata of a program whose chunks fit its arenas and
    /// whose constants fit the data budget.
    pub fn new(program: &Program) -> (r: ExecutionMetadata)
        requires
            metadata_ready(*program),
        ensures
            r.describes(*program),
    {
        let program_constant_metrics = arena_metrics(program);
        let (chunks, chunk_metrics, quickened) = chunk_metadata(program, &program_constant_metrics);
        let (ops, op_metrics) = op_metadata(program);
        let r = ExecutionMetadata { chunks, chunk_metrics, quickened, ops, op_metrics, program_constant_metrics };
        assert forall|id: int| 0 <= id < program.chunks@.len() implies #[trigger] r.quickened_view()[id]
            == quickened_model(*program, id) by {
            assert(r.chunks@[id] == chunk_metadata_model(*program, id));
            assert(r.quickened_view()[id] == call_view(r.quickened@[id]));
        }
        r
    }

    #[verifier::type_invariant]
    spec fn lengths_agree(self) -> bool {
        &&& self.chunk_metrics@.len() == self.chunks@.len()
        &&& self.quickened@.len() == self.chunks@.len()
        &&& self.op_metrics@.len() == self.ops@.len()
    }

    /// Properties of chunk `id`.
    pub fn chunk(&self, id: ChunkId) -> (r: Option<ChunkExecutionMetadata>)
        ensures
            r == (if (id as int) < self.chunk_view().len() {
                Some(self.chunk_view()[id as int])
            } else {
                None
            }),
    {
        if (id as usize) < self.chunks.len() {
            Some(self.chunks[id as usize])
        } else {
            None
        }
    }

    /// Metrics of the constant chunk `id` copies, when it is a single constant.
    pub fn chunk_constant_metrics(&self, id: ChunkId) -> (r: Option<DataMetrics>)
        ensures
            r == (if (id as int) < self.chunk_metrics_view().len() {
                self.chunk_metrics_view()[id as int]
            } else {
                None
            }),
    {
        if (id as usize) < self.chunk_metrics.len() {
            self.chunk_metrics[id as usize]
        } else {
            None
        }
    }

    /// Properties of chunk `id` together with the metrics of the constant it
    /// copies.
    pub fn chunk_with_constant_metrics(&self, id: ChunkId) -> (r: Option<(ChunkExecutionMetadata, Option<DataMetrics>)>)
        ensures
            r == (if (id as int) < self.chunk_view().len() {
                Some((self.chunk_view()[id as int], self.chunk_metrics_view()[id as int]))
            } else {
                None
            }),
    {
        proof {
            use_type_invariant(self);
        }
        if (id as usize) < self.chunks.len() {
            Some((self.chunks[id as usize], self.chunk_metrics[id as usize]))
        } else {
            None
        }
    }

    /// Properties, constant metrics and quickened call of chunk `id`.
    pub fn chunk_plan(&self, id: ChunkId) -> (r: Option<(ChunkExecutionMetadata, Option<DataMetrics>, Option<&QuickenedCall>)>)
        ensures
            match r {
                Some((c, m, q)) => (id as int) < self.chunk_view().len() && c == self.chunk_view()[id as int] && m
                    == self.chunk_metrics_view()[id as int] && match q {
                    Some(call) => self.quickened_view()[id as int] == Some((call.function, call.operands@, call.line)),
                    None => self.quickened_view()[id as int] is None,
                },
                None => (id as int) >= self.chunk_view().len(),
            },
    {
        proof {
            use_type_invariant(self);
        }
        if (id as usize) < self.chunks.len() {
            let call = match &self.quickened[id as usize] {
                Some(q) => Some(q),
                None => None,
            };
            Some((self.chunks[id as usize], self.chunk_metrics[id as usize], call))
        } else {
            None
        }
    }

    /// The quickened built-in call of chunk `id`, when it has one.
    pub fn quickened_call(&self, id: ChunkId) -> (r: Option<&QuickenedCall>)
        ensures
            match r {
                Some(q) => (id as int) < self.quickened_view().len() && self.quickened_view()[id as int] == Some(
                    (q.function, q.operands@, q.line),
                ),
                None => (id as int) >= self.quickened_view().len() || self.quickened_view()[id as int] is None,
            },
    {
        if (id as usize) < self.quickened.len() {
            match &self.quickened[id as usize] {
                Some(q) => Some(q),
                None => None,
            }
        } else {
            None
        }
    }

    /// Metrics of every constant of the program-wide arena.
    pub fn program_constant_metrics(&self) -> (r: &[DataMetrics])
        ensures
            r@ == self.constant_metrics_view(),
    {
        self.program_constant_metrics.as_slice()
    }

    /// Properties of instruction `pc`.
    pub fn op(&self, pc: usize) -> (r: Option<OpExecutionMetadata>)
        ensures
            r == (if pc < self.op_view().len() {
                Some(self.op_view()[pc as int])
            } else {
                None
            }),
    {
        if pc < self.ops.len() {
            Some(self.ops[pc])
        } else {
            None
        }
    }

    /// Metrics of the constant instruction `pc` stores, when it is a `SetConst`.
    pub fn op_constant_metrics(&self, pc: usize) -> (r: Option<DataMetrics>)
        ensures
            r == (if pc < self.op_metrics_view().len() {
                self.op_metrics_view()[pc as int]
            } else {
                None
            }),
    {
        if pc < self.op_metrics.len() {
            self.op_metrics[pc]
        } else {
            None
        }
    }
}

} // verus!
