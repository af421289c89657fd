//! A conservative typed block IR over a program's control-flow
//! instructions: stable block identities, SSA value numbers for assignments,
//! and reachability from the entry block.

use crate::cfg::{distinct, edge_lists, list_views, op_target, reaches, reachable_blocks, is_branch};
use crate::program::{Op, Program};
use crate::value::{BinaryOp, Datum, UnaryOp, Value};
use vstd::prelude::*;

verus! {

/// The runtime type domain carried by an IR value.
#[derive(Debug, Clone, Copy, PartialEq, Eq, Structural)]
pub enum IrType {
    Unknown,
    Integer,
    Boolean,
    String,
    Compound,
}

/// A monotonic SSA value identity.
#[derive(Debug, Clone, Copy, PartialEq, Eq, PartialOrd, Ord, Hash, Structural)]
pub struct IrValue(pub u32);

/// One typed operation in a basic block.
#[derive(Debug, PartialEq, Eq)]
pub enum IrOp {
    Constant { dst: IrValue, value: Value, value_type: IrType },
    Slot { dst: IrValue, slot: u32, value_type: IrType },
    Unary { dst: IrValue, op: UnaryOp, source: IrValue, value_type: IrType },
    Binary { dst: IrValue, left: IrValue, op: BinaryOp, right: IrValue, value_type: IrType },
    Assign { slot: u32, value: IrValue },
    Barrier,
}

/// The model of an IR operation: constants by their model.
pub enum IrOpModel {
    Constant { dst: IrValue, value: Datum, value_type: IrType },
    Slot { dst: IrValue, slot: u32, value_type: IrType },
    Unary { dst: IrValue, op: UnaryOp, source: IrValue, value_type: IrType },
    Binary { dst: IrValue, left: IrValue, op: BinaryOp, right: IrValue, value_type: IrType },
    Assign { slot: u32, value: IrValue },
    Barrier,
}

impl IrOp {
    pub open spec fn model(&self) -> IrOpModel {
        match *self {
            IrOp::Constant { dst, value, value_type } => IrOpModel::Constant { dst, value: value@, value_type },
            IrOp::Slot { dst, slot, value_type } => IrOpModel::Slot { dst, slot, value_type },
            IrOp::Unary { dst, op, source, value_type } => IrOpModel::Unary { dst, op, source, value_type },
            IrOp::Binary { dst, left, op, right, value_type } => IrOpModel::Binary { dst, left, op, right, value_type },
            IrOp::Assign { slot, value } => IrOpModel::Assign { slot, value },
            IrOp::Barrier => IrOpModel::Barrier,
        }
    }
}

pub open spec fn op_models(ops: Seq<IrOp>) -> Seq<IrOpModel> {
    Seq::new(ops.len(), |i: int| ops[i].model())
}

/// Control-flow edge at the end of a basic block.
#[derive(Debug, Clone, Copy, PartialEq, Eq, Structural)]
pub enum IrTerminator {
    Fallthrough(u32),
    Jump(u32),
    Branch { condition: IrValue, if_true: u32, if_false: u32 },
    Halt,
}

/// One basic block with stable source program-counter boundaries.
#[derive(Debug)]
pub struct IrBlock {
    pub id: u32,
    pub start_pc: u32,
    pub operations: Vec<IrOp>,
    pub terminator: IrTerminator,
    pub reachable: bool,
}

/// A conservative typed SSA-style view of a program.
#[derive(Debug)]
pub struct TypedIr {
    blocks: Vec<IrBlock>,
    entry: u32,
    next_value: u32,
}

// ---------------------------------------------------------------------------
// Block boundaries
// ---------------------------------------------------------------------------

/// Instruction `x` starts an IR block: it is the entry, a branch target or
/// the instruction after a branch.
pub open spec fn is_boundary(ops: Seq<Op>, x: int) -> bool {
    &&& 0 <= x < ops.len()
    &&& {
        ||| x == 0
        ||| exists|q: int| 0 <= q < ops.len() && #[trigger] op_target(ops[q]) == Some(x as nat)
        ||| (0 < x && is_branch(ops[x - 1]))
    }
}

/// Instruction `x` is marked because of one of the first `k` instructions.
pub open spec fn boundary_by(ops: Seq<Op>, k: int, x: int) -> bool {
    ||| x == 0
    ||| exists|q: int| 0 <= q < k && #[trigger] op_target(ops[q]) == Some(x as nat)
    ||| (0 < x <= k && is_branch(ops[x - 1]))
}

fn mark(marks: &mut Vec<bool>, x: u64)
    ensures
        final(marks)@ == (if (x as int) < old(marks)@.len() {
            old(marks)@.update(x as int, true)
        } else {
            old(marks)@
        }),
{
    if x < marks.len() as u64 {
        marks.set(x as usize, true);
    }
}

/// Which instructions start an IR block.
fn boundary_marks(ops: &Vec<Op>) -> (r: Vec<bool>)
    requires
        ops@.len() > 0,
        ops@.len() <= u32::MAX,
    ensures
        r@.len() == ops@.len(),
        forall|x: int| 0 <= x < ops@.len() ==> (#[trigger] r@[x] <==> is_boundary(ops@, x)),
{
    let n = ops.len();
    let mut marks: Vec<bool> = Vec::new();
    let mut i: usize = 0;
    while i < n
        invariant
            n == ops@.len(),
            i <= n,
            marks@.len() == i,
            forall|x: int| 0 <= x < i ==> marks@[x] == (x == 0),
        decreases n - i,
    {
        marks.push(i == 0);
        i = i + 1;
    }
    let mut pc: usize = 0;
    while pc < n
        invariant
            n == ops@.len(),
            n <= u32::MAX,
            pc <= n,
            marks@.len() == n,
            forall|x: int| 0 <= x < n ==> (#[trigger] marks@[x] <==> boundary_by(ops@, pc as int, x)),
        decreases n - pc,
    {
        match &ops[pc] {
            Op::Jump(target) | Op::JumpIfFalse { target, .. } | Op::JumpIfIntegerCompare { target, .. } => {
                mark(&mut marks, *target as u64);
                mark(&mut marks, pc as u64 + 1);
            },
            _ => {},
        }
        proof {
            assert forall|x: int| 0 <= x < n implies (#[trigger] marks@[x] <==> boundary_by(ops@, pc + 1, x)) by {
                if boundary_by(ops@, pc as int, x) {
                    if exists|q: int| 0 <= q < pc && #[trigger] op_target(ops@[q]) == Some(x as nat) {
                        let q = choose|q: int| 0 <= q < pc && #[trigger] op_target(ops@[q]) == Some(x as nat);
                        assert(0 <= q < pc + 1 && op_target(ops@[q]) == Some(x as nat));
                    }
                }
                if op_target(ops@[pc as int]) == Some(x as nat) {
                    assert(0 <= pc < pc + 1 && op_target(ops@[pc as int]) == Some(x as nat));
                }
                if boundary_by(ops@, pc + 1, x) && !boundary_by(ops@, pc as int, x) {
                    if exists|q: int| 0 <= q < pc + 1 && #[trigger] op_target(ops@[q]) == Some(x as nat) {
                        let q = choose|q: int| 0 <= q < pc + 1 && #[trigger] op_target(ops@[q]) == Some(x as nat);
                        assert(q == pc);
                    }
                }
            }
        }
        pc = pc + 1;
    }
    proof {
        assert forall|x: int| 0 <= x < n implies (#[trigger] marks@[x] <==> is_boundary(ops@, x)) by {
            if is_boundary(ops@, x) {
                if exists|q: int| 0 <= q < ops@.len() && #[trigger] op_target(ops@[q]) == Some(x as nat) {
                    let q = choose|q: int| 0 <= q < ops@.len() && #[trigger] op_target(ops@[q]) == Some(x as nat);
                    assert(0 <= q < n && op_target(ops@[q]) == Some(x as nat));
                }
            }
            if boundary_by(ops@, n as int, x) {
                if exists|q: int| 0 <= q < n && #[trigger] op_target(ops@[q]) == Some(x as nat) {
                    let q = choose|q: int| 0 <= q < n && #[trigger] op_target(ops@[q]) == Some(x as nat);
                    assert(0 <= q < ops@.len() && op_target(ops@[q]) == Some(x as nat));
                }
            }
        }
    }
    marks
}

/// `starts` lists, in increasing order, exactly the marked positions.
pub open spec fn lists_marks(starts: Seq<u32>, marks: Seq<bool>) -> bool {
    &&& forall|i: int, j: int| 0 <= i < j < starts.len() ==> #[trigger] starts[i] < #[trigger] starts[j]
    &&& forall|i: int| 0 <= i < starts.len() ==> #[trigger] starts[i] < marks.len() && marks[starts[i] as int]
    &&& forall|y: int| 0 <= y < marks.len() && #[trigger] marks[y] ==> exists|i: int| 0 <= i < starts.len() && starts[i] == y
}

fn marked_positions(marks: &Vec<bool>) -> (r: Vec<u32>)
    requires
        marks@.len() <= u32::MAX,
    ensures
        lists_marks(r@, marks@),
{
    let n = marks.len();
    let mut starts: Vec<u32> = Vec::new();
    let mut x: usize = 0;
    while x < n
        invariant
            n == marks@.len(),
            n <= u32::MAX,
            x <= n,
            forall|i: int, j: int| 0 <= i < j < starts@.len() ==> #[trigger] starts@[i] < #[trigger] starts@[j],
            forall|i: int| 0 <= i < starts@.len() ==> #[trigger] starts@[i] < x && marks@[starts@[i] as int],
            forall|y: int| 0 <= y < x && #[trigger] marks@[y] ==> exists|i: int| 0 <= i < starts@.len() && starts@[i] == y,
        decreases n - x,
    {
        let ghost before = starts@;
        if marks[x] {
            starts.push(x as u32);
        }
        proof {
            assert forall|y: int| 0 <= y < x + 1 && #[trigger] marks@[y] implies exists|i: int|
                0 <= i < starts@.len() && starts@[i] == y by {
                if y < x {
                    let i = choose|i: int| 0 <= i < before.len() && before[i] == y;
                    assert(starts@[i] == y);
                } else {
                    assert(starts@[starts@.len() - 1] == y);
                }
            }
        }
        x = x + 1;
    }
    starts
}


/// The end of the block starting at `starts[i]`.
pub open spec fn end_of(starts: Seq<u32>, n: nat, i: int) -> nat {
    if i + 1 < starts.len() {
        starts[i + 1] as nat
    } else {
        n
    }
}

/// The block holding instruction `pc`.
pub open spec fn block_at(starts: Seq<u32>, n: nat, pc: int) -> int {
    choose|i: int| 0 <= i < starts.len() && starts[i] <= pc < #[trigger] end_of(starts, n, i)
}

proof fn lemma_block_at(starts: Seq<u32>, marks: Seq<bool>, pc: int, i: int)
    requires
        lists_marks(starts, marks),
        0 <= i < starts.len(),
        end_of(starts, marks.len(), i) <= marks.len(),
        starts[i] <= pc < end_of(starts, marks.len(), i),
    ensures
        block_at(starts, marks.len(), pc) == i,
{
    let n = marks.len();
    let c = block_at(starts, n, pc);
    assert(0 <= c < starts.len() && starts[c] <= pc < end_of(starts, n, c));
    if c < i {
        assert(c + 1 < starts.len());
        if c + 1 < i {
            assert(starts[c + 1] < starts[i]);
        }
    } else if c > i {
        assert(i + 1 < starts.len());
        if i + 1 < c {
            assert(starts[i + 1] < starts[c]);
        }
    }
}

proof fn lemma_block_exists(starts: Seq<u32>, marks: Seq<bool>, pc: int)
    requires
        lists_marks(starts, marks),
        marks.len() > 0,
        marks[0],
        0 <= pc < marks.len(),
    ensures
        0 <= block_at(starts, marks.len(), pc) < starts.len(),
        starts[block_at(starts, marks.len(), pc)] <= pc < end_of(starts, marks.len(), block_at(starts, marks.len(), pc)),
{
    let n = marks.len();
    let zero = choose|i: int| 0 <= i < starts.len() && starts[i] == 0;
    assert(starts.len() > 0);
    // the last start not after pc
    lemma_last_start(starts, marks, pc, starts.len() as int - 1);
}

proof fn lemma_last_start(starts: Seq<u32>, marks: Seq<bool>, pc: int, k: int)
    requires
        lists_marks(starts, marks),
        marks.len() > 0,
        marks[0],
        0 <= pc < marks.len(),
        0 <= k < starts.len(),
        pc < end_of(starts, marks.len(), k),
    ensures
        0 <= block_at(starts, marks.len(), pc) < starts.len(),
        starts[block_at(starts, marks.len(), pc)] <= pc < end_of(starts, marks.len(), block_at(starts, marks.len(), pc)),
    decreases k,
{
    let n = marks.len();
    if starts[k] <= pc {
        assert(0 <= k < starts.len() && starts[k] <= pc < end_of(starts, n, k));
    } else {
        if k == 0 {
            let zero = choose|i: int| 0 <= i < starts.len() && starts[i] == 0;
            if zero > 0 {
                assert(starts[0] < starts[zero]);
            }
            assert(false);
        } else {
            assert(end_of(starts, n, k - 1) == starts[k]);
            lemma_last_start(starts, marks, pc, k - 1);
        }
    }
}

proof fn lemma_starts_grow(starts: Seq<u32>, marks: Seq<bool>, i: int)
    requires
        lists_marks(starts, marks),
        0 <= i < starts.len(),
    ensures
        starts[i] >= i,
    decreases i,
{
    if i > 0 {
        lemma_starts_grow(starts, marks, i - 1);
        assert(starts[i - 1] < starts[i]);
    }
}

proof fn lemma_starts_count(starts: Seq<u32>, marks: Seq<bool>)
    requires
        lists_marks(starts, marks),
    ensures
        starts.len() <= marks.len(),
{
    if starts.len() > 0 {
        lemma_starts_grow(starts, marks, starts.len() - 1);
    }
}

proof fn lemma_ends(starts: Seq<u32>, marks: Seq<bool>, i: int)
    requires
        lists_marks(starts, marks),
        0 <= i < starts.len(),
    ensures
        starts[i] < end_of(starts, marks.len(), i) <= marks.len(),
{
}

/// For each instruction, the index of its block.
fn block_index(starts: &Vec<u32>, n: usize, ghost_marks: Ghost<Seq<bool>>) -> (r: Vec<u32>)
    requires
        lists_marks(starts@, ghost_marks@),
        ghost_marks@.len() == n,
        n > 0,
        n <= u32::MAX,
        ghost_marks@[0],
    ensures
        r@.len() == n,
        forall|pc: int| 0 <= pc < n ==> #[trigger] r@[pc] as int == block_at(starts@, n as nat, pc),
{
    let ghost marks = ghost_marks@;
    let count = starts.len();
    let mut index: Vec<u32> = Vec::new();
    let mut b: usize = 0;
    proof {
        let zero = choose|i: int| 0 <= i < starts@.len() && starts@[i] == 0;
        if zero > 0 {
            assert(starts@[0] < starts@[zero]);
        }
        lemma_starts_count(starts@, marks);
    }
    while b < count
        invariant
            count == starts@.len(),
            count <= n,
            count > 0,
            starts@[0] == 0,
            lists_marks(starts@, marks),
            marks.len() == n,
            n <= u32::MAX,
            b <= count,
            index@.len() == (if b == 0 { 0 } else { end_of(starts@, n as nat, b - 1) as int }),
            forall|pc: int|
                0 <= pc < index@.len() ==> #[trigger] index@[pc] < b && starts@[index@[pc] as int] <= pc
                    < end_of(starts@, n as nat, index@[pc] as int),
        decreases count - b,
    {
        let start = starts[b] as usize;
        let end = if b + 1 < count { starts[b + 1] as usize } else { n };
        proof {
            lemma_ends(starts@, marks, b as int);
        }
        let mut pc = start;
        while pc < end
            invariant
                start <= pc <= end,
                b < count,
                count <= n,
                n <= u32::MAX,
                count == starts@.len(),
                start == starts@[b as int],
                end == end_of(starts@, n as nat, b as int),
                index@.len() == pc,
                forall|q: int|
                    0 <= q < index@.len() ==> #[trigger] index@[q] <= b && starts@[index@[q] as int] <= q
                        < end_of(starts@, n as nat, index@[q] as int),
            decreases end - pc,
        {
            index.push(b as u32);
            pc = pc + 1;
        }
        b = b + 1;
    }
    proof {
        assert forall|pc: int| 0 <= pc < n implies #[trigger] index@[pc] as int == block_at(starts@, n as nat, pc) by {
            lemma_ends(starts@, marks, index@[pc] as int);
            lemma_block_at(starts@, marks, pc, index@[pc] as int);
        }
    }
    index
}


// ---------------------------------------------------------------------------
// Lowering
// ---------------------------------------------------------------------------

/// The instruction allocates an SSA value.
pub open spec fn produces_value(op: Op) -> bool {
    op is SetSlot || op is SetConst || op is CopySlot || op is Update
}

/// SSA values allocated by the first `k` instructions.
pub open spec fn values_before(ops: Seq<Op>, k: int) -> nat
    decreases k,
{
    if k <= 0 {
        0
    } else {
        values_before(ops, k - 1) + if produces_value(ops[k - 1]) {
            1nat
        } else {
            0nat
        }
    }
}

/// A count saturated to `u32`.
pub open spec fn saturate(n: nat) -> u32 {
    if n <= u32::MAX {
        n as u32
    } else {
        u32::MAX
    }
}

/// The IR type of a value.
pub open spec fn ir_type_of(d: Datum) -> IrType {
    match d {
        Datum::Integer(_) => IrType::Integer,
        Datum::Boolean(_) => IrType::Boolean,
        Datum::Text(_) => IrType::String,
        Datum::List(_) | Datum::Record(_) => IrType::Compound,
    }
}

/// The IR operations of one instruction whose first new value is number
/// `v`.
pub open spec fn lowered(op: Op, v: nat) -> Seq<IrOpModel> {
    let dst = IrValue(saturate(v));
    match op {
        Op::SetConst { slot, value, .. } => seq![
            IrOpModel::Constant { dst, value: value@, value_type: ir_type_of(value@) },
            IrOpModel::Assign { slot, value: dst },
        ],
        Op::CopySlot { slot, source, .. } => seq![
            IrOpModel::Slot { dst, slot: source, value_type: IrType::Unknown },
            IrOpModel::Assign { slot, value: dst },
        ],
        Op::SetSlot { slot, .. } | Op::Update { slot, .. } => seq![IrOpModel::Assign { slot, value: dst }],
        Op::Host(_) => seq![IrOpModel::Barrier],
        _ => Seq::empty(),
    }
}

/// The IR operations of instructions `a..b`.
pub open spec fn block_ops(ops: Seq<Op>, a: int, b: int) -> Seq<IrOpModel>
    decreases b - a,
{
    if b <= a {
        Seq::empty()
    } else {
        block_ops(ops, a, b - 1) + lowered(ops[b - 1], values_before(ops, b - 1))
    }
}

fn ir_type(value: &Value) -> (r: IrType)
    ensures
        r == ir_type_of(value@),
{
    match value {
        Value::Integer(_) => IrType::Integer,
        Value::Boolean(_) => IrType::Boolean,
        Value::String(_) => IrType::String,
        Value::List(_) | Value::Record(_) => IrType::Compound,
    }
}

fn new_value(next_value: &mut u32) -> (r: IrValue)
    ensures
        r == IrValue(*old(next_value)),
        *final(next_value) == saturate((*old(next_value) + 1) as nat),
{
    let value = IrValue(*next_value);
    *next_value = next_value.saturating_add(1);
    value
}

fn lower_op(op: &Op, operations: &mut Vec<IrOp>, next_value: &mut u32, ghost_before: Ghost<nat>)
    requires
        *old(next_value) == saturate(ghost_before@),
    ensures
        op_models(final(operations)@) == op_models(old(operations)@) + lowered(*op, ghost_before@),
        *final(next_value) == saturate(ghost_before@ + if produces_value(*op) {
            1nat
        } else {
            0nat
        }),
{
    let ghost start = op_models(operations@);
    match op {
        Op::SetConst { slot, value, .. } => {
            let dst = new_value(next_value);
            operations.push(IrOp::Constant { dst, value: value.duplicate(), value_type: ir_type(value) });
            operations.push(IrOp::Assign { slot: *slot, value: dst });
        },
        Op::CopySlot { slot, source, .. } => {
            let dst = new_value(next_value);
            operations.push(IrOp::Slot { dst, slot: *source, value_type: IrType::Unknown });
            operations.push(IrOp::Assign { slot: *slot, value: dst });
        },
        Op::SetSlot { slot, .. } | Op::Update { slot, .. } => {
            let dst = new_value(next_value);
            operations.push(IrOp::Assign { slot: *slot, value: dst });
        },
        Op::Host(_) => operations.push(IrOp::Barrier),
        _ => {},
    }
    assert(op_models(operations@) =~= start + lowered(*op, ghost_before@));
}

// ---------------------------------------------------------------------------
// Terminators and reachability
// ---------------------------------------------------------------------------

/// The block entered at instruction `pc`, or `u32::MAX` outside the program.
pub open spec fn block_id_at(starts: Seq<u32>, n: nat, pc: int) -> u32 {
    if 0 <= pc < n {
        block_at(starts, n, pc) as u32
    } else {
        u32::MAX
    }
}

/// How block `i` ends, from its last instruction.
pub open spec fn terminator_model(ops: Seq<Op>, starts: Seq<u32>, i: int) -> IrTerminator {
    let n = ops.len();
    let end = end_of(starts, n, i);
    let fallthrough = block_id_at(starts, n, end as int);
    match ops[end - 1] {
        Op::Jump(target) => IrTerminator::Jump(block_id_at(starts, n, target as int)),
        Op::JumpIfFalse { target, .. } | Op::JumpIfIntegerCompare { target, .. } => IrTerminator::Branch {
            condition: IrValue(
                if saturate(values_before(ops, end as int)) == 0 {
                    0
                } else {
                    (saturate(values_before(ops, end as int)) - 1) as u32
                },
            ),
            if_true: fallthrough,
            if_false: block_id_at(starts, n, target as int),
        },
        Op::Halt => IrTerminator::Halt,
        _ => if end >= n {
            IrTerminator::Halt
        } else {
            IrTerminator::Fallthrough(fallthrough)
        },
    }
}

/// The blocks a terminator may pass control to, within `nb` blocks.
pub open spec fn ir_edges(t: IrTerminator, nb: nat) -> Seq<usize> {
    match t {
        IrTerminator::Fallthrough(x) | IrTerminator::Jump(x) => if (x as nat) < nb {
            seq![x as usize]
        } else {
            Seq::empty()
        },
        IrTerminator::Branch { if_true, if_false, .. } => {
            let first: Seq<usize> = if (if_true as nat) < nb {
                seq![if_true as usize]
            } else {
                Seq::empty()
            };
            if (if_false as nat) < nb && !first.contains(if_false as usize) {
                first.push(if_false as usize)
            } else {
                first
            }
        },
        IrTerminator::Halt => Seq::empty(),
    }
}

pub open spec fn block_edges(blocks: Seq<IrBlock>) -> Seq<Seq<usize>> {
    Seq::new(blocks.len(), |i: int| ir_edges(blocks[i].terminator, blocks.len()))
}

fn edges_of(t: IrTerminator, nb: usize) -> (r: Vec<usize>)
    ensures
        r@ == ir_edges(t, nb as nat),
        distinct(r@),
        forall|k: int| 0 <= k < r@.len() ==> #[trigger] r@[k] < nb,
{
    let mut out: Vec<usize> = Vec::new();
    match t {
        IrTerminator::Fallthrough(x) | IrTerminator::Jump(x) => {
            if (x as usize) < nb {
                out.push(x as usize);
            }
        },
        IrTerminator::Branch { if_true, if_false, .. } => {
            if (if_true as usize) < nb {
                out.push(if_true as usize);
            }
            let ghost first = out@;
            if (if_false as usize) < nb && !(out.len() == 1 && out[0] == if_false as usize) {
                out.push(if_false as usize);
            }
            proof {
                if first.contains(if_false as usize) {
                    assert(first[0] == if_false as usize);
                }
            }
        },
        IrTerminator::Halt => {},
    }
    out
}

impl TypedIr {
    /// Marks the blocks reachable from the entry block.
    fn mark_reachable(&mut self)
        requires
            old(self).entry == 0,
        ensures
            final(self).entry == old(self).entry,
            final(self).next_value == old(self).next_value,
            final(self).blocks@.len() == old(self).blocks@.len(),
            forall|i: int|
                0 <= i < final(self).blocks@.len() ==> {
                    &&& #[trigger] final(self).blocks@[i].id == old(self).blocks@[i].id
                    &&& final(self).blocks@[i].start_pc == old(self).blocks@[i].start_pc
                    &&& final(self).blocks@[i].operations@ == old(self).blocks@[i].operations@
                    &&& final(self).blocks@[i].terminator == old(self).blocks@[i].terminator
                    &&& (final(self).blocks@[i].reachable <==> reaches(block_edges(old(self).blocks@), i as usize))
                },
    {
        let nb = self.blocks.len();
        if nb == 0 {
            return;
        }
        let ghost before = self.blocks@;
        let mut edges: Vec<Vec<usize>> = Vec::new();
        let mut i: usize = 0;
        while i < nb
            invariant
                nb == self.blocks@.len(),
                self.blocks@ == before,
                i <= nb,
                edges@.len() == i,
                forall|b: int| 0 <= b < i ==> #[trigger] edges@[b]@ == ir_edges(before[b].terminator, nb as nat),
                forall|b: int| 0 <= b < i ==> distinct(#[trigger] edges@[b]@),
                forall|b: int, k: int| 0 <= b < i && 0 <= k < edges@[b]@.len() ==> #[trigger] edges@[b]@[k] < nb,
            decreases nb - i,
        {
            edges.push(edges_of(self.blocks[i].terminator, nb));
            i = i + 1;
        }
        proof {
            let sv = list_views(edges@);
            assert(sv =~= block_edges(before));
            assert forall|b: int| 0 <= b < nb implies distinct(#[trigger] sv[b]) by {
                assert(sv[b] == edges@[b]@);
            }
            assert forall|b: int, k: int| 0 <= b < nb && 0 <= k < sv[b].len() implies #[trigger] sv[b][k] < nb by {
                assert(sv[b] == edges@[b]@);
            }
        }
        let reachable = reachable_blocks(&edges);
        let mut i: usize = 0;
        while i < nb
            invariant
                nb == before.len(),
                self.blocks@.len() == nb,
                i <= nb,
                reachable@.len() == nb,
                self.entry == old(self).entry,
                self.next_value == old(self).next_value,
                before == old(self).blocks@,
                forall|b: int| 0 <= b < nb ==> (#[trigger] reachable@[b] <==> reaches(block_edges(before), b as usize)),
                forall|b: int|
                    0 <= b < nb ==> {
                        &&& #[trigger] self.blocks@[b].id == before[b].id
                        &&& self.blocks@[b].start_pc == before[b].start_pc
                        &&& self.blocks@[b].operations@ == before[b].operations@
                        &&& self.blocks@[b].terminator == before[b].terminator
                        &&& (b < i ==> (self.blocks@[b].reachable <==> reaches(block_edges(before), b as usize)))
                    },
            decreases nb - i,
        {
            self.blocks[i].reachable = reachable[i];
            i = i + 1;
        }
    }
}


/// The block start positions recorded in `blocks`.
pub open spec fn block_starts(blocks: Seq<IrBlock>) -> Seq<u32> {
    Seq::new(blocks.len(), |i: int| blocks[i].start_pc)
}

/// Which instructions start an IR block.
pub open spec fn boundaries(ops: Seq<Op>) -> Seq<bool> {
    Seq::new(ops.len(), |x: int| is_boundary(ops, x))
}

/// `blocks` is the IR of `ops`: blocks start exactly at the boundaries,
/// each holds the lowered operations and terminator of its instructions,
/// and is marked reachable exactly when the entry block reaches it.
pub open spec fn lowers(blocks: Seq<IrBlock>, ops: Seq<Op>) -> bool {
    let starts = block_starts(blocks);
    &&& ops.len() == 0 ==> is_empty_entry(blocks)
    &&& ops.len() > 0 ==> lists_marks(starts, boundaries(ops))
    &&& ops.len() > 0 ==> forall|i: int|
        0 <= i < blocks.len() ==> {
            &&& #[trigger] blocks[i].id == i
            &&& op_models(blocks[i].operations@) == block_ops(ops, starts[i] as int, end_of(starts, ops.len(), i) as int)
            &&& blocks[i].terminator == terminator_model(ops, starts, i)
            &&& (blocks[i].reachable <==> reaches(block_edges(blocks), i as usize))
        }
}

/// The IR of a program without instructions: one reachable, empty entry
/// block at instruction 0 that halts.
pub open spec fn is_empty_entry(blocks: Seq<IrBlock>) -> bool {
    &&& blocks.len() == 1
    &&& blocks[0].id == 0
    &&& blocks[0].start_pc == 0
    &&& blocks[0].operations@.len() == 0
    &&& blocks[0].terminator == IrTerminator::Halt
    &&& blocks[0].reachable
}

fn block_id_of(block_for_pc: &Vec<u32>, pc: u64) -> (r: u32)
    ensures
        r == (if (pc as int) < block_for_pc@.len() {
            block_for_pc@[pc as int]
        } else {
            u32::MAX
        }),
{
    if pc < block_for_pc.len() as u64 {
        block_for_pc[pc as usize]
    } else {
        u32::MAX
    }
}

/// Lowers block `i`: its operations and terminator.
fn lower_block(program: &Program, i: usize, starts: &Vec<u32>, block_for_pc: &Vec<u32>, next_value: &mut u32, marks: Ghost<Seq<bool>>) -> (r: IrBlock)
    requires
        program.ops@.len() > 0,
        program.ops@.len() <= u32::MAX,
        starts@.len() <= program.ops@.len(),
        lists_marks(starts@, marks@),
        marks@ == boundaries(program.ops@),
        block_for_pc@.len() == program.ops@.len(),
        forall|pc: int|
            0 <= pc < program.ops@.len() ==> #[trigger] block_for_pc@[pc] as int == block_at(starts@, program.ops@.len(), pc),
        i < starts@.len(),
        *old(next_value) == saturate(values_before(program.ops@, if i == 0 { 0 } else { end_of(starts@, program.ops@.len(), i - 1) as int })),
    ensures
        *final(next_value) == saturate(values_before(program.ops@, end_of(starts@, program.ops@.len(), i as int) as int)),
        r.id == i,
        r.start_pc == starts@[i as int],
        op_models(r.operations@) == block_ops(program.ops@, starts@[i as int] as int, end_of(starts@, program.ops@.len(), i as int) as int),
        r.terminator == terminator_model(program.ops@, starts@, i as int),
{
    let ghost ops = program.ops@;
    let n = program.ops.len();
    let count = starts.len();
    let start = starts[i] as usize;
    let end = if i + 1 < count { starts[i + 1] as usize } else { n };
    proof {
        lemma_ends(starts@, marks@, i as int);
        if i > 0 {
            assert(end_of(starts@, n as nat, i - 1) == starts@[i as int]);
        } else {
            assert(is_boundary(ops, 0));
            assert(marks@[0]);
            let zero = choose|j: int| 0 <= j < starts@.len() && starts@[j] == 0;
            if zero > 0 {
                assert(starts@[0] < starts@[zero]);
            }
        }
    }
    let mut operations: Vec<IrOp> = Vec::new();
    let mut pc = start;
    assert(op_models(operations@) =~= block_ops(ops, start as int, start as int));
    while pc < end
        invariant
            ops == program.ops@,
            start <= pc <= end,
            end <= n,
            n == ops.len(),
            *next_value == saturate(values_before(ops, pc as int)),
            op_models(operations@) == block_ops(ops, start as int, pc as int),
        decreases end - pc,
    {
        lower_op(&program.ops[pc], &mut operations, next_value, Ghost(values_before(ops, pc as int)));
        pc = pc + 1;
    }
    let last = &program.ops[end - 1];
    let fallthrough = block_id_of(block_for_pc, end as u64);
    let terminator = match last {
        Op::Jump(target) => IrTerminator::Jump(block_id_of(block_for_pc, *target as u64)),
        Op::JumpIfFalse { target, .. } | Op::JumpIfIntegerCompare { target, .. } => IrTerminator::Branch {
            condition: IrValue(next_value.saturating_sub(1)),
            if_true: fallthrough,
            if_false: block_id_of(block_for_pc, *target as u64),
        },
        Op::Halt => IrTerminator::Halt,
        _ => {
            if end >= n {
                IrTerminator::Halt
            } else {
                IrTerminator::Fallthrough(block_for_pc[end])
            }
        },
    };
    proof {
        if end < n {
            lemma_block_exists(starts@, marks@, end as int);
        }
        if let Some(t) = op_target(ops[end - 1]) {
            if t < n {
                lemma_block_exists(starts@, marks@, t as int);
            }
        }
    }
    IrBlock { id: i as u32, start_pc: starts[i], operations, terminator, reachable: false }
}

proof fn lemma_lowered(blocks: Seq<IrBlock>, built: Seq<IrBlock>, starts: Seq<u32>, ops: Seq<Op>)
    requires
        ops.len() > 0,
        lists_marks(starts, boundaries(ops)),
        built.len() == starts.len(),
        blocks.len() == built.len(),
        forall|b: int|
            0 <= b < built.len() ==> {
                &&& #[trigger] built[b].id == b
                &&& built[b].start_pc == starts[b]
                &&& op_models(built[b].operations@) == block_ops(ops, starts[b] as int, end_of(starts, ops.len(), b) as int)
                &&& built[b].terminator == terminator_model(ops, starts, b)
            },
        forall|i: int|
            0 <= i < blocks.len() ==> {
                &&& #[trigger] blocks[i].id == built[i].id
                &&& blocks[i].start_pc == built[i].start_pc
                &&& blocks[i].operations@ == built[i].operations@
                &&& blocks[i].terminator == built[i].terminator
                &&& (blocks[i].reachable <==> reaches(block_edges(built), i as usize))
            },
    ensures
        lowers(blocks, ops),
{
    assert forall|b: int| 0 <= b < blocks.len() implies blocks[b].terminator == built[b].terminator
        && blocks[b].start_pc == starts[b] by {
        assert(blocks[b].id == built[b].id);
        assert(built[b].id == b);
    }
    assert forall|i: int| 0 <= i < blocks.len() implies #[trigger] block_edges(blocks)[i] == block_edges(built)[i] by {
        assert(blocks[i].id == built[i].id);
    }
    assert(block_edges(blocks) =~= block_edges(built));
    assert(block_starts(blocks) =~= starts);
    assert forall|i: int| 0 <= i < blocks.len() implies {
        &&& #[trigger] blocks[i].id == i
        &&& op_models(blocks[i].operations@) == block_ops(ops, block_starts(blocks)[i] as int, end_of(block_starts(blocks), ops.len(), i) as int)
        &&& blocks[i].terminator == terminator_model(ops, block_starts(blocks), i)
        &&& (blocks[i].reachable <==> reaches(block_edges(blocks), i as usize))
    } by {
        assert(blocks[i].id == built[i].id);
        assert(built[i].id == i);
    }
}

impl TypedIr {
    /// Builds block boundaries and typed assignments from a program.
    pub fn from_program(program: &Program) -> (r: TypedIr)
        requires
            program.ops@.len() <= u32::MAX,
        ensures
            lowers(r.ir_blocks(), program.ops@),
            r.ir_entry() == 0,
            r.ir_value_count() == saturate(values_before(program.ops@, program.ops@.len() as int)),
    {
        let ghost ops = program.ops@;
        let n = program.ops.len();
        if n == 0 {
            let entry_block = IrBlock {
                id: 0,
                start_pc: 0,
                operations: Vec::new(),
                terminator: IrTerminator::Halt,
                reachable: true,
            };
            let ir = TypedIr { blocks: vec![entry_block], entry: 0, next_value: 0 };
            proof {
                assert(values_before(ops, 0) == 0);
            }
            return ir;
        }
        let marks = boundary_marks(&program.ops);
        let starts = marked_positions(&marks);
        proof {
            assert(marks@ =~= boundaries(ops));
            lemma_starts_count(starts@, marks@);
            assert(is_boundary(ops, 0));
            assert(marks@[0]);
            let zero = choose|j: int| 0 <= j < starts@.len() && starts@[j] == 0;
            assert(starts@.len() > 0);
        }
        let block_for_pc = block_index(&starts, n, Ghost(marks@));
        let count = starts.len();
        let mut next_value: u32 = 0;
        let mut blocks: Vec<IrBlock> = Vec::new();
        let mut i: usize = 0;
        while i < count
            invariant
                ops == program.ops@,
                n == ops.len(),
                n > 0,
                n <= u32::MAX,
                count == starts@.len(),
                count <= n,
                lists_marks(starts@, marks@),
                marks@ == boundaries(ops),
                block_for_pc@.len() == n,
                forall|pc: int| 0 <= pc < n ==> #[trigger] block_for_pc@[pc] as int == block_at(starts@, n as nat, pc),
                i <= count,
                blocks@.len() == i,
                next_value == saturate(values_before(ops, if i == 0 { 0 } else { end_of(starts@, n as nat, i - 1) as int })),
                forall|b: int|
                    0 <= b < i ==> {
                        &&& #[trigger] blocks@[b].id == b
                        &&& blocks@[b].start_pc == starts@[b]
                        &&& op_models(blocks@[b].operations@) == block_ops(ops, starts@[b] as int, end_of(starts@, n as nat, b) as int)
                        &&& blocks@[b].terminator == terminator_model(ops, starts@, b)
                    },
            decreases count - i,
        {
            let block = lower_block(program, i, &starts, &block_for_pc, &mut next_value, Ghost(marks@));
            blocks.push(block);
            i = i + 1;
        }
        let mut ir = TypedIr { blocks, entry: 0, next_value };
        let ghost built = ir.blocks@;
        ir.mark_reachable();
        proof {
            lemma_lowered(ir.blocks@, built, starts@, ops);
            if count > 0 {
                assert(end_of(starts@, n as nat, count - 1) == n);
            }
        }
        ir
    }

    /// Re-marks reachability; the IR is otherwise unchanged.
    pub fn optimize(&mut self)
        requires
            old(self).ir_entry() == 0,
        ensures
            final(self).ir_entry() == old(self).ir_entry(),
            final(self).ir_value_count() == old(self).ir_value_count(),
            final(self).ir_blocks().len() == old(self).ir_blocks().len(),
            forall|i: int|
                0 <= i < final(self).ir_blocks().len() ==> {
                    &&& #[trigger] final(self).ir_blocks()[i].id == old(self).ir_blocks()[i].id
                    &&& final(self).ir_blocks()[i].start_pc == old(self).ir_blocks()[i].start_pc
                    &&& final(self).ir_blocks()[i].operations@ == old(self).ir_blocks()[i].operations@
                    &&& final(self).ir_blocks()[i].terminator == old(self).ir_blocks()[i].terminator
                    &&& (final(self).ir_blocks()[i].reachable <==> reaches(block_edges(old(self).ir_blocks()), i as usize))
                },
    {
        self.mark_reachable();
    }

    /// The blocks.
    pub fn blocks(&self) -> (r: &[IrBlock])
        ensures
            r@ == self.ir_blocks(),
    {
        self.blocks.as_slice()
    }

    /// The entry block.
    pub fn entry(&self) -> (r: u32)
        ensures
            r == self.ir_entry(),
    {
        self.entry
    }

    /// The number of SSA values allocated.
    pub fn value_count(&self) -> (r: u32)
        ensures
            r == self.ir_value_count(),
    {
        self.next_value
    }

    pub closed spec fn ir_blocks(&self) -> Seq<IrBlock> {
        self.blocks@
    }

    pub closed spec fn ir_entry(&self) -> u32 {
        self.entry
    }

    pub closed spec fn ir_value_count(&self) -> u32 {
        self.next_value
    }
}

} // verus!
