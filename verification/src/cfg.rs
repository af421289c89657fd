//! Basic blocks and the control-flow graph of a program's instructions.

use crate::program::Op;
use vstd::prelude::*;

verus! {

/// A branch instruction: it may transfer control to its target.
pub open spec fn is_branch(op: Op) -> bool {
    op is Jump || op is JumpIfFalse || op is JumpIfIntegerCompare
}

/// The target of a branch.
pub open spec fn op_target(op: Op) -> Option<nat> {
    match op {
        Op::Jump(target) => Some(target as nat),
        Op::JumpIfFalse { target, .. } => Some(target as nat),
        Op::JumpIfIntegerCompare { target, .. } => Some(target as nat),
        _ => None,
    }
}

/// Control never falls from this instruction into the next as part of one
/// block.
pub open spec fn ends_block(op: Op) -> bool {
    is_branch(op) || op is Halt
}

/// The instructions run in order from the first and stop at a final halt.
pub open spec fn straight_line(ops: Seq<Op>) -> bool {
    forall|pc: int|
        0 <= pc < ops.len() ==> !is_branch(#[trigger] ops[pc]) && (ops[pc] is Halt ==> pc + 1 == ops.len())
}

/// Whether `ops` runs in order from its first instruction to a final halt.
pub fn is_straight_line(ops: &[Op]) -> (r: bool)
    ensures
        r == straight_line(ops@),
{
    let mut pc: usize = 0;
    while pc < ops.len()
        invariant
            pc <= ops@.len(),
            forall|q: int|
                0 <= q < pc ==> !is_branch(#[trigger] ops@[q]) && (ops@[q] is Halt ==> q + 1 == ops@.len()),
        decreases ops@.len() - pc,
    {
        match &ops[pc] {
            Op::Jump(_) | Op::JumpIfFalse { .. } | Op::JumpIfIntegerCompare { .. } => {
                return false;
            },
            Op::Halt => {
                if pc + 1 != ops.len() {
                    return false;
                }
            },
            _ => {},
        }
        pc = pc + 1;
    }
    true
}

/// A maximal run of instructions entered only at its first one.
#[derive(Debug, Clone, Copy)]
pub struct BasicBlock {
    pub start: usize,
    pub end: usize,
}

/// The blocks of a program and the edges between them.
pub struct ControlFlow {
    pub blocks: Vec<BasicBlock>,
    pub successors: Vec<Vec<usize>>,
    pub predecessors: Vec<Vec<usize>>,
    pub reachable: Vec<bool>,
}

/// Instruction `pc` starts a block: it is the entry, follows a branch or a
/// halt, or is the target of a branch.
pub open spec fn is_leader(ops: Seq<Op>, pc: int) -> bool {
    &&& 0 <= pc < ops.len()
    &&& {
        ||| pc == 0
        ||| ends_block(ops[pc - 1])
        ||| exists|q: int| 0 <= q < ops.len() && #[trigger] op_target(ops[q]) == Some(pc as nat)
    }
}

/// `blocks` cuts `0..n` into consecutive non-empty ranges, each starting at
/// a leader and holding no other leader.
pub open spec fn partitions(blocks: Seq<BasicBlock>, ops: Seq<Op>) -> bool {
    let n = ops.len();
    &&& n == 0 <==> blocks.len() == 0
    &&& n > 0 ==> blocks[0].start == 0 && blocks[blocks.len() - 1].end == n
    &&& forall|b: int| 0 <= b < blocks.len() ==> #[trigger] blocks[b].start < blocks[b].end
    &&& forall|b: int| 0 <= b < blocks.len() - 1 ==> #[trigger] blocks[b].end == blocks[b + 1].start
    &&& forall|b: int| 0 <= b < blocks.len() ==> is_leader(ops, #[trigger] blocks[b].start as int)
    &&& forall|b: int, pc: int|
        #![trigger blocks[b], is_leader(ops, pc)]
        0 <= b < blocks.len() && blocks[b].start < pc < blocks[b].end ==> !is_leader(ops, pc)
}

/// The block holding instruction `pc`.
pub open spec fn block_of(blocks: Seq<BasicBlock>, pc: int) -> int {
    choose|b: int| 0 <= b < blocks.len() && #[trigger] blocks[b].start <= pc < blocks[b].end
}

/// `list` with `item` added at the end unless already present.
pub open spec fn push_new(list: Seq<usize>, item: Option<int>) -> Seq<usize> {
    match item {
        Some(b) => if list.contains(b as usize) {
            list
        } else {
            list.push(b as usize)
        },
        None => list,
    }
}

/// The block entered by running into instruction `pc`, if it exists.
pub open spec fn entered(blocks: Seq<BasicBlock>, n: nat, pc: int) -> Option<int> {
    if 0 <= pc < n {
        Some(block_of(blocks, pc))
    } else {
        None
    }
}

/// The successors of block `b`, decided by its last instruction: the
/// fall-through block first, then the branch target.
pub open spec fn block_successors(blocks: Seq<BasicBlock>, ops: Seq<Op>, b: int) -> Seq<usize> {
    let pc = blocks[b].end - 1;
    let n = ops.len();
    match ops[pc] {
        Op::Jump(target) => push_new(Seq::empty(), entered(blocks, n, target as int)),
        Op::JumpIfFalse { target, .. } | Op::JumpIfIntegerCompare { target, .. } => push_new(
            push_new(Seq::empty(), entered(blocks, n, pc + 1)),
            entered(blocks, n, target as int),
        ),
        Op::Halt => Seq::empty(),
        _ => push_new(Seq::empty(), entered(blocks, n, pc + 1)),
    }
}

/// The blocks among the first `k` that have `b` as a successor, in order.
pub open spec fn predecessors_upto(successors: Seq<Seq<usize>>, b: usize, k: int) -> Seq<usize>
    decreases k,
{
    if k <= 0 {
        Seq::empty()
    } else if successors[k - 1].contains(b) {
        predecessors_upto(successors, b, k - 1).push((k - 1) as usize)
    } else {
        predecessors_upto(successors, b, k - 1)
    }
}

/// `path` walks edges from the entry block to `b`.
pub open spec fn path_to(successors: Seq<Seq<usize>>, path: Seq<usize>, b: usize) -> bool {
    &&& path.len() > 0
    &&& path[0] == 0
    &&& path[path.len() - 1] == b
    &&& forall|i: int| 0 <= i < path.len() - 1 ==> #[trigger] successors[path[i] as int].contains(path[i + 1])
}

/// Block `b` can be reached from the entry block.
pub open spec fn reaches(successors: Seq<Seq<usize>>, b: usize) -> bool {
    exists|path: Seq<usize>| #[trigger] path_to(successors, path, b)
}

/// The exact shape of the control-flow graph of `ops`.
pub open spec fn describes(flow: ControlFlow, ops: Seq<Op>) -> bool {
    let blocks = flow.blocks@;
    let succ = Seq::new(flow.successors@.len(), |i: int| flow.successors@[i]@);
    let nb = blocks.len();
    &&& partitions(blocks, ops)
    &&& flow.successors@.len() == nb
    &&& flow.predecessors@.len() == nb
    &&& flow.reachable@.len() == nb
    &&& forall|b: int| 0 <= b < nb ==> #[trigger] succ[b] == block_successors(blocks, ops, b)
    &&& forall|b: int, k: int| 0 <= b < nb && 0 <= k < succ[b].len() ==> #[trigger] succ[b][k] < nb
    &&& forall|b: int| 0 <= b < nb ==> distinct(#[trigger] succ[b])
    &&& forall|b: int| 0 <= b < nb ==> #[trigger] flow.predecessors@[b]@ == predecessors_upto(succ, b as usize, nb as int)
    &&& forall|b: int| 0 <= b < nb ==> (#[trigger] flow.reachable@[b] <==> reaches(succ, b as usize))
}


/// Instruction `x` is a leader because of one of the first `k` instructions.
pub open spec fn marked_by(ops: Seq<Op>, k: int, x: int) -> bool {
    ||| x == 0
    ||| exists|q: int| 0 <= q < k && #[trigger] op_target(ops[q]) == Some(x as nat)
    ||| (0 < x <= k && ends_block(ops[x - 1]))
}

fn mark_target(leaders: &mut Vec<bool>, target: u32)
    ensures
        final(leaders)@ == (if (target as int) < old(leaders)@.len() {
            old(leaders)@.update(target as int, true)
        } else {
            old(leaders)@
        }),
{
    if (target as usize) < leaders.len() {
        leaders.set(target as usize, true);
    }
}

fn mark_fallthrough(leaders: &mut Vec<bool>, pc: usize)
    requires
        pc < old(leaders)@.len(),
    ensures
        final(leaders)@ == (if pc + 1 < old(leaders)@.len() {
            old(leaders)@.update(pc + 1, true)
        } else {
            old(leaders)@
        }),
{
    let n = leaders.len();
    if pc + 1 < n {
        leaders.set(pc + 1, true);
    }
}

/// Which instructions start a block.
fn find_leaders(ops: &[Op]) -> (r: Vec<bool>)
    requires
        ops@.len() > 0,
    ensures
        r@.len() == ops@.len(),
        forall|x: int| 0 <= x < ops@.len() ==> (#[trigger] r@[x] <==> is_leader(ops@, x)),
{
    let n = ops.len();
    let mut leaders: Vec<bool> = Vec::new();
    let mut i: usize = 0;
    while i < n
        invariant
            n == ops@.len(),
            i <= n,
            leaders@.len() == i,
            forall|x: int| 0 <= x < i ==> leaders@[x] == (x == 0),
        decreases n - i,
    {
        leaders.push(i == 0);
        i = i + 1;
    }
    let mut pc: usize = 0;
    while pc < n
        invariant
            n == ops@.len(),
            pc <= n,
            leaders@.len() == n,
            forall|x: int| 0 <= x < n ==> (#[trigger] leaders@[x] <==> marked_by(ops@, pc as int, x)),
        decreases n - pc,
    {
        let ghost before = leaders@;
        match &ops[pc] {
            Op::Jump(target) | Op::JumpIfFalse { target, .. } | Op::JumpIfIntegerCompare { target, .. } => {
                mark_target(&mut leaders, *target);
                mark_fallthrough(&mut leaders, pc);
            },
            Op::Halt => mark_fallthrough(&mut leaders, pc),
            _ => {},
        }
        proof {
            assert forall|x: int| 0 <= x < n implies (#[trigger] leaders@[x] <==> marked_by(
                ops@,
                pc + 1,
                x,
            )) by {
                if marked_by(ops@, pc as int, x) {
                    if exists|q: int| 0 <= q < pc && #[trigger] op_target(ops@[q]) == Some(x as nat) {
                        let q = choose|q: int| 0 <= q < pc && #[trigger] op_target(ops@[q]) == Some(x as nat);
                        assert(0 <= q < pc + 1 && op_target(ops@[q]) == Some(x as nat));
                    }
                }
                if op_target(ops@[pc as int]) == Some(x as nat) {
                    assert(0 <= pc < pc + 1 && op_target(ops@[pc as int]) == Some(x as nat));
                }
                if marked_by(ops@, pc + 1, x) && !marked_by(ops@, pc as int, x) {
                    if exists|q: int| 0 <= q < pc + 1 && #[trigger] op_target(ops@[q]) == Some(x as nat) {
                        let q = choose|q: int| 0 <= q < pc + 1 && #[trigger] op_target(ops@[q]) == Some(x as nat);
                        assert(q == pc);
                    }
                }
            }
        }
        pc = pc + 1;
    }
    proof {
        assert forall|x: int| 0 <= x < n implies (#[trigger] leaders@[x] <==> is_leader(ops@, x)) by {
            if is_leader(ops@, x) {
                if exists|q: int| 0 <= q < ops@.len() && #[trigger] op_target(ops@[q]) == Some(x as nat) {
                    let q = choose|q: int| 0 <= q < ops@.len() && #[trigger] op_target(ops@[q]) == Some(x as nat);
                    assert(0 <= q < n && op_target(ops@[q]) == Some(x as nat));
                }
            }
            if marked_by(ops@, n as int, x) {
                if exists|q: int| 0 <= q < n && #[trigger] op_target(ops@[q]) == Some(x as nat) {
                    let q = choose|q: int| 0 <= q < n && #[trigger] op_target(ops@[q]) == Some(x as nat);
                    assert(0 <= q < ops@.len() && op_target(ops@[q]) == Some(x as nat));
                }
            }
        }
    }
    leaders
}


/// Cuts the instructions into blocks at the leaders.
fn build_blocks(ops: &[Op], leaders: &Vec<bool>) -> (r: Vec<BasicBlock>)
    requires
        ops@.len() > 0,
        leaders@.len() == ops@.len(),
        forall|x: int| 0 <= x < ops@.len() ==> (#[trigger] leaders@[x] <==> is_leader(ops@, x)),
    ensures
        partitions(r@, ops@),
{
    let n = leaders.len();
    let mut starts: Vec<usize> = Vec::new();
    let mut x: usize = 0;
    while x < n
        invariant
            n == leaders@.len(),
            x <= n,
            forall|i: int, j: int| 0 <= i < j < starts@.len() ==> #[trigger] starts@[i] < #[trigger] starts@[j],
            forall|i: int| 0 <= i < starts@.len() ==> #[trigger] starts@[i] < x && leaders@[starts@[i] as int],
            forall|y: int| 0 <= y < x && #[trigger] leaders@[y] ==> exists|i: int| 0 <= i < starts@.len() && starts@[i] == y,
        decreases n - x,
    {
        let ghost before = starts@;
        if leaders[x] {
            starts.push(x);
        }
        proof {
            assert forall|y: int| 0 <= y < x + 1 && #[trigger] leaders@[y] implies exists|i: int|
                0 <= i < starts@.len() && starts@[i] == y by {
                if y < x {
                    let i = choose|i: int| 0 <= i < before.len() && before[i] == y;
                    assert(starts@[i] == y);
                } else {
                    assert(starts@[starts@.len() - 1] == y);
                }
            }
        }
        x = x + 1;
    }
    assert(leaders@[0]);
    let ghost first = choose|i: int| 0 <= i < starts@.len() && starts@[i] == 0;
    assert(starts@[0] == 0) by {
        if first > 0 {
            assert(starts@[0] < starts@[first]);
        }
    }
    let count = starts.len();
    let mut blocks: Vec<BasicBlock> = Vec::new();
    let mut i: usize = 0;
    while i < count
        invariant
            count == starts@.len(),
            i <= count,
            blocks@.len() == i,
            forall|b: int|
                0 <= b < i ==> #[trigger] blocks@[b] == (BasicBlock {
                    start: starts@[b],
                    end: if b + 1 < count {
                        starts@[b + 1]
                    } else {
                        n
                    },
                }),
        decreases count - i,
    {
        let end = if i + 1 < count { starts[i + 1] } else { n };
        blocks.push(BasicBlock { start: starts[i], end });
        i = i + 1;
    }
    proof {
        let bs = blocks@;
        assert forall|b: int| 0 <= b < bs.len() implies #[trigger] bs[b].start < bs[b].end by {
            if b + 1 < count {
                assert(starts@[b] < starts@[b + 1]);
            }
        }
        assert forall|b: int| 0 <= b < bs.len() - 1 implies #[trigger] bs[b].end == bs[b + 1].start by {
            assert(bs[b + 1] == blocks@[b + 1]);
        }
        assert forall|b: int| 0 <= b < bs.len() implies is_leader(ops@, #[trigger] bs[b].start as int) by {
            assert(leaders@[starts@[b] as int]);
        }
        assert forall|b: int, pc: int|
            #![trigger bs[b], is_leader(ops@, pc)]
            0 <= b < bs.len() && bs[b].start < pc < bs[b].end implies !is_leader(ops@, pc) by {
            if is_leader(ops@, pc) {
                assert(leaders@[pc]);
                let j = choose|j: int| 0 <= j < starts@.len() && starts@[j] == pc;
                if j <= b {
                    if j < b {
                        assert(starts@[j] < starts@[b]);
                    }
                } else if b + 1 < count {
                    if j > b + 1 {
                        assert(starts@[b + 1] < starts@[j]);
                    }
                }
            }
        }
        assert(bs[0].start == 0);
        assert(bs[bs.len() - 1].end == n);
    }
    blocks
}


proof fn lemma_blocks_ordered(blocks: Seq<BasicBlock>, ops: Seq<Op>, i: int, j: int)
    requires
        partitions(blocks, ops),
        0 <= i < j < blocks.len(),
    ensures
        blocks[i].end <= blocks[j].start,
    decreases j - i,
{
    if j > i + 1 {
        lemma_blocks_ordered(blocks, ops, i, j - 1);
        assert(blocks[j - 1].start < blocks[j - 1].end);
        assert(blocks[j - 1].end == blocks[j].start);
    } else {
        assert(blocks[i].end == blocks[i + 1].start);
    }
}

/// The block containing `pc` is the only one.
proof fn lemma_block_of(blocks: Seq<BasicBlock>, ops: Seq<Op>, pc: int, b: int)
    requires
        partitions(blocks, ops),
        0 <= b < blocks.len(),
        blocks[b].start <= pc < blocks[b].end,
    ensures
        block_of(blocks, pc) == b,
{
    let c = block_of(blocks, pc);
    assert(0 <= c < blocks.len() && blocks[c].start <= pc < blocks[c].end);
    if c < b {
        lemma_blocks_ordered(blocks, ops, c, b);
    } else if c > b {
        lemma_blocks_ordered(blocks, ops, b, c);
    }
}

/// Every instruction lies in some block.
proof fn lemma_block_exists(blocks: Seq<BasicBlock>, ops: Seq<Op>, pc: int, k: int)
    requires
        partitions(blocks, ops),
        0 <= k < blocks.len(),
        0 <= pc < blocks[k].end,
    ensures
        exists|b: int| 0 <= b <= k && #[trigger] blocks[b].start <= pc < blocks[b].end,
    decreases k,
{
    if pc >= blocks[k].start {
        assert(blocks[k].start <= pc < blocks[k].end);
    } else {
        assert(k > 0);
        assert(blocks[k - 1].end == blocks[k].start);
        lemma_block_exists(blocks, ops, pc, k - 1);
        let b = choose|b: int| 0 <= b <= k - 1 && #[trigger] blocks[b].start <= pc < blocks[b].end;
        assert(0 <= b <= k && blocks[b].start <= pc < blocks[b].end);
    }
}

proof fn lemma_block_of_valid(blocks: Seq<BasicBlock>, ops: Seq<Op>, pc: int)
    requires
        partitions(blocks, ops),
        0 <= pc < ops.len(),
    ensures
        0 <= block_of(blocks, pc) < blocks.len(),
        blocks[block_of(blocks, pc)].start <= pc < blocks[block_of(blocks, pc)].end,
{
    lemma_block_exists(blocks, ops, pc, blocks.len() - 1);
}

/// For each instruction, the index of its block.
fn block_index(blocks: &Vec<BasicBlock>, ops: &[Op]) -> (r: Vec<usize>)
    requires
        ops@.len() > 0,
        partitions(blocks@, ops@),
    ensures
        r@.len() == ops@.len(),
        forall|pc: int| 0 <= pc < ops@.len() ==> #[trigger] r@[pc] as int == block_of(blocks@, pc),
{
    let mut index: Vec<usize> = Vec::new();
    let mut b: usize = 0;
    while b < blocks.len()
        invariant
            partitions(blocks@, ops@),
            b <= blocks@.len(),
            index@.len() == (if b == 0 { 0 } else { blocks@[b - 1].end as int }),
            forall|pc: int|
                0 <= pc < index@.len() ==> #[trigger] index@[pc] < b && blocks@[index@[pc] as int].start <= pc
                    < blocks@[index@[pc] as int].end,
        decreases blocks@.len() - b,
    {
        let block = blocks[b];
        assert(index@.len() == block.start) by {
            if b > 0 {
                assert(blocks@[b - 1].end == blocks@[b as int].start);
            }
        }
        let mut pc = block.start;
        while pc < block.end
            invariant
                block == blocks@[b as int],
                b < blocks@.len(),
                block.start <= pc <= block.end,
                index@.len() == pc,
                forall|q: int|
                    0 <= q < index@.len() ==> #[trigger] index@[q] <= b && blocks@[index@[q] as int].start <= q
                        < blocks@[index@[q] as int].end,
            decreases block.end - pc,
        {
            index.push(b);
            pc = pc + 1;
        }
        b = b + 1;
    }
    proof {
        assert forall|pc: int| 0 <= pc < ops@.len() implies #[trigger] index@[pc] as int == block_of(blocks@, pc) by {
            lemma_block_of(blocks@, ops@, pc, index@[pc] as int);
        }
    }
    index
}

fn holds(list: &Vec<usize>, item: usize) -> (r: bool)
    ensures
        r == list@.contains(item),
{
    let mut i: usize = 0;
    while i < list.len()
        invariant
            i <= list@.len(),
            forall|j: int| 0 <= j < i ==> list@[j] != item,
        decreases list@.len() - i,
    {
        if list[i] == item {
            assert(list@[i as int] == item);
            return true;
        }
        i = i + 1;
    }
    false
}

/// No block is listed twice.
pub open spec fn distinct(list: Seq<usize>) -> bool {
    forall|i: int, j: int| 0 <= i < j < list.len() ==> list[i] != list[j]
}

fn push_pc(targets: &mut Vec<usize>, pc: usize, pc_to_block: &Vec<usize>, ghost_blocks: Ghost<Seq<BasicBlock>>)
    requires
        forall|q: int| 0 <= q < pc_to_block@.len() ==> #[trigger] pc_to_block@[q] as int == block_of(ghost_blocks@, q),
    ensures
        final(targets)@ == push_new(old(targets)@, entered(ghost_blocks@, pc_to_block@.len(), pc as int)),
{
    if pc >= pc_to_block.len() {
        return;
    }
    let block = pc_to_block[pc];
    if !holds(targets, block) {
        targets.push(block);
    }
}

proof fn lemma_push_new(list: Seq<usize>, item: Option<int>, bound: nat)
    requires
        distinct(list),
        forall|i: int| 0 <= i < list.len() ==> list[i] < bound,
        item matches Some(b) ==> 0 <= b < bound,
    ensures
        distinct(push_new(list, item)),
        forall|i: int| 0 <= i < push_new(list, item).len() ==> #[trigger] push_new(list, item)[i] < bound,
{
}

pub(crate) proof fn lemma_block_bounds(blocks: Seq<BasicBlock>, ops: Seq<Op>, b: int)
    requires
        partitions(blocks, ops),
        0 <= b < blocks.len(),
    ensures
        blocks[b].start < blocks[b].end <= ops.len(),
{
    if b + 1 < blocks.len() {
        lemma_blocks_ordered(blocks, ops, b, blocks.len() - 1);
    }
}

proof fn lemma_entered_valid(blocks: Seq<BasicBlock>, ops: Seq<Op>, pc: int)
    requires
        partitions(blocks, ops),
    ensures
        entered(blocks, ops.len(), pc) matches Some(x) ==> 0 <= x < blocks.len(),
{
    if 0 <= pc < ops.len() {
        lemma_block_of_valid(blocks, ops, pc);
    }
}

/// The successors of block `b`.
fn successors_of(b: usize, blocks: &Vec<BasicBlock>, ops: &[Op], pc_to_block: &Vec<usize>) -> (r: Vec<usize>)
    requires
        ops@.len() > 0,
        b < blocks@.len(),
        partitions(blocks@, ops@),
        pc_to_block@.len() == ops@.len(),
        forall|pc: int| 0 <= pc < ops@.len() ==> #[trigger] pc_to_block@[pc] as int == block_of(blocks@, pc),
    ensures
        r@ == block_successors(blocks@, ops@, b as int),
        distinct(r@),
        forall|k: int| 0 <= k < r@.len() ==> #[trigger] r@[k] < blocks@.len(),
{
    let ghost bs = blocks@;
    let ghost n = ops@.len();
    proof {
        lemma_block_bounds(bs, ops@, b as int);
    }
    let pc = blocks[b].end - 1;
    let ghost next = entered(bs, n, pc + 1);
    proof {
        lemma_entered_valid(bs, ops@, pc + 1);
        lemma_push_new(Seq::empty(), next, bs.len());
    }
    let mut targets: Vec<usize> = Vec::new();
    match &ops[pc] {
        Op::Jump(target) => {
            proof {
                lemma_entered_valid(bs, ops@, *target as int);
                lemma_push_new(Seq::empty(), entered(bs, n, *target as int), bs.len());
            }
            push_pc(&mut targets, *target as usize, pc_to_block, Ghost(bs));
        },
        Op::JumpIfFalse { target, .. } | Op::JumpIfIntegerCompare { target, .. } => {
            proof {
                lemma_entered_valid(bs, ops@, *target as int);
                lemma_push_new(push_new(Seq::empty(), next), entered(bs, n, *target as int), bs.len());
            }
            push_pc(&mut targets, pc + 1, pc_to_block, Ghost(bs));
            push_pc(&mut targets, *target as usize, pc_to_block, Ghost(bs));
        },
        Op::Halt => {},
        _ => {
            push_pc(&mut targets, pc + 1, pc_to_block, Ghost(bs));
        },
    }
    targets
}

/// The successor list of every block.
fn successor_lists(blocks: &Vec<BasicBlock>, ops: &[Op], pc_to_block: &Vec<usize>) -> (r: Vec<Vec<usize>>)
    requires
        ops@.len() > 0,
        partitions(blocks@, ops@),
        pc_to_block@.len() == ops@.len(),
        forall|pc: int| 0 <= pc < ops@.len() ==> #[trigger] pc_to_block@[pc] as int == block_of(blocks@, pc),
    ensures
        r@.len() == blocks@.len(),
        forall|b: int| 0 <= b < blocks@.len() ==> #[trigger] r@[b]@ == block_successors(blocks@, ops@, b),
        forall|b: int| 0 <= b < blocks@.len() ==> distinct(#[trigger] r@[b]@),
        forall|b: int, k: int|
            0 <= b < blocks@.len() && 0 <= k < r@[b]@.len() ==> #[trigger] r@[b]@[k] < blocks@.len(),
{
    let mut successors: Vec<Vec<usize>> = Vec::new();
    let mut b: usize = 0;
    while b < blocks.len()
        invariant
            ops@.len() > 0,
            partitions(blocks@, ops@),
            pc_to_block@.len() == ops@.len(),
            forall|pc: int| 0 <= pc < ops@.len() ==> #[trigger] pc_to_block@[pc] as int == block_of(blocks@, pc),
            b <= blocks@.len(),
            successors@.len() == b,
            forall|c: int| 0 <= c < b ==> #[trigger] successors@[c]@ == block_successors(blocks@, ops@, c),
            forall|c: int| 0 <= c < b ==> distinct(#[trigger] successors@[c]@),
            forall|c: int, k: int|
                0 <= c < b && 0 <= k < successors@[c]@.len() ==> #[trigger] successors@[c]@[k] < blocks@.len(),
        decreases blocks@.len() - b,
    {
        let targets = successors_of(b, blocks, ops, pc_to_block);
        successors.push(targets);
        b = b + 1;
    }
    successors
}


pub open spec fn list_views(lists: Seq<Vec<usize>>) -> Seq<Seq<usize>> {
    Seq::new(lists.len(), |i: int| lists[i]@)
}

/// Every list is free of repeats and names blocks below `nb`.
pub open spec fn edge_lists(lists: Seq<Seq<usize>>, nb: nat) -> bool {
    &&& lists.len() == nb
    &&& forall|b: int| 0 <= b < nb ==> distinct(#[trigger] lists[b])
    &&& forall|b: int, k: int| 0 <= b < nb && 0 <= k < lists[b].len() ==> #[trigger] lists[b][k] < nb
}

/// The predecessor list of every block: the blocks that list it as a
/// successor, in block order.
fn predecessor_lists(successors: &Vec<Vec<usize>>) -> (r: Vec<Vec<usize>>)
    requires
        edge_lists(list_views(successors@), successors@.len()),
    ensures
        r@.len() == successors@.len(),
        forall|b: int|
            0 <= b < successors@.len() ==> #[trigger] r@[b]@ == predecessors_upto(
                list_views(successors@),
                b as usize,
                successors@.len() as int,
            ),
{
    let nb = successors.len();
    let ghost sv = list_views(successors@);
    let mut predecessors: Vec<Vec<usize>> = Vec::new();
    let mut i: usize = 0;
    while i < nb
        invariant
            nb == successors@.len(),
            i <= nb,
            predecessors@.len() == i,
            forall|b: int| 0 <= b < i ==> #[trigger] predecessors@[b]@ == Seq::<usize>::empty(),
        decreases nb - i,
    {
        predecessors.push(Vec::new());
        i = i + 1;
    }
    let mut a: usize = 0;
    while a < nb
        invariant
            nb == successors@.len(),
            sv == list_views(successors@),
            edge_lists(sv, nb as nat),
            a <= nb,
            predecessors@.len() == nb,
            forall|b: int| 0 <= b < nb ==> #[trigger] predecessors@[b]@ == predecessors_upto(sv, b as usize, a as int),
        decreases nb - a,
    {
        let targets = &successors[a];
        assert(targets@ == sv[a as int]);
        let mut k: usize = 0;
        while k < targets.len()
            invariant
                nb == successors@.len(),
                sv == list_views(successors@),
                edge_lists(sv, nb as nat),
                a < nb,
                targets@ == sv[a as int],
                k <= targets@.len(),
                predecessors@.len() == nb,
                forall|b: int|
                    0 <= b < nb ==> #[trigger] predecessors@[b]@ == predecessors_upto(sv, b as usize, a as int) + (
                    if targets@.subrange(0, k as int).contains(b as usize) {
                        seq![a]
                    } else {
                        Seq::empty()
                    }),
            decreases targets@.len() - k,
        {
            let t = targets[k];
            let ghost before = predecessors@;
            assert(!targets@.subrange(0, k as int).contains(t)) by {
                if targets@.subrange(0, k as int).contains(t) {
                    let j = choose|j: int| 0 <= j < k && #[trigger] targets@.subrange(0, k as int)[j] == t;
                    assert(targets@[j] == targets@[k as int]);
                }
            }
            predecessors[t].push(a);
            proof {
                assert forall|b: int| 0 <= b < nb implies #[trigger] predecessors@[b]@ == predecessors_upto(
                    sv,
                    b as usize,
                    a as int,
                ) + (if targets@.subrange(0, k + 1).contains(b as usize) {
                    seq![a]
                } else {
                    Seq::empty()
                }) by {
                    assert(targets@.subrange(0, k + 1) =~= targets@.subrange(0, k as int).push(t));
                    if b != t as int {
                        assert(predecessors@[b] == before[b]);
                        if targets@.subrange(0, k + 1).contains(b as usize) {
                            let j = choose|j: int| 0 <= j < k + 1 && #[trigger] targets@.subrange(0, k + 1)[j] == b as usize;
                            assert(targets@.subrange(0, k as int)[j] == b as usize);
                        }
                    } else {
                        assert(targets@.subrange(0, k + 1)[k as int] == t);
                    }
                }
            }
            k = k + 1;
        }
        proof {
            assert(targets@.subrange(0, k as int) =~= targets@);
            assert forall|b: int| 0 <= b < nb implies #[trigger] predecessors@[b]@ == predecessors_upto(
                sv,
                b as usize,
                a + 1,
            ) by {
                if sv[a as int].contains(b as usize) {
                    assert(predecessors_upto(sv, b as usize, a + 1) == predecessors_upto(sv, b as usize, a as int).push(a));
                    assert(predecessors_upto(sv, b as usize, a as int) + seq![a] =~= predecessors_upto(sv, b as usize, a as int).push(a));
                } else {
                    assert(predecessors_upto(sv, b as usize, a as int) + Seq::<usize>::empty() =~= predecessors_upto(sv, b as usize, a as int));
                }
            }
        }
        a = a + 1;
    }
    predecessors
}


/// The number of `false` entries.
pub open spec fn count_false(s: Seq<bool>) -> nat
    decreases s.len(),
{
    if s.len() == 0 {
        0
    } else {
        count_false(s.drop_last()) + if s.last() {
            0nat
        } else {
            1nat
        }
    }
}

proof fn lemma_count_false_set(s: Seq<bool>, i: int)
    requires
        0 <= i < s.len(),
        !s[i],
    ensures
        count_false(s.update(i, true)) + 1 == count_false(s),
    decreases s.len(),
{
    if i < s.len() - 1 {
        lemma_count_false_set(s.drop_last(), i);
        assert(s.update(i, true).drop_last() =~= s.drop_last().update(i, true));
    } else {
        assert(s.update(i, true).drop_last() =~= s.drop_last());
    }
}

/// Every step of `path` follows an edge of `reached` blocks, so the whole
/// path stays inside a successor-closed set containing the entry.
proof fn lemma_closed_path(sv: Seq<Seq<usize>>, reached: Seq<bool>, path: Seq<usize>, i: int)
    requires
        reached.len() == sv.len(),
        sv.len() > 0,
        reached[0],
        forall|a: int, t: usize| 0 <= a < sv.len() && reached[a] && #[trigger] sv[a].contains(t) ==> t < sv.len() && reached[t as int],
        path.len() > 0,
        path[0] == 0,
        forall|k: int| 0 <= k < path.len() - 1 ==> #[trigger] sv[path[k] as int].contains(path[k + 1]),
        0 <= i < path.len(),
    ensures
        path[i] < sv.len() && reached[path[i] as int],
    decreases i,
{
    if i > 0 {
        lemma_closed_path(sv, reached, path, i - 1);
        let k = i - 1;
        assert(sv[path[k] as int].contains(path[k + 1]));
        assert(path[k + 1] == path[i]);
    }
}

/// Which blocks the entry block reaches.
pub(crate) fn reachable_blocks(successors: &Vec<Vec<usize>>) -> (r: Vec<bool>)
    requires
        successors@.len() > 0,
        edge_lists(list_views(successors@), successors@.len()),
    ensures
        r@.len() == successors@.len(),
        forall|b: int| 0 <= b < successors@.len() ==> (#[trigger] r@[b] <==> reaches(list_views(successors@), b as usize)),
{
    let nb = successors.len();
    let ghost sv = list_views(successors@);
    let mut reachable: Vec<bool> = Vec::new();
    let mut i: usize = 0;
    while i < nb
        invariant
            i <= nb,
            reachable@.len() == i,
            forall|b: int| 0 <= b < i ==> !#[trigger] reachable@[b],
            count_false(reachable@) == i,
        decreases nb - i,
    {
        let ghost before = reachable@;
        reachable.push(false);
        assert(reachable@.drop_last() =~= before);
        i = i + 1;
    }
    let mut pending: Vec<usize> = Vec::new();
    pending.push(0);
    proof {
        assert(path_to(sv, seq![0usize], 0usize));
    }
    let ghost mut unmarked: nat = nb as nat;
    while pending.len() > 0
        invariant
            nb == successors@.len(),
            sv == list_views(successors@),
            edge_lists(sv, nb as nat),
            reachable@.len() == nb,
            unmarked == count_false(reachable@),
            forall|k: int| 0 <= k < pending@.len() ==> #[trigger] pending@[k] < nb,
            forall|k: int| 0 <= k < pending@.len() ==> reaches(sv, #[trigger] pending@[k]),
            forall|b: int| 0 <= b < nb && #[trigger] reachable@[b] ==> reaches(sv, b as usize),
            reachable@[0] || pending@.contains(0),
            forall|a: int, t: usize|
                0 <= a < nb && reachable@[a] && #[trigger] sv[a].contains(t) ==> reachable@[t as int]
                    || pending@.contains(t),
        decreases unmarked, pending@.len(),
    {
        let ghost old_pending = pending@;
        let block = match pending.pop() {
            Some(b) => b,
            None => 0,
        };
        assert(old_pending == pending@.push(block));
        assert(pending@.len() < old_pending.len());
        if reachable[block] {
            proof {
                assert forall|a: int, t: usize|
                    0 <= a < nb && reachable@[a] && #[trigger] sv[a].contains(t) implies reachable@[t as int]
                        || pending@.contains(t) by {
                    if !reachable@[t as int] {
                        assert(old_pending.contains(t));
                        let j = choose|j: int| 0 <= j < old_pending.len() && old_pending[j] == t;
                        if j < pending@.len() {
                            assert(pending@[j] == t);
                        }
                    }
                }
                if !reachable@[0] {
                    let j = choose|j: int| 0 <= j < old_pending.len() && old_pending[j] == 0;
                    if j < pending@.len() {
                        assert(pending@[j] == 0);
                    }
                }
            }
            continue;
        }
        let ghost marked_before = reachable@;
        proof {
            lemma_count_false_set(reachable@, block as int);
            unmarked = (unmarked - 1) as nat;
        }
        reachable.set(block, true);
        let ghost base = pending@;
        let targets = &successors[block];
        assert(targets@ == sv[block as int]);
        proof {
            assert(reaches(sv, old_pending[old_pending.len() - 1]));
        }
        let mut k: usize = 0;
        while k < targets.len()
            invariant
                targets@ == sv[block as int],
                edge_lists(sv, nb as nat),
                block < nb,
                reaches(sv, block),
                k <= targets@.len(),
                pending@ == base + targets@.subrange(0, k as int),
                forall|j: int| 0 <= j < pending@.len() ==> #[trigger] pending@[j] < nb,
                forall|j: int| 0 <= j < pending@.len() ==> reaches(sv, #[trigger] pending@[j]),
            decreases targets@.len() - k,
        {
            let t = targets[k];
            proof {
                let path = choose|path: Seq<usize>| #[trigger] path_to(sv, path, block);
                let longer = path.push(t);
                assert forall|i: int| 0 <= i < longer.len() - 1 implies #[trigger] sv[longer[i] as int].contains(
                    longer[i + 1],
                ) by {
                    if i == path.len() - 1 {
                        assert(sv[block as int][k as int] == t);
                    } else {
                        assert(sv[path[i] as int].contains(path[i + 1]));
                    }
                }
                assert(path_to(sv, longer, t));
            }
            pending.push(t);
            assert(pending@ =~= base + targets@.subrange(0, k + 1));
            k = k + 1;
        }
        proof {
            assert(targets@.subrange(0, k as int) =~= targets@);
            assert forall|a: int, t: usize|
                0 <= a < nb && reachable@[a] && #[trigger] sv[a].contains(t) implies reachable@[t as int]
                    || pending@.contains(t) by {
                if a == block as int {
                    let j = choose|j: int| 0 <= j < targets@.len() && targets@[j] == t;
                    assert(pending@[base.len() + j] == t);
                } else if !reachable@[t as int] {
                    assert(marked_before[a]);
                    assert(old_pending.contains(t));
                    let j = choose|j: int| 0 <= j < old_pending.len() && old_pending[j] == t;
                    if j < base.len() {
                        assert(pending@[j] == t);
                    }
                }
            }
            if !reachable@[0] {
                let j = choose|j: int| 0 <= j < old_pending.len() && old_pending[j] == 0;
                if j < base.len() {
                    assert(pending@[j] == 0);
                }
            }
        }
    }
    proof {
        assert forall|b: int| 0 <= b < nb implies (#[trigger] reachable@[b] <==> reaches(sv, b as usize)) by {
            if reaches(sv, b as usize) {
                let path = choose|path: Seq<usize>| #[trigger] path_to(sv, path, b as usize);
                lemma_closed_path(sv, reachable@, path, path.len() - 1);
            }
        }
    }
    reachable
}


impl ControlFlow {
    /// Builds the basic blocks of `ops`, their successor and predecessor
    /// lists, and which blocks the entry reaches.
    pub fn new(ops: &[Op]) -> (r: ControlFlow)
        ensures
            describes(r, ops@),
    {
        if ops.len() == 0 {
            let flow = ControlFlow {
                blocks: Vec::new(),
                successors: Vec::new(),
                predecessors: Vec::new(),
                reachable: Vec::new(),
            };
            return flow;
        }
        let leaders = find_leaders(ops);
        let blocks = build_blocks(ops, &leaders);
        let pc_to_block = block_index(&blocks, ops);
        let successors = successor_lists(&blocks, ops, &pc_to_block);
        proof {
            let sv = list_views(successors@);
            assert forall|b: int| 0 <= b < blocks@.len() implies distinct(#[trigger] sv[b]) by {
                assert(sv[b] == successors@[b]@);
            }
            assert forall|b: int, k: int| 0 <= b < blocks@.len() && 0 <= k < sv[b].len() implies #[trigger] sv[b][k]
                < blocks@.len() by {
                assert(sv[b] == successors@[b]@);
            }
        }
        let predecessors = predecessor_lists(&successors);
        let reachable = reachable_blocks(&successors);
        let flow = ControlFlow { blocks, successors, predecessors, reachable };
        proof {
            let sv = Seq::new(flow.successors@.len(), |i: int| flow.successors@[i]@);
            assert(sv =~= list_views(flow.successors@));
        }
        flow
    }
}

/// Every block of a partition ends within the instructions.
proof fn lemma_partition_ends(blocks: Seq<BasicBlock>, ops: Seq<Op>, b: int)
    requires
        partitions(blocks, ops),
        0 <= b < blocks.len(),
    ensures
        blocks[b].end <= ops.len(),
    decreases blocks.len() - b,
{
    if b < blocks.len() - 1 {
        lemma_partition_ends(blocks, ops, b + 1);
        assert(blocks[b].end == blocks[b + 1].start);
        assert(blocks[b + 1].start < blocks[b + 1].end);
    }
}

/// Two partitions agree on their first `k` blocks.
proof fn lemma_partition_prefix(b1: Seq<BasicBlock>, b2: Seq<BasicBlock>, ops: Seq<Op>, k: int)
    requires
        partitions(b1, ops),
        partitions(b2, ops),
        0 <= k <= b1.len(),
        k <= b2.len(),
    ensures
        forall|i: int| 0 <= i < k ==> b1[i] == b2[i],
    decreases k,
{
    if k > 0 {
        lemma_partition_prefix(b1, b2, ops, k - 1);
        let i = k - 1;
        let s = b1[i].start;
        assert(b2[i].start == s) by {
            if i > 0 {
                assert(b1[i - 1].end == b1[i].start);
                assert(b2[i - 1].end == b2[i].start);
            }
        }
        let e1 = b1[i].end;
        let e2 = b2[i].end;
        lemma_partition_ends(b1, ops, i);
        lemma_partition_ends(b2, ops, i);
        if e1 < e2 {
            if i == b1.len() - 1 {
                assert(e1 == ops.len());
            }
            assert(b1[i + 1].start == e1);
            assert(is_leader(ops, b1[i + 1].start as int));
            assert(!is_leader(ops, e1 as int));
        }
        if e2 < e1 {
            if i == b2.len() - 1 {
                assert(e2 == ops.len());
            }
            assert(b2[i + 1].start == e2);
            assert(is_leader(ops, b2[i + 1].start as int));
            assert(!is_leader(ops, e2 as int));
        }
        assert(b1[i] == b2[i]);
    }
}

/// The blocks of a program are determined by its instructions.
proof fn lemma_partition_unique(b1: Seq<BasicBlock>, b2: Seq<BasicBlock>, ops: Seq<Op>)
    requires
        partitions(b1, ops),
        partitions(b2, ops),
    ensures
        b1 == b2,
{
    if b1.len() <= b2.len() {
        lemma_partition_prefix(b1, b2, ops, b1.len() as int);
        if b1.len() < b2.len() {
            let k = b1.len() as int;
            if k == 0 {
                assert(ops.len() == 0);
            } else {
                assert(b2[k - 1].end == ops.len());
                assert(b2[k].start == b2[k - 1].end);
                lemma_partition_ends(b2, ops, k);
            }
        }
    } else {
        lemma_partition_prefix(b1, b2, ops, b2.len() as int);
        let k = b2.len() as int;
        if k == 0 {
            assert(ops.len() == 0);
        } else {
            assert(b1[k - 1].end == ops.len());
            assert(b1[k].start == b1[k - 1].end);
            lemma_partition_ends(b1, ops, k);
        }
    }
    assert(b1 =~= b2);
}

/// The control-flow graph of a program is determined by its instructions:
/// any two graphs that describe the same instructions have the same blocks,
/// edges, predecessors and reachable blocks.
pub proof fn control_flow_is_determined(f1: ControlFlow, f2: ControlFlow, ops: Seq<Op>)
    requires
        describes(f1, ops),
        describes(f2, ops),
    ensures
        f1.blocks@ == f2.blocks@,
        forall|b: int| 0 <= b < f1.blocks@.len() ==> #[trigger] f1.successors@[b]@ == f2.successors@[b]@,
        forall|b: int| 0 <= b < f1.blocks@.len() ==> #[trigger] f1.predecessors@[b]@ == f2.predecessors@[b]@,
        f1.reachable@ == f2.reachable@,
{
    lemma_partition_unique(f1.blocks@, f2.blocks@, ops);
    let s1 = Seq::new(f1.successors@.len(), |i: int| f1.successors@[i]@);
    let s2 = Seq::new(f2.successors@.len(), |i: int| f2.successors@[i]@);
    assert forall|b: int| 0 <= b < f1.blocks@.len() implies #[trigger] f1.successors@[b]@ == f2.successors@[b]@ by {
        assert(s1[b] == block_successors(f1.blocks@, ops, b));
        assert(s2[b] == block_successors(f2.blocks@, ops, b));
    }
    assert(s1 =~= s2);
    assert forall|b: int| 0 <= b < f1.blocks@.len() implies #[trigger] f1.predecessors@[b]@ == f2.predecessors@[b]@ by {
        assert(f1.predecessors@[b]@ == predecessors_upto(s1, b as usize, f1.blocks@.len() as int));
        assert(f2.predecessors@[b]@ == predecessors_upto(s2, b as usize, f2.blocks@.len() as int));
    }
    assert forall|b: int| 0 <= b < f1.reachable@.len() implies #[trigger] f1.reachable@[b] == f2.reachable@[b] by {
        assert(f1.reachable@[b] <==> reaches(s1, b as usize));
        assert(f2.reachable@[b] <==> reaches(s2, b as usize));
    }
    assert(f1.reachable@ =~= f2.reachable@);
}


proof fn lemma_block_starts_grow(blocks: Seq<BasicBlock>, ops: Seq<Op>, b: int)
    requires
        partitions(blocks, ops),
        0 <= b < blocks.len(),
    ensures
        blocks[b].start >= b,
    decreases b,
{
    if b > 0 {
        lemma_block_starts_grow(blocks, ops, b - 1);
        assert(blocks[b - 1].start < blocks[b - 1].end);
    }
}

proof fn lemma_predecessors_upto(successors: Seq<Seq<usize>>, c: usize, k: int, b: int)
    requires
        0 <= k <= successors.len(),
        successors.len() <= usize::MAX + 1,
    ensures
        predecessors_upto(successors, c, k).contains(b as usize) && 0 <= b < successors.len() <==> 0 <= b < k
            && successors[b].contains(c),
    decreases k,
{
    if k > 0 {
        lemma_predecessors_upto(successors, c, k - 1, b);
        let prev = predecessors_upto(successors, c, k - 1);
        if successors[k - 1].contains(c) {
            assert(prev.push((k - 1) as usize).contains(b as usize) <==> prev.contains(b as usize) || b as usize == (k - 1) as usize) by {
                if prev.push((k - 1) as usize).contains(b as usize) {
                    let i = choose|i: int| 0 <= i < prev.len() + 1 && #[trigger] prev.push((k - 1) as usize)[i] == b as usize;
                    if i < prev.len() {
                        assert(prev[i] == b as usize);
                    }
                }
                if prev.contains(b as usize) {
                    let i = choose|i: int| 0 <= i < prev.len() && #[trigger] prev[i] == b as usize;
                    assert(prev.push((k - 1) as usize)[i] == b as usize);
                }
                if b as usize == (k - 1) as usize {
                    assert(prev.push((k - 1) as usize)[prev.len() as int] == b as usize);
                }
            }
        }
    }
}

/// The graph of a program is well formed: its blocks cut the instructions
/// into consecutive non-empty runs starting at instruction 0 and ending at
/// the last one (no blocks for no instructions); every instruction that
/// starts a block (the entry, a jump target, the one after a branch or a
/// halt) starts one; successor lists hold no block twice; `b` is a
/// predecessor of `c` exactly when `c` is a successor of `b`; and a block is
/// marked reachable exactly when a path of edges leads to it from block 0.
pub proof fn control_flow_graphs_are_consistent(f: ControlFlow, ops: Seq<Op>)
    requires
        describes(f, ops),
    ensures
        ({
            let blocks = f.blocks@;
            let succ = Seq::new(f.successors@.len(), |i: int| f.successors@[i]@);
            &&& ops.len() == 0 <==> blocks.len() == 0
            &&& ops.len() > 0 ==> blocks[0].start == 0 && blocks[blocks.len() - 1].end == ops.len()
            &&& forall|b: int| 0 <= b < blocks.len() ==> #[trigger] blocks[b].start < blocks[b].end
            &&& forall|b: int| 0 <= b < blocks.len() - 1 ==> #[trigger] blocks[b].end == blocks[b + 1].start
            &&& forall|pc: int| #[trigger] is_leader(ops, pc) ==> exists|b: int| 0 <= b < blocks.len() && #[trigger] blocks[b].start == pc
            &&& forall|b: int| 0 <= b < blocks.len() ==> distinct(#[trigger] f.successors@[b]@)
            &&& forall|b: int, c: int|
                0 <= b < blocks.len() && 0 <= c < blocks.len() ==> (#[trigger] f.predecessors@[c]@.contains(b as usize)
                    <==> #[trigger] f.successors@[b]@.contains(c as usize))
            &&& forall|b: int| 0 <= b < blocks.len() ==> (#[trigger] f.reachable@[b] <==> reaches(succ, b as usize))
        }),
{
    let blocks = f.blocks@;
    let succ = Seq::new(f.successors@.len(), |i: int| f.successors@[i]@);
    assert forall|pc: int| #[trigger] is_leader(ops, pc) implies exists|b: int| 0 <= b < blocks.len() && #[trigger] blocks[b].start == pc by {
        lemma_block_of_valid(blocks, ops, pc);
        let b = block_of(blocks, pc);
        assert(blocks[b].start == pc);
    }
    assert forall|b: int| 0 <= b < blocks.len() implies distinct(#[trigger] f.successors@[b]@) by {
        assert(succ[b] == f.successors@[b]@);
    }
    if blocks.len() > 0 {
        lemma_block_starts_grow(blocks, ops, blocks.len() - 1);
    }
    assert forall|b: int, c: int|
        0 <= b < blocks.len() && 0 <= c < blocks.len() implies (#[trigger] f.predecessors@[c]@.contains(b as usize)
            <==> #[trigger] f.successors@[b]@.contains(c as usize)) by {
        assert(f.predecessors@[c]@ == predecessors_upto(succ, c as usize, blocks.len() as int));
        lemma_predecessors_upto(succ, c as usize, blocks.len() as int, b);
        assert(succ[b] == f.successors@[b]@);
    }
}

} // verus!
