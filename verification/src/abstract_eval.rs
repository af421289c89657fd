//! A small abstract interpreter over register bytecode, used to find the
//! slot loads an expression can reach through its short-circuit branches.

use crate::bytecode::{ChunkModel, ExprChunkRef, ExprOp};
use crate::loads::{Load, LoadSet};
use crate::value::{lemma_view_items, BinaryOp, Builtin, Datum, UnaryOp, Value};
use std::collections::VecDeque;
use vstd::prelude::*;

verus! {

/// What is known about a register.
#[derive(Debug, Clone, Copy, PartialEq, Eq, Structural)]
pub enum AbstractValue {
    /// A boolean, with its value when known.
    Boolean(Option<bool>),
    /// Some value that is not a boolean.
    NonBoolean,
    /// Nothing is known.
    Unknown,
}

/// A register's value, `Unknown` when the register does not exist.
pub open spec fn read_model(registers: Seq<AbstractValue>, register: nat) -> AbstractValue {
    if register < registers.len() {
        registers[register as int]
    } else {
        AbstractValue::Unknown
    }
}

/// The registers after writing `value`; a missing register is ignored.
pub open spec fn write_model(registers: Seq<AbstractValue>, register: nat, value: AbstractValue) -> Seq<AbstractValue> {
    if register < registers.len() {
        registers.update(register as int, value)
    } else {
        registers
    }
}

/// What a constant of the pool is known to be.
pub open spec fn constant_value(constants: Seq<Datum>, index: nat) -> AbstractValue {
    if index < constants.len() {
        match constants[index as int] {
            Datum::Boolean(b) => AbstractValue::Boolean(Some(b)),
            _ => AbstractValue::NonBoolean,
        }
    } else {
        AbstractValue::Unknown
    }
}

/// The result of a unary operator, or `None` when it always fails.
pub open spec fn unary_value(op: UnaryOp, source: AbstractValue) -> Option<AbstractValue> {
    match (op, source) {
        (UnaryOp::Not, AbstractValue::Boolean(Some(b))) => Some(AbstractValue::Boolean(Some(!b))),
        (UnaryOp::Not, AbstractValue::NonBoolean) => None,
        (UnaryOp::Negate, AbstractValue::Boolean(_)) => None,
        (UnaryOp::Not, _) => Some(AbstractValue::Boolean(None)),
        (UnaryOp::Negate, _) => Some(AbstractValue::NonBoolean),
    }
}

pub open spec fn binary_value(op: BinaryOp) -> AbstractValue {
    match op {
        BinaryOp::Add | BinaryOp::Subtract | BinaryOp::Multiply | BinaryOp::Divide => AbstractValue::NonBoolean,
        _ => AbstractValue::Boolean(None),
    }
}

pub open spec fn call_value(function: Builtin) -> AbstractValue {
    match function {
        Builtin::Contains | Builtin::Chance => AbstractValue::Boolean(None),
        Builtin::Get => AbstractValue::Unknown,
        _ => AbstractValue::NonBoolean,
    }
}

/// The load instruction `op` performs, if any.
pub open spec fn load_of(op: ExprOp) -> Option<Load> {
    match op {
        ExprOp::Load { slot, column, .. } => Some((slot, column as usize)),
        _ => None,
    }
}

/// The successor positions of instruction `pc` with the register states
/// they are entered with.
pub open spec fn step_model(m: ChunkModel, pc: nat, registers: Seq<AbstractValue>) -> Seq<(usize, Seq<AbstractValue>)> {
    let next = (pc + 1) as usize;
    match m.ops[pc as int] {
        ExprOp::Const { dst, constant } => seq![
            (next, write_model(registers, dst as nat, constant_value(m.constants, constant as nat))),
        ],
        ExprOp::Load { dst, .. } => seq![(next, write_model(registers, dst as nat, AbstractValue::Unknown))],
        ExprOp::Unary { dst, op, source } => match unary_value(op, read_model(registers, source as nat)) {
            None => Seq::empty(),
            Some(v) => seq![(next, write_model(registers, dst as nat, v))],
        },
        ExprOp::Binary { dst, op, .. } => seq![(next, write_model(registers, dst as nat, binary_value(op)))],
        ExprOp::Call { dst, function, .. } => seq![(next, write_model(registers, dst as nat, call_value(function)))],
        ExprOp::Random { dst, .. } | ExprOp::Concat { dst, .. } => seq![
            (next, write_model(registers, dst as nat, AbstractValue::NonBoolean)),
        ],
        ExprOp::Chance { dst, .. } => seq![(next, write_model(registers, dst as nat, AbstractValue::Boolean(None)))],
        ExprOp::JumpIfFalse { condition, target } => jump_model(false, read_model(registers, condition as nat), target as usize, next, registers),
        ExprOp::JumpIfTrue { condition, target } => jump_model(true, read_model(registers, condition as nat), target as usize, next, registers),
    }
}

/// A conditional jump taken when the condition is `jump_on`.
pub open spec fn jump_model(jump_on: bool, condition: AbstractValue, target: usize, next: usize, registers: Seq<AbstractValue>) -> Seq<(usize, Seq<AbstractValue>)> {
    match condition {
        AbstractValue::Boolean(Some(b)) => if b == jump_on {
            seq![(target, registers)]
        } else {
            seq![(next, registers)]
        },
        AbstractValue::NonBoolean => seq![(next, registers)],
        _ => seq![(target, registers), (next, registers)],
    }
}

/// A conditional jump follows its condition: a known boolean takes exactly
/// one way (the jump when it equals the instruction's jump value), a
/// non-boolean falls through, and an unknown condition takes both ways, jump
/// first. The registers pass through unchanged.
pub proof fn conditional_jumps_follow_their_condition(m: ChunkModel, pc: nat, registers: Seq<AbstractValue>)
    requires
        pc < m.ops.len(),
        m.ops[pc as int] is JumpIfFalse || m.ops[pc as int] is JumpIfTrue,
    ensures
        ({
            let (condition, target, jump_on) = match m.ops[pc as int] {
                ExprOp::JumpIfTrue { condition, target } => (condition, target, true),
                ExprOp::JumpIfFalse { condition, target } => (condition, target, false),
                _ => (0u16, 0u32, false),
            };
            let v = read_model(registers, condition as nat);
            let out = step_model(m, pc, registers);
            let next = (pc + 1) as usize;
            &&& v == AbstractValue::Boolean(Some(jump_on)) ==> out == seq![(target as usize, registers)]
            &&& (v == AbstractValue::Boolean(Some(!jump_on)) || v == AbstractValue::NonBoolean) ==> out == seq![
                (next, registers),
            ]
            &&& (v == AbstractValue::Boolean(None) || v == AbstractValue::Unknown) ==> out == seq![
                (target as usize, registers),
                (next, registers),
            ]
        }),
{
}

pub open spec fn state_views(out: Seq<(usize, Vec<AbstractValue>)>) -> Seq<(usize, Seq<AbstractValue>)> {
    Seq::new(out.len(), |i: int| (out[i].0, out[i].1@))
}

fn read_register(registers: &Vec<AbstractValue>, register: u16) -> (r: AbstractValue)
    ensures
        r == read_model(registers@, register as nat),
{
    if (register as usize) < registers.len() {
        registers[register as usize]
    } else {
        AbstractValue::Unknown
    }
}

fn write_register(registers: &mut Vec<AbstractValue>, register: u16, value: AbstractValue)
    ensures
        final(registers)@ == write_model(old(registers)@, register as nat, value),
{
    if (register as usize) < registers.len() {
        registers.set(register as usize, value);
    }
}

/// Interprets instruction `pc` abstractly, recording the load it performs.
pub fn abstract_step(chunk: &ExprChunkRef<'_>, pc: usize, registers: Vec<AbstractValue>, loads: &mut LoadSet) -> (r: Vec<(usize, Vec<AbstractValue>)>)
    requires
        pc < chunk.ops@.len(),
        load_of(chunk.ops@[pc as int]) is Some ==> !(*old(loads) is Uncomputed),
    ensures
        state_views(r@) == step_model(chunk.model(), pc as nat, registers@),
        match load_of(chunk.ops@[pc as int]) {
            Some(load) => !(*final(loads) is Uncomputed) && if old(loads).items().contains(load) {
                final(loads).items() == old(loads).items()
            } else {
                final(loads).items() == old(loads).items().push(load)
            },
            None => *final(loads) == *old(loads),
        },
{
    proof {
        lemma_view_items(chunk.constants@);
    }
    let ghost input = registers@;
    let mut registers = registers;
    let length = chunk.ops.len();
    assert(pc < length);
    let next = pc + 1;
    let mut out: Vec<(usize, Vec<AbstractValue>)> = Vec::new();
    match &chunk.ops[pc] {
        ExprOp::Const { dst, constant } => {
            let value = if (*constant as usize) < chunk.constants.len() {
                match &chunk.constants[*constant as usize] {
                    Value::Boolean(b) => AbstractValue::Boolean(Some(*b)),
                    _ => AbstractValue::NonBoolean,
                }
            } else {
                AbstractValue::Unknown
            };
            write_register(&mut registers, *dst, value);
        },
        ExprOp::Load { dst, slot, column } => {
            loads.insert((*slot, *column as usize));
            write_register(&mut registers, *dst, AbstractValue::Unknown);
        },
        ExprOp::Unary { dst, op, source } => {
            let source = read_register(&registers, *source);
            let result = match (op, source) {
                (UnaryOp::Not, AbstractValue::Boolean(Some(value))) => Some(AbstractValue::Boolean(Some(!value))),
                (UnaryOp::Not, AbstractValue::NonBoolean) => None,
                (UnaryOp::Negate, AbstractValue::Boolean(_)) => None,
                (UnaryOp::Not, _) => Some(AbstractValue::Boolean(None)),
                (UnaryOp::Negate, _) => Some(AbstractValue::NonBoolean),
            };
            match result {
                None => {
                    assert(state_views(out@) =~= Seq::<(usize, Seq<AbstractValue>)>::empty());
                    return out;
                },
                Some(value) => write_register(&mut registers, *dst, value),
            }
        },
        ExprOp::Binary { dst, op, .. } => {
            let value = match op {
                BinaryOp::Add | BinaryOp::Subtract | BinaryOp::Multiply | BinaryOp::Divide => AbstractValue::NonBoolean,
                _ => AbstractValue::Boolean(None),
            };
            write_register(&mut registers, *dst, value);
        },
        ExprOp::Call { dst, function, .. } => {
            let value = match function {
                Builtin::Contains | Builtin::Chance => AbstractValue::Boolean(None),
                Builtin::Get => AbstractValue::Unknown,
                _ => AbstractValue::NonBoolean,
            };
            write_register(&mut registers, *dst, value);
        },
        ExprOp::Random { dst, .. } | ExprOp::Concat { dst, .. } => {
            write_register(&mut registers, *dst, AbstractValue::NonBoolean);
        },
        ExprOp::Chance { dst, .. } => {
            write_register(&mut registers, *dst, AbstractValue::Boolean(None));
        },
        ExprOp::JumpIfFalse { condition, target } | ExprOp::JumpIfTrue { condition, target } => {
            let jump_on = match &chunk.ops[pc] {
                ExprOp::JumpIfTrue { .. } => true,
                _ => false,
            };
            let target = *target as usize;
            match read_register(&registers, *condition) {
                AbstractValue::Boolean(Some(value)) => {
                    if value == jump_on {
                        out.push((target, registers));
                    } else {
                        out.push((next, registers));
                    }
                },
                AbstractValue::NonBoolean => {
                    out.push((next, registers));
                },
                _ => {
                    let copy = copy_registers(&registers);
                    out.push((target, copy));
                    out.push((next, registers));
                },
            }
            assert(state_views(out@) =~= step_model(chunk.model(), pc as nat, input));
            return out;
        },
    }
    out.push((next, registers));
    assert(state_views(out@) =~= step_model(chunk.model(), pc as nat, input));
    out
}

fn copy_registers(registers: &Vec<AbstractValue>) -> (r: Vec<AbstractValue>)
    ensures
        r@ == registers@,
{
    let mut copy: Vec<AbstractValue> = Vec::new();
    let mut i: usize = 0;
    while i < registers.len()
        invariant
            i <= registers@.len(),
            copy@ == registers@.subrange(0, i as int),
        decreases registers@.len() - i,
    {
        copy.push(registers[i]);
        i = i + 1;
        assert(copy@ =~= registers@.subrange(0, i as int));
    }
    assert(copy@ =~= registers@);
    copy
}


// ---------------------------------------------------------------------------
// Merging states at join points
// ---------------------------------------------------------------------------

/// What is known of a register on either of two paths.
pub open spec fn merge_value_model(left: AbstractValue, right: AbstractValue) -> AbstractValue {
    match (left, right) {
        (AbstractValue::Boolean(Some(a)), AbstractValue::Boolean(Some(b))) => if a == b {
            AbstractValue::Boolean(Some(a))
        } else {
            AbstractValue::Boolean(None)
        },
        (AbstractValue::Boolean(_), AbstractValue::Boolean(_)) => AbstractValue::Boolean(None),
        (AbstractValue::NonBoolean, AbstractValue::NonBoolean) => AbstractValue::NonBoolean,
        _ => AbstractValue::Unknown,
    }
}

/// The state at a position after another path arrives with `incoming`.
pub open spec fn merge_model(current: Option<Seq<AbstractValue>>, incoming: Seq<AbstractValue>) -> Option<Seq<AbstractValue>> {
    match current {
        None => Some(incoming),
        Some(c) => Some(
            Seq::new(
                c.len(),
                |i: int|
                    if i < incoming.len() {
                        merge_value_model(c[i], incoming[i])
                    } else {
                        c[i]
                    },
            ),
        ),
    }
}

pub open spec fn slot_view(state: Option<Vec<AbstractValue>>) -> Option<Seq<AbstractValue>> {
    match state {
        Some(v) => Some(v@),
        None => None,
    }
}

pub open spec fn slots_view(states: Seq<Option<Vec<AbstractValue>>>) -> Seq<Option<Seq<AbstractValue>>> {
    Seq::new(states.len(), |i: int| slot_view(states[i]))
}

fn merge_value(left: AbstractValue, right: AbstractValue) -> (r: AbstractValue)
    ensures
        r == merge_value_model(left, right),
{
    match (left, right) {
        (AbstractValue::Boolean(Some(a)), AbstractValue::Boolean(Some(b))) => {
            if a == b {
                AbstractValue::Boolean(Some(a))
            } else {
                AbstractValue::Boolean(None)
            }
        },
        (AbstractValue::Boolean(_), AbstractValue::Boolean(_)) => AbstractValue::Boolean(None),
        (AbstractValue::NonBoolean, AbstractValue::NonBoolean) => AbstractValue::NonBoolean,
        _ => AbstractValue::Unknown,
    }
}

/// Merges `incoming` into `state`, reporting whether it changed.
fn merge_state(state: &mut Option<Vec<AbstractValue>>, incoming: Vec<AbstractValue>) -> (changed: bool)
    ensures
        slot_view(*final(state)) == merge_model(slot_view(*old(state)), incoming@),
        changed == (slot_view(*final(state)) != slot_view(*old(state))),
{
    let taken = state.take();
    match taken {
        None => {
            *state = Some(incoming);
            true
        },
        Some(mut current) => {
            let ghost before = current@;
            let mut changed = false;
            let n = if current.len() < incoming.len() { current.len() } else { incoming.len() };
            let mut i: usize = 0;
            while i < n
                invariant
                    n <= before.len(),
                    n <= incoming@.len(),
                    n == (if before.len() < incoming@.len() { before.len() } else { incoming@.len() }),
                    i <= n,
                    current@.len() == before.len(),
                    forall|j: int| 0 <= j < i ==> #[trigger] current@[j] == merge_value_model(before[j], incoming@[j]),
                    forall|j: int| i <= j < current@.len() ==> #[trigger] current@[j] == before[j],
                    changed == exists|j: int| 0 <= j < i && #[trigger] current@[j] != before[j],
                decreases n - i,
            {
                let merged = merge_value(current[i], incoming[i]);
                if merged != current[i] {
                    current.set(i, merged);
                    changed = true;
                    assert(current@[i as int] != before[i as int]);
                } else {
                    proof {
                        if exists|j: int| 0 <= j < i + 1 && #[trigger] current@[j] != before[j] {
                            let j = choose|j: int| 0 <= j < i + 1 && #[trigger] current@[j] != before[j];
                            assert(j < i);
                        }
                    }
                }
                i = i + 1;
            }
            proof {
                let expected = merge_model(Some(before), incoming@)->0;
                assert(expected =~= current@);
                if !changed {
                    assert(current@ =~= before);
                } else {
                    let j = choose|j: int| 0 <= j < i && #[trigger] current@[j] != before[j];
                    assert(current@[j] != before[j]);
                }
            }
            *state = Some(current);
            changed
        },
    }
}

// ---------------------------------------------------------------------------
// Termination measure of the worklist
// ---------------------------------------------------------------------------

/// How far a register's knowledge can still be weakened.
pub open spec fn height(v: AbstractValue) -> nat {
    match v {
        AbstractValue::Boolean(Some(_)) => 2,
        AbstractValue::Boolean(None) | AbstractValue::NonBoolean => 1,
        AbstractValue::Unknown => 0,
    }
}

pub open spec fn seq_height(s: Seq<AbstractValue>) -> nat
    decreases s.len(),
{
    if s.len() == 0 {
        0
    } else {
        seq_height(s.drop_last()) + height(s.last())
    }
}

pub open spec fn slot_potential(state: Option<Seq<AbstractValue>>, r: nat) -> nat {
    match state {
        None => 2 * r + 1,
        Some(s) => seq_height(s),
    }
}

pub open spec fn potential(states: Seq<Option<Seq<AbstractValue>>>, r: nat) -> nat
    decreases states.len(),
{
    if states.len() == 0 {
        0
    } else {
        potential(states.drop_last(), r) + slot_potential(states.last(), r)
    }
}

proof fn lemma_seq_height_bound(s: Seq<AbstractValue>)
    ensures
        seq_height(s) <= 2 * s.len(),
    decreases s.len(),
{
    if s.len() > 0 {
        lemma_seq_height_bound(s.drop_last());
    }
}

proof fn lemma_potential_update(states: Seq<Option<Seq<AbstractValue>>>, r: nat, i: int, x: Option<Seq<AbstractValue>>)
    requires
        0 <= i < states.len(),
    ensures
        potential(states.update(i, x), r) + slot_potential(states[i], r) == potential(states, r) + slot_potential(x, r),
    decreases states.len(),
{
    if i < states.len() - 1 {
        lemma_potential_update(states.drop_last(), r, i, x);
        assert(states.update(i, x).drop_last() =~= states.drop_last().update(i, x));
    } else {
        assert(states.update(i, x).drop_last() =~= states.drop_last());
    }
}

proof fn lemma_merge_value_lowers(l: AbstractValue, r: AbstractValue)
    ensures
        height(merge_value_model(l, r)) <= height(l),
        merge_value_model(l, r) != l ==> height(merge_value_model(l, r)) < height(l),
{
}

proof fn lemma_seq_height_pointwise(a: Seq<AbstractValue>, b: Seq<AbstractValue>)
    requires
        a.len() == b.len(),
        forall|i: int| 0 <= i < a.len() ==> height(#[trigger] a[i]) <= height(b[i]),
    ensures
        seq_height(a) <= seq_height(b),
        seq_height(a) == seq_height(b) ==> forall|i: int| 0 <= i < a.len() ==> height(#[trigger] a[i]) == height(b[i]),
    decreases a.len(),
{
    if a.len() > 0 {
        lemma_seq_height_pointwise(a.drop_last(), b.drop_last());
        assert forall|i: int| 0 <= i < a.len() - 1 implies height(#[trigger] a.drop_last()[i]) <= height(b.drop_last()[i]) by {
            assert(a.drop_last()[i] == a[i]);
        }
        if seq_height(a) == seq_height(b) {
            assert forall|i: int| 0 <= i < a.len() implies height(#[trigger] a[i]) == height(b[i]) by {
                if i < a.len() - 1 {
                    assert(a.drop_last()[i] == a[i] && b.drop_last()[i] == b[i]);
                }
            }
        }
    }
}

/// A changed merge strictly lowers the potential of the merged slot.
proof fn lemma_merge_lowers(current: Option<Seq<AbstractValue>>, incoming: Seq<AbstractValue>, r: nat)
    requires
        incoming.len() == r,
        current matches Some(c) ==> c.len() == r,
    ensures
        slot_potential(merge_model(current, incoming), r) <= slot_potential(current, r),
        merge_model(current, incoming) != current ==> slot_potential(merge_model(current, incoming), r)
            < slot_potential(current, r),
{
    lemma_seq_height_bound(incoming);
    if let Some(c) = current {
        let m = merge_model(current, incoming)->0;
        assert forall|i: int| 0 <= i < m.len() implies height(#[trigger] m[i]) <= height(c[i]) by {
            lemma_merge_value_lowers(c[i], incoming[i]);
        }
        lemma_seq_height_pointwise(m, c);
        if m != c {
            if seq_height(m) == seq_height(c) {
                assert(m =~= c) by {
                    assert forall|i: int| 0 <= i < m.len() implies m[i] == c[i] by {
                        lemma_merge_value_lowers(c[i], incoming[i]);
                        assert(height(m[i]) == height(c[i]));
                    }
                }
            }
        }
    }
}

// ---------------------------------------------------------------------------
// Laws of the merge
// ---------------------------------------------------------------------------

/// Merging is idempotent, commutative and associative on register values.
pub proof fn merge_value_is_a_join(a: AbstractValue, b: AbstractValue, c: AbstractValue)
    ensures
        merge_value_model(a, a) == a,
        merge_value_model(a, b) == merge_value_model(b, a),
        merge_value_model(merge_value_model(a, b), c) == merge_value_model(a, merge_value_model(b, c)),
{
}

/// Once a state has absorbed `out`, it still absorbs it after merging in
/// any further state of the same width.
proof fn lemma_absorbs_after_merge(state: Seq<AbstractValue>, out: Seq<AbstractValue>, more: Seq<AbstractValue>)
    requires
        state.len() == out.len(),
        state.len() == more.len(),
        merge_model(Some(state), out) == Some(state),
    ensures
        merge_model(merge_model(Some(state), more), out) == merge_model(Some(state), more),
{
    let merged = merge_model(Some(state), more)->0;
    assert forall|i: int| 0 <= i < merged.len() implies merge_value_model(merged[i], out[i]) == merged[i] by {
        merge_value_is_a_join(state[i], more[i], out[i]);
        assert(merge_model(Some(state), out)->0[i] == state[i]);
    }
    assert(merge_model(Some(merged), out)->0 =~= merged);
}


// ---------------------------------------------------------------------------
// The worklist
// ---------------------------------------------------------------------------

/// Reusable state of the worklist: the register state known at each
/// position, the positions waiting to be revisited, and which are waiting.
pub struct ExpressionWorkspace {
    states: Vec<Option<Vec<AbstractValue>>>,
    pending: VecDeque<usize>,
    queued: Vec<bool>,
}

/// Every register unknown.
pub open spec fn unknown_registers(r: nat) -> Seq<AbstractValue> {
    Seq::new(r, |i: int| AbstractValue::Unknown)
}

/// Every path leaving position `pc` arrives at a state that already
/// accounts for it.
pub open spec fn closed_at(m: ChunkModel, states: Seq<Option<Seq<AbstractValue>>>, pc: int) -> bool {
    states[pc] matches Some(s) ==> forall|k: int|
        0 <= k < step_model(m, pc as nat, s).len() ==> {
            let (n, out) = #[trigger] step_model(m, pc as nat, s)[k];
            n <= m.ops.len() ==> {
                &&& states[n as int] is Some
                &&& merge_model(states[n as int], out) == states[n as int]
            }
        }
}

/// The loads at the positions the walk reached.
pub open spec fn reached_load(m: ChunkModel, states: Seq<Option<Seq<AbstractValue>>>, x: Load) -> bool {
    exists|pc: int| 0 <= pc < m.ops.len() && states[pc] is Some && load_of(m.ops[pc]) == Some(x)
}

impl ExpressionWorkspace {
    /// The register states known at each position.
    pub closed spec fn states(&self) -> Seq<Option<Seq<AbstractValue>>> {
        slots_view(self.states@)
    }

    /// Nothing is known, waiting or marked: every buffer is empty.
    pub closed spec fn is_clear(&self) -> bool {
        &&& self.states@.len() == 0
        &&& self.pending@.len() == 0
        &&& self.queued@.len() == 0
    }

    /// An empty workspace.
    pub fn new() -> (r: ExpressionWorkspace)
        ensures
            r.is_clear(),
            r.states() == Seq::<Option<Seq<AbstractValue>>>::empty(),
    {
        let r = ExpressionWorkspace { states: Vec::new(), pending: VecDeque::new(), queued: Vec::new() };
        assert(slots_view(r.states@) =~= Seq::<Option<Seq<AbstractValue>>>::empty());
        r
    }

    fn reset(&mut self, op_count: usize)
        requires
            op_count < usize::MAX,
        ensures
            final(self).states@.len() == op_count + 1,
            forall|i: int| 0 <= i <= op_count ==> #[trigger] final(self).states@[i] is None,
            final(self).pending@.len() == 0,
            final(self).queued@.len() == op_count + 1,
            forall|i: int| 0 <= i <= op_count ==> !#[trigger] final(self).queued@[i],
    {
        self.states.clear();
        self.queued.clear();
        self.pending.clear();
        let mut i: usize = 0;
        while i <= op_count
            invariant
                op_count < usize::MAX,
                i <= op_count + 1,
                self.states@.len() == i,
                self.queued@.len() == i,
                self.pending@.len() == 0,
                forall|j: int| 0 <= j < i ==> #[trigger] self.states@[j] is None,
                forall|j: int| 0 <= j < i ==> !#[trigger] self.queued@[j],
            decreases op_count + 1 - i,
        {
            self.states.push(None);
            self.queued.push(false);
            i = i + 1;
        }
    }
}

proof fn lemma_step_widths(m: ChunkModel, pc: nat, s: Seq<AbstractValue>)
    requires
        pc < m.ops.len(),
    ensures
        forall|k: int| 0 <= k < step_model(m, pc, s).len() ==> (#[trigger] step_model(m, pc, s)[k]).1.len() == s.len(),
{
}

proof fn lemma_merge_absorbs(current: Option<Seq<AbstractValue>>, out: Seq<AbstractValue>)
    requires
        current matches Some(c) ==> c.len() == out.len(),
    ensures
        merge_model(merge_model(current, out), out) == merge_model(current, out),
{
    let merged = merge_model(current, out)->0;
    assert forall|i: int| 0 <= i < merged.len() implies merge_value_model(merged[i], out[i]) == merged[i] by {
        if let Some(c) = current {
            merge_value_is_a_join(c[i], out[i], out[i]);
        } else {
            merge_value_is_a_join(out[i], out[i], out[i]);
        }
    }
    assert(merge_model(Some(merged), out)->0 =~= merged);
}

/// The worklist's bookkeeping is consistent: each waiting position is
/// queued once, and `queued` marks exactly the waiting positions.
pub open spec fn queue_ok(pending: Seq<usize>, queued: Seq<bool>, states: Seq<Option<Seq<AbstractValue>>>, n: nat) -> bool {
    &&& queued.len() == n + 1
    &&& forall|a: int, b: int| 0 <= a < b < pending.len() ==> #[trigger] pending[a] != #[trigger] pending[b]
    &&& forall|k: int| 0 <= k < pending.len() ==> #[trigger] pending[k] <= n && states[pending[k] as int] is Some
    &&& forall|i: int| 0 <= i <= n ==> (#[trigger] queued[i] <==> pending.contains(i as usize))
}

/// Every state has the chunk's register width.
pub open spec fn widths_ok(states: Seq<Option<Seq<AbstractValue>>>, r: nat) -> bool {
    forall|i: int| 0 <= i < states.len() ==> (#[trigger] states[i] matches Some(s) ==> s.len() == r)
}

/// Every reached position is waiting or was processed and is closed.
pub open spec fn progress_ok(m: ChunkModel, states: Seq<Option<Seq<AbstractValue>>>, queued: Seq<bool>, processed: Seq<bool>) -> bool {
    &&& forall|i: int|
        0 <= i < m.ops.len() && #[trigger] states[i] is Some ==> queued[i] || (processed[i] && closed_at(m, states, i))
    &&& forall|i: int| 0 <= i < m.ops.len() && #[trigger] processed[i] ==> states[i] is Some
}

/// After `S[t]` absorbs `out`, every processed position stays closed, except
/// possibly `t` itself.
proof fn lemma_closed_after_merge(m: ChunkModel, states: Seq<Option<Seq<AbstractValue>>>, t: int, out: Seq<AbstractValue>, r: nat, i: int)
    requires
        states.len() == m.ops.len() + 1,
        widths_ok(states, r),
        out.len() == r,
        0 <= t < states.len(),
        0 <= i < m.ops.len(),
        i != t,
        closed_at(m, states, i),
    ensures
        closed_at(m, states.update(t, merge_model(states[t], out)), i),
{
    let after = states.update(t, merge_model(states[t], out));
    if let Some(s) = states[i] {
        assert(after[i] == states[i]);
        assert forall|k: int| 0 <= k < step_model(m, i as nat, s).len() implies {
            let (nx, o) = #[trigger] step_model(m, i as nat, s)[k];
            nx <= m.ops.len() ==> {
                &&& after[nx as int] is Some
                &&& merge_model(after[nx as int], o) == after[nx as int]
            }
        } by {
            let (nx, o) = step_model(m, i as nat, s)[k];
            lemma_step_widths(m, i as nat, s);
            if nx <= m.ops.len() && nx as int == t {
                let st = states[t]->0;
                lemma_absorbs_after_merge(st, o, out);
            }
        }
    }
}

// ---------------------------------------------------------------------------
// The least solution
// ---------------------------------------------------------------------------

/// `a` carries at least as much knowledge as `b`: joining `a` into `b`
/// leaves `b` unchanged.
pub open spec fn value_below(a: AbstractValue, b: AbstractValue) -> bool {
    merge_value_model(b, a) == b
}

/// `x` is below `y` register by register; an unreached position is below
/// everything.
pub open spec fn state_below(x: Option<Seq<AbstractValue>>, y: Option<Seq<AbstractValue>>) -> bool {
    match x {
        None => true,
        Some(a) => match y {
            None => false,
            Some(b) => a.len() == b.len() && forall|i: int| 0 <= i < a.len() ==> value_below(#[trigger] a[i], b[i]),
        },
    }
}

/// Position by position, `s` is below `t`.
pub open spec fn states_below(s: Seq<Option<Seq<AbstractValue>>>, t: Seq<Option<Seq<AbstractValue>>>) -> bool {
    &&& s.len() == t.len()
    &&& forall|i: int| 0 <= i < s.len() ==> state_below(#[trigger] s[i], t[i])
}

/// A consistent assignment of register states to the positions of a chunk:
/// the entry starts with every register unknown, and every step from a
/// reached position is accounted for where it arrives.
pub open spec fn solution(m: ChunkModel, t: Seq<Option<Seq<AbstractValue>>>) -> bool {
    &&& t.len() == m.ops.len() + 1
    &&& t[0] == Some(unknown_registers(m.registers))
    &&& widths_ok(t, m.registers)
    &&& forall|pc: int| 0 <= pc < m.ops.len() ==> closed_at(m, t, pc)
}

/// The solution below every other one.
pub open spec fn least_solution(m: ChunkModel, s: Seq<Option<Seq<AbstractValue>>>) -> bool {
    &&& solution(m, s)
    &&& forall|t: Seq<Option<Seq<AbstractValue>>>| #[trigger] solution(m, t) ==> states_below(s, t)
}

/// The register states the abstract walk of a chunk reaches: its least
/// solution.
pub open spec fn abstract_states(m: ChunkModel) -> Seq<Option<Seq<AbstractValue>>> {
    choose|s: Seq<Option<Seq<AbstractValue>>>| least_solution(m, s)
}

/// The loads a chunk can reach, sorted by slot and column.
pub open spec fn chunk_loads(m: ChunkModel) -> Seq<Load> {
    choose|s: Seq<Load>|
        crate::loads::strictly_sorted(s) && forall|x: Load| s.contains(x) <==> reached_load(m, abstract_states(m), x)
}

proof fn lemma_value_order(a: AbstractValue, b: AbstractValue, c: AbstractValue)
    ensures
        value_below(a, a),
        value_below(a, b) && value_below(b, c) ==> value_below(a, c),
        value_below(a, b) && value_below(b, a) ==> a == b,
        value_below(a, c) && value_below(b, c) ==> value_below(merge_value_model(a, b), c),
{
}

proof fn lemma_read_monotone(a: Seq<AbstractValue>, b: Seq<AbstractValue>, r: nat)
    requires
        state_below(Some(a), Some(b)),
    ensures
        value_below(read_model(a, r), read_model(b, r)),
{
    if r >= a.len() {
        lemma_value_order(AbstractValue::Unknown, AbstractValue::Unknown, AbstractValue::Unknown);
    }
}

proof fn lemma_write_monotone(a: Seq<AbstractValue>, b: Seq<AbstractValue>, r: nat, x: AbstractValue, y: AbstractValue)
    requires
        state_below(Some(a), Some(b)),
        value_below(x, y),
    ensures
        state_below(Some(write_model(a, r, x)), Some(write_model(b, r, y))),
{
}

/// Each step from a lower state is matched by a step from a higher state to
/// the same position with a higher state.
proof fn lemma_step_monotone(m: ChunkModel, pc: nat, a: Seq<AbstractValue>, b: Seq<AbstractValue>, k: int) -> (j: int)
    requires
        pc < m.ops.len(),
        state_below(Some(a), Some(b)),
        0 <= k < step_model(m, pc, a).len(),
    ensures
        0 <= j < step_model(m, pc, b).len(),
        step_model(m, pc, b)[j].0 == step_model(m, pc, a)[k].0,
        state_below(Some(step_model(m, pc, a)[k].1), Some(step_model(m, pc, b)[j].1)),
{
    let next = (pc + 1) as usize;
    match m.ops[pc as int] {
        ExprOp::Const { dst, constant } => {
            let v = constant_value(m.constants, constant as nat);
            lemma_value_order(v, v, v);
            lemma_write_monotone(a, b, dst as nat, v, v);
            0
        },
        ExprOp::Load { dst, .. } => {
            lemma_value_order(AbstractValue::Unknown, AbstractValue::Unknown, AbstractValue::Unknown);
            lemma_write_monotone(a, b, dst as nat, AbstractValue::Unknown, AbstractValue::Unknown);
            0
        },
        ExprOp::Unary { dst, op, source } => {
            let va = read_model(a, source as nat);
            let vb = read_model(b, source as nat);
            lemma_read_monotone(a, b, source as nat);
            let x = unary_value(op, va)->0;
            let y = unary_value(op, vb)->0;
            assert(unary_value(op, vb) is Some && value_below(x, y));
            lemma_write_monotone(a, b, dst as nat, x, y);
            0
        },
        ExprOp::Binary { dst, op, .. } => {
            let v = binary_value(op);
            lemma_value_order(v, v, v);
            lemma_write_monotone(a, b, dst as nat, v, v);
            0
        },
        ExprOp::Call { dst, function, .. } => {
            let v = call_value(function);
            lemma_value_order(v, v, v);
            lemma_write_monotone(a, b, dst as nat, v, v);
            0
        },
        ExprOp::Random { dst, .. } | ExprOp::Concat { dst, .. } => {
            let v = AbstractValue::NonBoolean;
            lemma_write_monotone(a, b, dst as nat, v, v);
            0
        },
        ExprOp::Chance { dst, .. } => {
            let v = AbstractValue::Boolean(None);
            lemma_write_monotone(a, b, dst as nat, v, v);
            0
        },
        ExprOp::JumpIfFalse { condition, target } => {
            lemma_read_monotone(a, b, condition as nat);
            lemma_jump_monotone(false, read_model(a, condition as nat), read_model(b, condition as nat), target as usize, next, a, b, k)
        },
        ExprOp::JumpIfTrue { condition, target } => {
            lemma_read_monotone(a, b, condition as nat);
            lemma_jump_monotone(true, read_model(a, condition as nat), read_model(b, condition as nat), target as usize, next, a, b, k)
        },
    }
}

proof fn lemma_jump_monotone(
    on: bool,
    ca: AbstractValue,
    cb: AbstractValue,
    target: usize,
    next: usize,
    a: Seq<AbstractValue>,
    b: Seq<AbstractValue>,
    k: int,
) -> (j: int)
    requires
        value_below(ca, cb),
        state_below(Some(a), Some(b)),
        0 <= k < jump_model(on, ca, target, next, a).len(),
    ensures
        0 <= j < jump_model(on, cb, target, next, b).len(),
        jump_model(on, cb, target, next, b)[j].0 == jump_model(on, ca, target, next, a)[k].0,
        state_below(Some(jump_model(on, ca, target, next, a)[k].1), Some(jump_model(on, cb, target, next, b)[j].1)),
{
    let la = jump_model(on, ca, target, next, a);
    let lb = jump_model(on, cb, target, next, b);
    if lb.len() == 1 {
        assert(ca == cb);
        0
    } else if la.len() == 2 {
        k
    } else if la[0].0 == target && (ca matches AbstractValue::Boolean(Some(v)) && v == on) {
        0
    } else {
        1
    }
}

/// A state absorbs `o` exactly when `o` is below it.
proof fn lemma_absorbed_below(c: Seq<AbstractValue>, o: Seq<AbstractValue>)
    requires
        c.len() == o.len(),
        merge_model(Some(c), o) == Some(c),
    ensures
        state_below(Some(o), Some(c)),
{
    assert forall|i: int| 0 <= i < o.len() implies value_below(#[trigger] o[i], c[i]) by {
        assert(merge_model(Some(c), o)->0[i] == c[i]);
    }
}

/// Joining two states below a third stays below it.
proof fn lemma_merge_below(c: Option<Seq<AbstractValue>>, o: Seq<AbstractValue>, top: Seq<AbstractValue>)
    requires
        state_below(c, Some(top)),
        state_below(Some(o), Some(top)),
    ensures
        state_below(merge_model(c, o), Some(top)),
{
    if let Some(cc) = c {
        let merged = merge_model(c, o)->0;
        assert forall|i: int| 0 <= i < merged.len() implies value_below(#[trigger] merged[i], top[i]) by {
            lemma_value_order(cc[i], o[i], top[i]);
        }
    }
}

/// Merging the result of a step from a state below a solution keeps the
/// states below that solution.
proof fn lemma_merge_stays_below(
    m: ChunkModel,
    t: Seq<Option<Seq<AbstractValue>>>,
    before: Seq<Option<Seq<AbstractValue>>>,
    pc: nat,
    s: Seq<AbstractValue>,
    k: int,
)
    requires
        solution(m, t),
        states_below(before, t),
        pc < m.ops.len(),
        state_below(Some(s), t[pc as int]),
        0 <= k < step_model(m, pc, s).len(),
        step_model(m, pc, s)[k].0 <= m.ops.len(),
    ensures
        states_below(
            before.update(
                step_model(m, pc, s)[k].0 as int,
                merge_model(before[step_model(m, pc, s)[k].0 as int], step_model(m, pc, s)[k].1),
            ),
            t,
        ),
{
    let (nx, o) = step_model(m, pc, s)[k];
    let tp = t[pc as int]->0;
    let j = lemma_step_monotone(m, pc, s, tp, k);
    let (nj, oj) = step_model(m, pc, tp)[j];
    assert(closed_at(m, t, pc as int));
    let tn = t[nx as int]->0;
    lemma_step_widths(m, pc, tp);
    assert(t[nx as int] is Some && merge_model(t[nx as int], oj) == t[nx as int]);
    lemma_absorbed_below(tn, oj);
    assert forall|i: int| 0 <= i < o.len() implies value_below(#[trigger] o[i], tn[i]) by {
        lemma_value_order(o[i], oj[i], tn[i]);
    }
    assert(state_below(before[nx as int], t[nx as int]));
    lemma_merge_below(before[nx as int], o, tn);
    let after = before.update(nx as int, merge_model(before[nx as int], o));
    assert forall|i: int| 0 <= i < after.len() implies state_below(#[trigger] after[i], t[i]) by {
        if i != nx as int {
            assert(after[i] == before[i]);
        }
    }
}

/// Two least solutions are the same.
proof fn lemma_least_unique(m: ChunkModel, s: Seq<Option<Seq<AbstractValue>>>, t: Seq<Option<Seq<AbstractValue>>>)
    requires
        least_solution(m, s),
        least_solution(m, t),
    ensures
        s == t,
{
    assert(states_below(s, t) && states_below(t, s));
    assert forall|i: int| 0 <= i < s.len() implies s[i] == t[i] by {
        assert(state_below(s[i], t[i]) && state_below(t[i], s[i]));
        if let Some(a) = s[i] {
            let b = t[i]->0;
            assert forall|r: int| 0 <= r < a.len() implies a[r] == b[r] by {
                lemma_value_order(a[r], b[r], b[r]);
            }
            assert(a =~= b);
        }
    }
    assert(s =~= t);
}

/// Two strictly sorted sequences with the same members are equal.
proof fn lemma_sorted_unique(a: Seq<Load>, b: Seq<Load>)
    requires
        crate::loads::strictly_sorted(a),
        crate::loads::strictly_sorted(b),
        forall|x: Load| a.contains(x) <==> b.contains(x),
    ensures
        a == b,
    decreases a.len(),
{
    if a.len() == 0 {
        if b.len() > 0 {
            assert(b.contains(b[0]));
        }
        assert(b =~= a);
    } else {
        assert(a.contains(a[0]));
        assert(b.len() > 0);
        assert(b.contains(b[0]));
        let i = choose|i: int| 0 <= i < a.len() && a[i] == b[0];
        let j = choose|j: int| 0 <= j < b.len() && b[j] == a[0];
        if i > 0 {
            assert(crate::loads::load_less(a[0], a[i]));
        }
        if j > 0 {
            assert(crate::loads::load_less(b[0], b[j]));
        }
        assert(a[0] == b[0]);
        let a1 = a.drop_first();
        let b1 = b.drop_first();
        assert forall|x: Load| a1.contains(x) <==> b1.contains(x) by {
            if a1.contains(x) {
                let p = choose|p: int| 0 <= p < a1.len() && a1[p] == x;
                assert(a[p + 1] == x);
                assert(crate::loads::load_less(a[0], a[p + 1]));
                assert(b.contains(x));
                let q = choose|q: int| 0 <= q < b.len() && b[q] == x;
                assert(q != 0);
                assert(b1[q - 1] == x);
            }
            if b1.contains(x) {
                let p = choose|p: int| 0 <= p < b1.len() && b1[p] == x;
                assert(b[p + 1] == x);
                assert(crate::loads::load_less(b[0], b[p + 1]));
                assert(a.contains(x));
                let q = choose|q: int| 0 <= q < a.len() && a[q] == x;
                assert(q != 0);
                assert(a1[q - 1] == x);
            }
        }
        lemma_sorted_unique(a1, b1);
        assert(a =~= seq![a[0]] + a1);
        assert(b =~= seq![b[0]] + b1);
    }
}

/// Returns the slot loads reachable through the chunk's short-circuit
/// branches, sorted and without repeats. The workspace is left holding the
/// register state reached at each position.
#[verifier::rlimit(80)]
pub fn reachable_loads(chunk: &ExprChunkRef<'_>, workspace: &mut ExpressionWorkspace) -> (r: LoadSet)
    requires
        chunk.ops@.len() < usize::MAX,
    ensures
        final(workspace).states().len() == chunk.ops@.len() + 1,
        final(workspace).states()[0] == Some(unknown_registers(chunk.registers as nat)),
        forall|pc: int| 0 <= pc < chunk.ops@.len() ==> closed_at(chunk.model(), final(workspace).states(), pc),
        !(r is Uncomputed),
        final(workspace).states() == abstract_states(chunk.model()),
        least_solution(chunk.model(), final(workspace).states()),
        r.items() == chunk_loads(chunk.model()),
        crate::loads::strictly_sorted(r.items()),
        forall|x: Load| r.items().contains(x) <==> reached_load(chunk.model(), final(workspace).states(), x),
{
    let ghost m = chunk.model();
    let n = chunk.ops.len();
    let width = chunk.registers as usize;
    let ghost rw = width as nat;
    let mut loads = LoadSet::new();
    workspace.reset(n);
    let mut start: Vec<AbstractValue> = Vec::new();
    let mut j: usize = 0;
    while j < width
        invariant
            j <= width,
            start@ == unknown_registers(j as nat),
        decreases width - j,
    {
        start.push(AbstractValue::Unknown);
        j = j + 1;
        assert(start@ =~= unknown_registers(j as nat));
    }
    let ghost empty_states = workspace.states@;
    workspace.states.set(0, Some(start));
    workspace.pending.push_back(0);
    workspace.queued.set(0, true);
    let ghost mut processed: Seq<bool> = Seq::new(n as nat, |i: int| false);
    proof {
        assert(workspace.states@ == empty_states.update(0, Some(start)));
        assert forall|i: int| 0 <= i < workspace.states@.len() implies (#[trigger] workspace.states()[i] matches Some(s) ==> s.len() == rw) by {
            if i != 0 {
                assert(workspace.states@[i] == empty_states[i]);
            }
        }
        assert(workspace.pending@ =~= seq![0usize]);
        assert forall|t: Seq<Option<Seq<AbstractValue>>>| #[trigger] solution(m, t) implies states_below(workspace.states(), t) by {
            assert forall|i: int| 0 <= i < workspace.states().len() implies state_below(#[trigger] workspace.states()[i], t[i]) by {
                if i == 0 {
                    assert forall|r: int| 0 <= r < rw implies value_below(#[trigger] unknown_registers(rw)[r], unknown_registers(rw)[r]) by {
                        lemma_value_order(AbstractValue::Unknown, AbstractValue::Unknown, AbstractValue::Unknown);
                    }
                } else {
                    assert(workspace.states@[i] == empty_states[i]);
                }
            }
        }
        assert forall|i: int| 0 <= i <= n implies (#[trigger] workspace.queued@[i] <==> workspace.pending@.contains(i as usize)) by {
            if i == 0 {
                assert(workspace.pending@[0] == 0);
            }
        }
        assert forall|x: Load| loads.items().contains(x) <==> exists|i: int| 0 <= i < n && #[trigger] processed[i] && load_of(m.ops[i]) == Some(x) by {
            assert(loads.items() =~= Seq::<Load>::empty());
        }
    }
    while workspace.pending.len() > 0
        invariant
            m == chunk.model(),
            n == m.ops.len(),
            n < usize::MAX,
            rw == m.registers,
            workspace.states@.len() == n + 1,
            processed.len() == n,
            widths_ok(workspace.states(), rw),
            workspace.states()[0] == Some(unknown_registers(rw)),
            queue_ok(workspace.pending@, workspace.queued@, workspace.states(), n as nat),
            progress_ok(m, workspace.states(), workspace.queued@, processed),
            !(loads is Uncomputed),
            forall|x: Load|
                loads.items().contains(x) <==> exists|i: int| 0 <= i < n && #[trigger] processed[i] && load_of(m.ops[i]) == Some(x),
            forall|t: Seq<Option<Seq<AbstractValue>>>| #[trigger] solution(m, t) ==> states_below(workspace.states(), t),
        decreases 2 * potential(workspace.states(), rw) + workspace.pending@.len(),
    {
        let ghost measure0 = 2 * potential(workspace.states(), rw) + workspace.pending@.len();
        let ghost pending0 = workspace.pending@;
        let ghost queued0 = workspace.queued@;
        let pc = match workspace.pending.pop_front() {
            Some(p) => p,
            None => 0,
        };
        assert(pending0[0] == pc && workspace.pending@ =~= pending0.drop_first());
        workspace.queued.set(pc, false);
        proof {
            assert forall|a: int, b: int| 0 <= a < b < workspace.pending@.len() implies #[trigger] workspace.pending@[a]
                != #[trigger] workspace.pending@[b] by {
                assert(pending0[a + 1] != pending0[b + 1]);
            }
            assert forall|k: int| 0 <= k < workspace.pending@.len() implies #[trigger] workspace.pending@[k] <= n
                && workspace.states()[workspace.pending@[k] as int] is Some by {
                assert(workspace.pending@[k] == pending0[k + 1]);
            }
            assert forall|i: int| 0 <= i <= n implies (#[trigger] workspace.queued@[i] <==> workspace.pending@.contains(
                i as usize,
            )) by {
                if i == pc as int {
                    if workspace.pending@.contains(i as usize) {
                        let k = choose|k: int| 0 <= k < workspace.pending@.len() && workspace.pending@[k] == i as usize;
                        assert(pending0[k + 1] == pending0[0]);
                    }
                } else {
                    assert(queued0[i] == workspace.queued@[i]);
                    if queued0[i] {
                        let k = choose|k: int| 0 <= k < pending0.len() && pending0[k] == i as usize;
                        assert(k != 0);
                        assert(workspace.pending@[k - 1] == i as usize);
                    }
                    if workspace.pending@.contains(i as usize) {
                        let k = choose|k: int| 0 <= k < workspace.pending@.len() && workspace.pending@[k] == i as usize;
                        assert(pending0[k + 1] == i as usize);
                    }
                }
            }
        }
        if pc < n {
            let ghost s = workspace.states()[pc as int]->0;
            assert forall|t: Seq<Option<Seq<AbstractValue>>>| #[trigger] solution(m, t) implies state_below(Some(s), t[pc as int]) by {
                assert(states_below(workspace.states(), t));
                assert(state_below(workspace.states()[pc as int], t[pc as int]));
            }
            let state = match &workspace.states[pc] {
                Some(v) => copy_registers(v),
                None => Vec::new(),
            };
            assert(state@ == s);
            let ghost old_items = loads.items();
            let ghost old_processed = processed;
            let mut successors = abstract_step(chunk, pc, state, &mut loads);
            let ghost steps = step_model(m, pc as nat, s);
            proof {
                lemma_step_widths(m, pc as nat, s);
                processed = processed.update(pc as int, true);
                assert(m.ops[pc as int] == chunk.ops@[pc as int]);
                assert forall|x: Load|
                    loads.items().contains(x) <==> exists|i: int| 0 <= i < n && #[trigger] processed[i] && load_of(m.ops[i]) == Some(x) by {
                    if loads.items().contains(x) {
                        if old_items.contains(x) {
                            let i = choose|i: int| 0 <= i < n && #[trigger] old_processed[i] && load_of(m.ops[i]) == Some(x);
                            assert(processed[i]);
                        } else {
                            let k = choose|k: int| 0 <= k < loads.items().len() && loads.items()[k] == x;
                            if k < old_items.len() {
                                assert(old_items[k] == x);
                            }
                            assert(processed[pc as int]);
                        }
                    }
                    if exists|i: int| 0 <= i < n && #[trigger] processed[i] && load_of(m.ops[i]) == Some(x) {
                        let i = choose|i: int| 0 <= i < n && #[trigger] processed[i] && load_of(m.ops[i]) == Some(x);
                        if i == pc as int {
                            if !old_items.contains(x) {
                                assert(loads.items()[old_items.len() as int] == x);
                            }
                        } else {
                            assert(old_processed[i]);
                            assert(old_items.contains(x));
                            let k = choose|k: int| 0 <= k < old_items.len() && old_items[k] == x;
                            assert(loads.items()[k] == x);
                        }
                    }
                }
            }
            let ghost mut done: nat = 0;
            while successors.len() > 0
                invariant
                    m == chunk.model(),
                    n == m.ops.len(),
                    rw == m.registers,
                    pc < n,
                    s.len() == rw,
                    steps == step_model(m, pc as nat, s),
                    forall|k: int| 0 <= k < steps.len() ==> (#[trigger] steps[k]).1.len() == rw,
                    done <= steps.len(),
                    state_views(successors@) == steps.subrange(done as int, steps.len() as int),
                    workspace.states@.len() == n + 1,
                    processed.len() == n,
                    processed[pc as int],
                    widths_ok(workspace.states(), rw),
                    workspace.states()[0] == Some(unknown_registers(rw)),
                    queue_ok(workspace.pending@, workspace.queued@, workspace.states(), n as nat),
                    workspace.queued@[pc as int] || workspace.states()[pc as int] == Some(s),
                    forall|k: int|
                        0 <= k < done ==> {
                            let (nx, o) = #[trigger] steps[k];
                            nx <= n ==> {
                                &&& workspace.states()[nx as int] is Some
                                &&& merge_model(workspace.states()[nx as int], o) == workspace.states()[nx as int]
                            }
                        },
                    forall|i: int|
                        0 <= i < n && i != pc && #[trigger] workspace.states()[i] is Some ==> workspace.queued@[i] || (
                        processed[i] && closed_at(m, workspace.states(), i)),
                    forall|i: int| 0 <= i < n && #[trigger] processed[i] ==> workspace.states()[i] is Some,
                    2 * potential(workspace.states(), rw) + workspace.pending@.len() < measure0,
                    forall|t: Seq<Option<Seq<AbstractValue>>>| #[trigger] solution(m, t) ==> states_below(workspace.states(), t),
                    forall|t: Seq<Option<Seq<AbstractValue>>>| #[trigger] solution(m, t) ==> state_below(Some(s), t[pc as int]),
                decreases successors@.len(),
            {
                let ghost listed = successors@;
                assert(state_views(listed).len() == listed.len());
                assert(steps.subrange(done as int, steps.len() as int).len() == listed.len());
                assert(done < steps.len());
                assert(steps.subrange(done as int, steps.len() as int)[0] == steps[done as int]);
                assert(state_views(listed)[0] == steps[done as int]);
                let (next, outgoing) = successors.remove(0);
                let ghost before = workspace.states();
                let ghost pending_before = workspace.pending@;
                assert(steps[done as int] == (next, outgoing@));
                assert(outgoing@.len() == rw);
                if next <= n {
                    proof {
                        lemma_merge_lowers(before[next as int], outgoing@, rw);
                        lemma_potential_update(before, rw, next as int, merge_model(before[next as int], outgoing@));
                        lemma_merge_absorbs(before[next as int], outgoing@);
                    }
                    let changed = merge_state(&mut workspace.states[next], outgoing);
                    proof {
                        assert(workspace.states() =~= before.update(next as int, merge_model(before[next as int], steps[done as int].1)));
                        assert forall|t: Seq<Option<Seq<AbstractValue>>>| #[trigger] solution(m, t) implies states_below(workspace.states(), t) by {
                            lemma_merge_stays_below(m, t, before, pc as nat, s, done as int);
                        }
                    }
                    if changed && !workspace.queued[next] {
                        workspace.queued.set(next, true);
                        workspace.pending.push_back(next);
                    }
                    proof {
                        let after = workspace.states();
                        assert forall|a: int, b: int| 0 <= a < b < workspace.pending@.len() implies #[trigger] workspace.pending@[a]
                            != #[trigger] workspace.pending@[b] by {
                            if b == pending_before.len() && workspace.pending@.len() > pending_before.len() {
                                assert(workspace.pending@[a] == pending_before[a]);
                                if pending_before[a] == next {
                                    assert(pending_before.contains(next));
                                }
                            } else {
                                assert(workspace.pending@[a] == pending_before[a]);
                                assert(workspace.pending@[b] == pending_before[b]);
                            }
                        }
                        assert forall|k: int| 0 <= k < workspace.pending@.len() implies #[trigger] workspace.pending@[k] <= n
                            && after[workspace.pending@[k] as int] is Some by {
                            if k < pending_before.len() {
                                assert(workspace.pending@[k] == pending_before[k]);
                            }
                        }
                        assert forall|i: int| 0 <= i <= n implies (#[trigger] workspace.queued@[i] <==> workspace.pending@.contains(
                            i as usize,
                        )) by {
                            if workspace.pending@.len() > pending_before.len() {
                                if i == next as int {
                                    assert(workspace.pending@[pending_before.len() as int] == next);
                                } else {
                                    if pending_before.contains(i as usize) {
                                        let k = choose|k: int| 0 <= k < pending_before.len() && pending_before[k] == i as usize;
                                        assert(workspace.pending@[k] == i as usize);
                                    }
                                    if workspace.pending@.contains(i as usize) {
                                        let k = choose|k: int| 0 <= k < workspace.pending@.len() && workspace.pending@[k] == i as usize;
                                        assert(pending_before[k] == i as usize);
                                    }
                                }
                            } else {
                                assert(workspace.pending@ == pending_before);
                            }
                        }
                        assert forall|i: int| 0 <= i < workspace.states@.len() implies (#[trigger] after[i] matches Some(x) ==> x.len() == rw) by {
                            if i != next as int {
                                assert(after[i] == before[i]);
                            }
                        }
                        assert forall|k: int| 0 <= k < done + 1 implies {
                            let (nx, o) = #[trigger] steps[k];
                            nx <= n ==> {
                                &&& after[nx as int] is Some
                                &&& merge_model(after[nx as int], o) == after[nx as int]
                            }
                        } by {
                            let (nx, o) = steps[k];
                            if k < done && nx <= n && nx == next {
                                lemma_absorbs_after_merge(before[nx as int]->0, o, outgoing@);
                            }
                        }
                        assert forall|i: int|
                            0 <= i < n && i != pc && #[trigger] after[i] is Some implies workspace.queued@[i] || (processed[i]
                                && closed_at(m, after, i)) by {
                            if i != next as int {
                                assert(after[i] == before[i]);
                                if !workspace.queued@[i] {
                                    lemma_closed_after_merge(m, before, next as int, outgoing@, rw, i);
                                }
                            }
                        }
                    }
                }
                proof {
                    let sv_old = state_views(listed);
                    assert(successors@ == listed.remove(0));
                    assert(state_views(successors@) =~= sv_old.subrange(1, sv_old.len() as int));
                    assert(sv_old.subrange(1, sv_old.len() as int) =~= steps.subrange((done + 1) as int, steps.len() as int));
                    done = done + 1;
                }
            }
            proof {
                let after = workspace.states();
                if !workspace.queued@[pc as int] {
                    assert(after[pc as int] == Some(s));
                    assert forall|k: int| 0 <= k < step_model(m, pc as nat, s).len() implies {
                        let (nx, o) = #[trigger] step_model(m, pc as nat, s)[k];
                        nx <= m.ops.len() ==> {
                            &&& after[nx as int] is Some
                            &&& merge_model(after[nx as int], o) == after[nx as int]
                        }
                    } by {
                        assert(steps[k] == step_model(m, pc as nat, s)[k]);
                    }
                    assert(closed_at(m, after, pc as int));
                }
            }
        }
    }
    proof {
        assert forall|x: Load| loads.items().contains(x) <==> reached_load(m, workspace.states(), x) by {
            if loads.items().contains(x) {
                let i = choose|i: int| 0 <= i < n && #[trigger] processed[i] && load_of(m.ops[i]) == Some(x);
                assert(workspace.states()[i] is Some);
            }
            if reached_load(m, workspace.states(), x) {
                let i = choose|i: int| 0 <= i < m.ops.len() && workspace.states()[i] is Some && load_of(m.ops[i]) == Some(x);
                assert(workspace.queued@[i] || processed[i]);
                if workspace.queued@[i] {
                    assert(workspace.pending@.contains(i as usize));
                }
            }
        }
        assert forall|pc: int| 0 <= pc < n implies closed_at(m, workspace.states(), pc) by {
            if workspace.states()[pc] is Some {
                if workspace.queued@[pc] {
                    assert(workspace.pending@.contains(pc as usize));
                }
            }
        }
    }
    proof {
        let fin = workspace.states();
        assert(solution(m, fin));
        assert(least_solution(m, fin));
        lemma_least_unique(m, fin, abstract_states(m));
    }
    loads.sort_and_deduplicate();
    proof {
        let items = loads.items();
        assert(crate::loads::strictly_sorted(items) && forall|x: Load| items.contains(x) <==> reached_load(m, abstract_states(m), x));
        lemma_sorted_unique(items, chunk_loads(m));
    }
    loads
}

} // verus!
