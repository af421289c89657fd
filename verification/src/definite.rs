//! Definite-assignment analysis over a compiled [`Program`].
//!
//! Reading a frame slot that was never assigned on the current path is a
//! runtime error. This must-dataflow analysis finds the slot reads that are
//! not assigned on every control-flow path reaching them, so they can be
//! reported before the program runs.

use crate::abstract_eval::{chunk_loads, reachable_loads, ExpressionWorkspace};
use crate::cfg::{describes, is_straight_line, path_to, reaches, straight_line, BasicBlock, ControlFlow};
use crate::loads::{Load, LoadSet};
use crate::program::{Op, Program};
use crate::validate::{update_chunk_ids, update_chunks};
use std::collections::VecDeque;
use vstd::prelude::*;

verus! {

// ---------------------------------------------------------------------------
// A fixed-width set of slots packed into 64-bit words
// ---------------------------------------------------------------------------

/// Bit `k` of `word`.
pub open spec fn bit(word: u64, k: u64) -> bool {
    (word >> k) & 1u64 == 1u64
}

/// Number of 64-bit words that hold `len` bits.
pub open spec fn words_for(len: nat) -> nat {
    if len % 64 == 0 {
        len / 64
    } else {
        len / 64 + 1
    }
}

/// A set of slot indices below a fixed length.
struct BitSet {
    bits: Vec<u64>,
    len: usize,
}

proof fn lemma_bit_or(w: u64, k: u64, m: u64)
    requires
        k < 64,
        m < 64,
    ensures
        bit(w | (1u64 << k), m) == (bit(w, m) || m == k),
{
    assert(((((w | (1u64 << k)) >> m) & 1u64) == 1u64) == ((((w >> m) & 1u64) == 1u64) || m == k)) by (bit_vector)
        requires
            k < 64,
            m < 64,
    ;
}

proof fn lemma_bit_clear(w: u64, k: u64, m: u64)
    requires
        k < 64,
        m < 64,
    ensures
        bit(w & !(1u64 << k), m) == (bit(w, m) && m != k),
{
    assert(((((w & !(1u64 << k)) >> m) & 1u64) == 1u64) == ((((w >> m) & 1u64) == 1u64) && m != k)) by (bit_vector)
        requires
            k < 64,
            m < 64,
    ;
}

proof fn lemma_bit_and(a: u64, b: u64, m: u64)
    requires
        m < 64,
    ensures
        bit(a & b, m) == (bit(a, m) && bit(b, m)),
{
    assert(((((a & b) >> m) & 1u64) == 1u64) == ((((a >> m) & 1u64) == 1u64) && (((b >> m) & 1u64) == 1u64))) by (bit_vector)
        requires
            m < 64,
    ;
}

proof fn lemma_bit_constants(m: u64)
    requires
        m < 64,
    ensures
        !bit(0u64, m),
        bit(u64::MAX, m),
{
    assert(((0u64 >> m) & 1u64) == 0u64) by (bit_vector);
    assert(((0xffff_ffff_ffff_ffffu64 >> m) & 1u64) == 1u64) by (bit_vector)
        requires
            m < 64,
    ;
}

/// Two different words differ in some bit at or above `k`.
proof fn lemma_words_differ(a: u64, b: u64, k: u64) -> (j: u64)
    requires
        k <= 64,
        (a >> k) != (b >> k),
    ensures
        k <= j < 64,
        bit(a, j) != bit(b, j),
    decreases 64 - k,
{
    if k == 64 {
        assert((a >> 64u64) == (b >> 64u64)) by (bit_vector);
        0
    } else {
        let x = a >> k;
        let y = b >> k;
        if (x & 1u64) != (y & 1u64) {
            assert((x & 1u64) == 0u64 || (x & 1u64) == 1u64) by (bit_vector);
            assert((y & 1u64) == 0u64 || (y & 1u64) == 1u64) by (bit_vector);
            k
        } else {
            assert((x >> 1u64) != (y >> 1u64)) by (bit_vector)
                requires
                    x != y,
                    (x & 1u64) == (y & 1u64),
            ;
            assert((a >> k) >> 1u64 == a >> (k + 1) as u64) by (bit_vector)
                requires
                    k < 64,
            ;
            assert((b >> k) >> 1u64 == b >> (k + 1) as u64) by (bit_vector)
                requires
                    k < 64,
            ;
            lemma_words_differ(a, b, (k + 1) as u64)
        }
    }
}

impl BitSet {
    /// The members, as one flag per index below the length.
    spec fn view(&self) -> Seq<bool> {
        Seq::new(self.len as nat, |i: int| bit(self.bits@[i / 64], (i % 64) as u64))
    }

    /// One word per 64 indices, and no bit set past the length.
    spec fn wf(&self) -> bool {
        &&& self.bits@.len() == words_for(self.len as nat)
        &&& forall|i: int|
            self.len <= i < self.bits@.len() * 64 ==> !bit(#[trigger] self.bits@[i / 64], (i % 64) as u64)
    }

    fn word_count(len: usize) -> (r: usize)
        ensures
            r == words_for(len as nat),
    {
        if len % 64 == 0 {
            len / 64
        } else {
            len / 64 + 1
        }
    }

    /// The empty set over `len` indices.
    fn empty(len: usize) -> (r: BitSet)
        ensures
            r.wf(),
            r.len == len,
            r@ == Seq::new(len as nat, |i: int| false),
    {
        let count = Self::word_count(len);
        let mut bits: Vec<u64> = Vec::new();
        let mut i: usize = 0;
        while i < count
            invariant
                i <= count,
                bits@.len() == i,
                forall|j: int| 0 <= j < i ==> #[trigger] bits@[j] == 0u64,
            decreases count - i,
        {
            bits.push(0u64);
            i = i + 1;
        }
        let r = BitSet { bits, len };
        proof {
            assert forall|j: int| 0 <= j < r.bits@.len() * 64 implies !bit(#[trigger] r.bits@[j / 64], (j % 64) as u64) by {
                lemma_bit_constants((j % 64) as u64);
            }
            assert(r@ =~= Seq::new(len as nat, |i: int| false));
        }
        r
    }

    /// Every index below `len`.
    fn full(len: usize) -> (r: BitSet)
        requires
            len <= u32::MAX,
        ensures
            r.wf(),
            r.len == len,
            r@ == Seq::new(len as nat, |i: int| true),
    {
        let count = Self::word_count(len);
        let mut bits: Vec<u64> = Vec::new();
        let mut i: usize = 0;
        while i < count
            invariant
                i <= count,
                bits@.len() == i,
                forall|j: int| 0 <= j < i ==> #[trigger] bits@[j] == u64::MAX,
            decreases count - i,
        {
            bits.push(u64::MAX);
            i = i + 1;
        }
        let mut set = BitSet { bits, len };
        assert(count * 64 <= u32::MAX + 1);
        let end: u64 = count as u64 * 64;
        let mut slot: u64 = len as u64;
        proof {
            assert forall|j: int| len <= j < end implies bit(#[trigger] set.bits@[j / 64], (j % 64) as u64) by {
                lemma_bit_constants((j % 64) as u64);
            }
            assert forall|j: int| 0 <= j < len implies bit(#[trigger] set.bits@[j / 64], (j % 64) as u64) by {
                lemma_bit_constants((j % 64) as u64);
            }
        }
        while slot < end
            invariant
                set.len == len,
                len <= slot <= end,
                end == set.bits@.len() * 64,
                set.bits@.len() == count,
                count == words_for(len as nat),
                end <= u32::MAX + 1,
                forall|j: int| 0 <= j < slot ==> (bit(#[trigger] set.bits@[j / 64], (j % 64) as u64) <==> j < len),
                forall|j: int| slot <= j < end ==> bit(#[trigger] set.bits@[j / 64], (j % 64) as u64),
            decreases end - slot,
        {
            let ghost before = set.bits@;
            set.remove(slot as u32);
            proof {
                assert forall|j: int| 0 <= j < slot + 1 implies (bit(#[trigger] set.bits@[j / 64], (j % 64) as u64) <==> j < len) by {
                    if j / 64 == slot / 64 {
                        lemma_bit_clear(before[j / 64], (slot % 64) as u64, (j % 64) as u64);
                    } else {
                        assert(set.bits@[j / 64] == before[j / 64]);
                    }
                }
                assert forall|j: int| slot + 1 <= j < end implies bit(#[trigger] set.bits@[j / 64], (j % 64) as u64) by {
                    if j / 64 == slot / 64 {
                        lemma_bit_clear(before[j / 64], (slot % 64) as u64, (j % 64) as u64);
                    } else {
                        assert(set.bits@[j / 64] == before[j / 64]);
                    }
                }
            }
            slot = slot + 1;
        }
        proof {
            assert(set@ =~= Seq::new(len as nat, |i: int| true));
        }
        set
    }

    /// Adds `slot` when it is below the length.
    fn insert(&mut self, slot: u32)
        requires
            old(self).wf(),
        ensures
            final(self).wf(),
            final(self).len == old(self).len,
            final(self)@ == (if (slot as int) < old(self).len { old(self)@.update(slot as int, true) } else { old(self)@ }),
    {
        let slot = slot as usize;
        if slot < self.len {
            let ghost before = self.bits@;
            let word = slot / 64;
            let k = (slot % 64) as u64;
            let updated = self.bits[word] | (1u64 << k);
            self.bits.set(word, updated);
            proof {
                assert forall|j: int| 0 <= j < self.bits@.len() * 64 implies bit(#[trigger] self.bits@[j / 64], (j % 64) as u64)
                    == (bit(before[j / 64], (j % 64) as u64) || j == slot) by {
                    if j / 64 == word as int {
                        lemma_bit_or(before[j / 64], k, (j % 64) as u64);
                    } else {
                        assert(self.bits@[j / 64] == before[j / 64]);
                    }
                }
                assert(self@ =~= old(self)@.update(slot as int, true));
            }
        }
    }

    /// Removes `slot`; an index past the words is ignored.
    fn remove(&mut self, slot: u32)
        ensures
            final(self).len == old(self).len,
            final(self).bits@.len() == old(self).bits@.len(),
            forall|j: int|
                0 <= j < old(self).bits@.len() * 64 ==> #[trigger] final(self).bits@[j / 64] == (if j / 64 == slot / 64 {
                    old(self).bits@[j / 64] & !(1u64 << (slot % 64) as u64)
                } else {
                    old(self).bits@[j / 64]
                }),
    {
        let slot = slot as usize;
        if slot / 64 < self.bits.len() {
            let word = slot / 64;
            let updated = self.bits[word] & !(1u64 << (slot % 64) as u64);
            self.bits.set(word, updated);
        }
    }

    /// Whether `slot` is a member.
    fn contains(&self, slot: u32) -> (r: bool)
        requires
            self.wf(),
        ensures
            r == ((slot as int) < self.len && self@[slot as int]),
    {
        let slot = slot as usize;
        slot < self.len && (self.bits[slot / 64] >> (slot % 64) as u64) & 1u64 == 1u64
    }

    /// Keeps only the members `other` also holds.
    fn intersect_assign(&mut self, other: &BitSet)
        requires
            old(self).wf(),
            other.wf(),
            other.len == old(self).len,
        ensures
            final(self).wf(),
            final(self).len == old(self).len,
            final(self)@ == Seq::new(old(self)@.len(), |i: int| old(self)@[i] && other@[i]),
    {
        let ghost before = self.bits@;
        let mut i: usize = 0;
        while i < self.bits.len()
            invariant
                self.len == old(self).len,
                self.bits@.len() == before.len(),
                before.len() == other.bits@.len(),
                i <= before.len(),
                forall|j: int| 0 <= j < i ==> #[trigger] self.bits@[j] == before[j] & other.bits@[j],
                forall|j: int| i <= j < before.len() ==> #[trigger] self.bits@[j] == before[j],
            decreases before.len() - i,
        {
            let updated = self.bits[i] & other.bits[i];
            self.bits.set(i, updated);
            i = i + 1;
        }
        proof {
            assert forall|j: int| 0 <= j < self.bits@.len() * 64 implies bit(#[trigger] self.bits@[j / 64], (j % 64) as u64)
                == (bit(before[j / 64], (j % 64) as u64) && bit(other.bits@[j / 64], (j % 64) as u64)) by {
                lemma_bit_and(before[j / 64], other.bits@[j / 64], (j % 64) as u64);
            }
            assert(self@ =~= Seq::new(old(self)@.len(), |i: int| old(self)@[i] && other@[i]));
        }
    }

    /// A copy of the set.
    fn copy(&self) -> (r: BitSet)
        requires
            self.wf(),
        ensures
            r.wf(),
            r.len == self.len,
            r@ == self@,
    {
        let mut bits: Vec<u64> = Vec::new();
        let mut i: usize = 0;
        while i < self.bits.len()
            invariant
                i <= self.bits@.len(),
                bits@ == self.bits@.subrange(0, i as int),
            decreases self.bits@.len() - i,
        {
            bits.push(self.bits[i]);
            i = i + 1;
            assert(bits@ =~= self.bits@.subrange(0, i as int));
        }
        assert(bits@ =~= self.bits@);
        BitSet { bits, len: self.len }
    }

    /// Whether both sets have the same length and members.
    fn same(&self, other: &BitSet) -> (r: bool)
        requires
            self.wf(),
            other.wf(),
        ensures
            r == (self@ == other@),
    {
        if self.len != other.len {
            assert(self@.len() != other@.len());
            return false;
        }
        let mut i: usize = 0;
        while i < self.bits.len()
            invariant
                self.wf(),
                other.wf(),
                self.len == other.len,
                self.bits@.len() == other.bits@.len(),
                i <= self.bits@.len(),
                forall|j: int| 0 <= j < i ==> #[trigger] self.bits@[j] == other.bits@[j],
            decreases self.bits@.len() - i,
        {
            if self.bits[i] != other.bits[i] {
                proof {
                    let a = self.bits@[i as int];
                    let b = other.bits@[i as int];
                    assert((a >> 0u64) == a && (b >> 0u64) == b) by (bit_vector);
                    let k = lemma_words_differ(a, b, 0);
                    let slot = i * 64 + k;
                    assert(slot / 64 == i as int && slot % 64 == k as int);
                    assert(slot < self.bits@.len() * 64);
                    if slot >= self.len {
                        assert(!bit(self.bits@[slot / 64], (slot % 64) as u64));
                        assert(!bit(other.bits@[slot / 64], (slot % 64) as u64));
                    }
                    assert(self@[slot] != other@[slot]);
                }
                return false;
            }
            i = i + 1;
        }
        proof {
            assert(self.bits@ =~= other.bits@);
            assert(self@ =~= other@);
        }
        true
    }
}


// ---------------------------------------------------------------------------
// What the analysis computes
// ---------------------------------------------------------------------------

/// A read of a slot that is not assigned on every path reaching it.
#[derive(Debug, Clone, PartialEq, Eq)]
pub struct UnassignedUse {
    pub name: String,
    pub line: usize,
    pub column: usize,
}

impl UnassignedUse {
    /// The finding as its name, line and column.
    pub open spec fn model(&self) -> (Seq<char>, nat, nat) {
        (self.name@, self.line as nat, self.column as nat)
    }
}

/// The findings as names, lines and columns.
pub open spec fn finding_models(s: Seq<UnassignedUse>) -> Seq<(Seq<char>, nat, nat)> {
    Seq::new(s.len(), |i: int| s[i].model())
}

/// The slot an instruction assigns, if any.
pub open spec fn assigned_by(op: Op) -> Option<u32> {
    match op {
        Op::SetSlot { slot, .. } | Op::SetConst { slot, .. } | Op::CopySlot { slot, .. } | Op::Update { slot, .. } => Some(
            slot,
        ),
        Op::Host(host) => host.bind,
        _ => None,
    }
}

/// The flags after `slot` is assigned; a slot past the frame is ignored.
pub open spec fn with_slot(s: Seq<bool>, slot: Option<u32>) -> Seq<bool> {
    match slot {
        Some(x) => if (x as int) < s.len() {
            s.update(x as int, true)
        } else {
            s
        },
        None => s,
    }
}

/// The slots assigned after instructions `a..b` run from the flags `s`.
pub open spec fn after_range(s: Seq<bool>, ops: Seq<Op>, a: int, b: int) -> Seq<bool>
    decreases b - a,
{
    if b <= a {
        s
    } else {
        with_slot(after_range(s, ops, a, b - 1), assigned_by(ops[b - 1]))
    }
}

/// `slot` is among the assigned flags.
pub open spec fn is_assigned(s: Seq<bool>, slot: u32) -> bool {
    (slot as int) < s.len() && s[slot as int]
}

/// `a` holds no slot that `b` lacks.
pub open spec fn within(a: Seq<bool>, b: Seq<bool>) -> bool {
    &&& a.len() == b.len()
    &&& forall|i: int| 0 <= i < a.len() && #[trigger] a[i] ==> b[i]
}

/// How a finding names a slot: its name, or `?` when the table keeps none.
pub open spec fn slot_label(names: Seq<Seq<char>>, slot: u32) -> Seq<char> {
    if (slot as int) < names.len() {
        names[slot as int]
    } else {
        seq!['?']
    }
}

/// The loads among `loads` of slots not in `s`, as findings on `line`.
pub open spec fn missing_loads(loads: Seq<Load>, s: Seq<bool>, names: Seq<Seq<char>>, line: nat) -> Seq<
    (Seq<char>, nat, nat),
>
    decreases loads.len(),
{
    if loads.len() == 0 {
        Seq::empty()
    } else {
        let rest = missing_loads(loads.drop_last(), s, names, line);
        let (slot, column) = loads.last();
        if is_assigned(s, slot) {
            rest
        } else {
            rest.push((slot_label(names, slot), line, column as nat))
        }
    }
}

/// The unassigned reads of expression `id`; a missing expression reads
/// nothing.
pub open spec fn chunk_findings(p: Program, id: nat, s: Seq<bool>) -> Seq<(Seq<char>, nat, nat)> {
    match p.chunk_model(id as int) {
        Some(m) => missing_loads(chunk_loads(m), s, p.slots.slot_names(), m.line),
        None => Seq::empty(),
    }
}

/// The unassigned reads of expressions `ids`, in order.
pub open spec fn chunks_findings(p: Program, ids: Seq<nat>, s: Seq<bool>) -> Seq<(Seq<char>, nat, nat)>
    decreases ids.len(),
{
    if ids.len() == 0 {
        Seq::empty()
    } else {
        chunks_findings(p, ids.drop_last(), s) + chunk_findings(p, ids.last(), s)
    }
}

/// A direct read of `slot` at a source position, when it is unassigned.
pub open spec fn slot_read(p: Program, slot: u32, line: u32, column: u32, s: Seq<bool>) -> Seq<(Seq<char>, nat, nat)> {
    if is_assigned(s, slot) {
        Seq::empty()
    } else {
        seq![(slot_label(p.slots.slot_names(), slot), line as nat, column as nat)]
    }
}

/// The unassigned reads one instruction performs with the slots in `s`
/// assigned.
pub open spec fn op_findings(p: Program, op: Op, s: Seq<bool>) -> Seq<(Seq<char>, nat, nat)> {
    match op {
        Op::SetSlot { value, .. } => chunk_findings(p, value as nat, s),
        Op::CopySlot { source, line, column, .. } => slot_read(p, source, line, column, s),
        Op::Update { slot, operation, line, column } => slot_read(p, slot, line, column, s) + chunks_findings(
            p,
            update_chunk_ids(operation),
            s,
        ),
        Op::JumpIfFalse { condition, .. } | Op::JumpIfIntegerCompare { condition, .. } => chunk_findings(
            p,
            condition as nat,
            s,
        ),
        Op::Host(host) => chunks_findings(p, Seq::new(host.args@.len(), |i: int| host.args@[i] as nat), s),
        _ => Seq::empty(),
    }
}

/// The unassigned reads of instructions `a..b`, entered with `s` assigned.
pub open spec fn range_findings(p: Program, s: Seq<bool>, a: int, b: int) -> Seq<(Seq<char>, nat, nat)>
    decreases b - a,
{
    if b <= a {
        Seq::empty()
    } else {
        range_findings(p, s, a, b - 1) + op_findings(p, p.ops@[b - 1], after_range(s, p.ops@, a, b - 1))
    }
}

/// The slots assigned on entry: those in `preset` below the frame width.
pub open spec fn entry_set(width: nat, preset: Seq<u32>) -> Seq<bool> {
    Seq::new(width, |i: int| preset.contains(i as u32))
}

/// The slots assigned on entry to block `b`, from the first `k` entries of
/// its predecessor list: for the entry block also the entry set, and
/// otherwise whatever each reachable predecessor leaves assigned. With no
/// such predecessor the entry set stands.
pub open spec fn incoming_upto(
    b: int,
    preds: Seq<usize>,
    reachable: Seq<bool>,
    outs: Seq<Seq<bool>>,
    entry: Seq<bool>,
    k: int,
) -> Seq<bool> {
    if b == 0 || exists|j: int| 0 <= j < k && reachable[#[trigger] preds[j] as int] {
        Seq::new(
            entry.len(),
            |i: int|
                (b == 0 ==> entry[i]) && forall|j: int|
                    0 <= j < k && reachable[#[trigger] preds[j] as int] ==> outs[preds[j] as int][i],
        )
    } else {
        entry
    }
}

/// The slots assigned on entry to block `b` of `flow`, given what each block
/// leaves assigned.
pub open spec fn incoming_of(flow: ControlFlow, outs: Seq<Seq<bool>>, entry: Seq<bool>, b: int) -> Seq<bool> {
    let preds = flow.predecessors@[b]@;
    incoming_upto(b, preds, flow.reachable@, outs, entry, preds.len() as int)
}

/// The slots block `b` leaves assigned.
pub open spec fn block_out(ops: Seq<Op>, flow: ControlFlow, outs: Seq<Seq<bool>>, entry: Seq<bool>, b: int) -> Seq<bool> {
    after_range(incoming_of(flow, outs, entry, b), ops, flow.blocks@[b].start as int, flow.blocks@[b].end as int)
}

/// `outs` solves the must-assignment equations: for every reachable block,
/// what it leaves assigned is what its entry set becomes after its
/// instructions run.
pub open spec fn solves(ops: Seq<Op>, flow: ControlFlow, outs: Seq<Seq<bool>>, entry: Seq<bool>) -> bool {
    &&& outs.len() == flow.blocks@.len()
    &&& forall|b: int| 0 <= b < outs.len() ==> (#[trigger] outs[b]).len() == entry.len()
    &&& forall|b: int| 0 <= b < outs.len() && flow.reachable@[b] ==> #[trigger] outs[b] == block_out(ops, flow, outs, entry, b)
}

/// On every reachable block, `t` counts no slot as assigned that `outs`
/// does not.
pub open spec fn below_on_reachable(flow: ControlFlow, t: Seq<Seq<bool>>, outs: Seq<Seq<bool>>) -> bool {
    forall|d: int| 0 <= d < outs.len() && flow.reachable@[d] ==> within(#[trigger] t[d], outs[d])
}

/// `outs` is the greatest solution: it solves the equations and, on the
/// reachable blocks, counts as assigned every slot any solution does.
pub open spec fn greatest(ops: Seq<Op>, flow: ControlFlow, outs: Seq<Seq<bool>>, entry: Seq<bool>) -> bool {
    &&& solves(ops, flow, outs, entry)
    &&& forall|t: Seq<Seq<bool>>| #[trigger] solves(ops, flow, t, entry) ==> below_on_reachable(flow, t, outs)
}

/// The unassigned reads of the reachable blocks among the first `k`, in
/// block order.
pub open spec fn blocks_findings(p: Program, flow: ControlFlow, outs: Seq<Seq<bool>>, entry: Seq<bool>, k: int) -> Seq<
    (Seq<char>, nat, nat),
>
    decreases k,
{
    if k <= 0 {
        Seq::empty()
    } else {
        blocks_findings(p, flow, outs, entry, k - 1) + if flow.reachable@[k - 1] {
            range_findings(
                p,
                incoming_of(flow, outs, entry, k - 1),
                flow.blocks@[k - 1].start as int,
                flow.blocks@[k - 1].end as int,
            )
        } else {
            Seq::empty()
        }
    }
}

/// The slots assigned on entry to the last block of `path`, when the blocks
/// before it run in order from `entry`.
pub open spec fn along(ops: Seq<Op>, blocks: Seq<BasicBlock>, entry: Seq<bool>, path: Seq<usize>) -> Seq<bool>
    decreases path.len(),
{
    if path.len() <= 1 {
        entry
    } else {
        let prefix = path.drop_last();
        let b = prefix.last() as int;
        after_range(along(ops, blocks, entry, prefix), ops, blocks[b].start as int, blocks[b].end as int)
    }
}

// ---------------------------------------------------------------------------
// Lemmas on the equations
// ---------------------------------------------------------------------------

proof fn lemma_after_range_len(s: Seq<bool>, ops: Seq<Op>, a: int, b: int)
    ensures
        after_range(s, ops, a, b).len() == s.len(),
    decreases b - a,
{
    if b > a {
        lemma_after_range_len(s, ops, a, b - 1);
    }
}

proof fn lemma_after_range_monotone(s: Seq<bool>, t: Seq<bool>, ops: Seq<Op>, a: int, b: int)
    requires
        within(s, t),
    ensures
        within(after_range(s, ops, a, b), after_range(t, ops, a, b)),
    decreases b - a,
{
    if b > a {
        lemma_after_range_monotone(s, t, ops, a, b - 1);
    }
}

proof fn lemma_after_range_full(w: nat, ops: Seq<Op>, a: int, b: int)
    ensures
        after_range(Seq::new(w, |i: int| true), ops, a, b) == Seq::new(w, |i: int| true),
    decreases b - a,
{
    if b > a {
        lemma_after_range_full(w, ops, a, b - 1);
        let full = Seq::new(w, |i: int| true);
        if let Some(x) = assigned_by(ops[b - 1]) {
            if (x as int) < w {
                assert(full.update(x as int, true) =~= full);
            }
        }
    }
}

proof fn lemma_incoming_monotone(
    b: int,
    preds: Seq<usize>,
    reachable: Seq<bool>,
    outs: Seq<Seq<bool>>,
    bigger: Seq<Seq<bool>>,
    entry: Seq<bool>,
    k: int,
)
    requires
        outs.len() == bigger.len(),
        forall|c: int| 0 <= c < outs.len() ==> within(#[trigger] outs[c], bigger[c]),
        forall|j: int| 0 <= j < k ==> #[trigger] preds[j] < outs.len(),
        forall|c: int| 0 <= c < outs.len() ==> (#[trigger] outs[c]).len() == entry.len(),
    ensures
        within(incoming_upto(b, preds, reachable, outs, entry, k), incoming_upto(b, preds, reachable, bigger, entry, k)),
{
    let lo = incoming_upto(b, preds, reachable, outs, entry, k);
    let hi = incoming_upto(b, preds, reachable, bigger, entry, k);
    assert forall|i: int| 0 <= i < lo.len() && #[trigger] lo[i] implies hi[i] by {
        if b == 0 || exists|j: int| 0 <= j < k && reachable[#[trigger] preds[j] as int] {
            assert forall|j: int| 0 <= j < k && reachable[#[trigger] preds[j] as int] implies bigger[preds[j] as int][i] by {
                assert(outs[preds[j] as int][i]);
                assert(within(outs[preds[j] as int], bigger[preds[j] as int]));
            }
        }
    }
}

proof fn lemma_incoming_monotone_reachable(
    b: int,
    preds: Seq<usize>,
    reachable: Seq<bool>,
    outs: Seq<Seq<bool>>,
    bigger: Seq<Seq<bool>>,
    entry: Seq<bool>,
    k: int,
)
    requires
        outs.len() == bigger.len(),
        reachable.len() == outs.len(),
        forall|c: int| 0 <= c < outs.len() && reachable[c] ==> within(#[trigger] outs[c], bigger[c]),
        forall|c: int| 0 <= c < outs.len() ==> (#[trigger] outs[c]).len() == entry.len(),
        forall|j: int| 0 <= j < k ==> #[trigger] preds[j] < outs.len(),
    ensures
        within(incoming_upto(b, preds, reachable, outs, entry, k), incoming_upto(b, preds, reachable, bigger, entry, k)),
{
    let lo = incoming_upto(b, preds, reachable, outs, entry, k);
    let hi = incoming_upto(b, preds, reachable, bigger, entry, k);
    assert forall|i: int| 0 <= i < lo.len() && #[trigger] lo[i] implies hi[i] by {
        if b == 0 || exists|j: int| 0 <= j < k && reachable[#[trigger] preds[j] as int] {
            assert forall|j: int| 0 <= j < k && reachable[#[trigger] preds[j] as int] implies bigger[preds[j] as int][i] by {
                let c = preds[j] as int;
                assert(0 <= c < outs.len());
                assert(reachable[c]);
                assert(within(outs[c], bigger[c]));
                assert(outs[c][i]);
            }
        }
    }
}

/// Changing what block `x` leaves assigned does not change the entry set of
/// a block that does not list `x` as a predecessor.
proof fn lemma_incoming_frame(
    b: int,
    preds: Seq<usize>,
    reachable: Seq<bool>,
    outs: Seq<Seq<bool>>,
    x: int,
    new: Seq<bool>,
    entry: Seq<bool>,
    k: int,
)
    requires
        0 <= x < outs.len(),
        forall|j: int| 0 <= j < k ==> #[trigger] preds[j] as int != x && preds[j] < outs.len(),
    ensures
        incoming_upto(b, preds, reachable, outs.update(x, new), entry, k) == incoming_upto(b, preds, reachable, outs, entry, k),
{
    let lo = incoming_upto(b, preds, reachable, outs.update(x, new), entry, k);
    let hi = incoming_upto(b, preds, reachable, outs, entry, k);
    if b == 0 || exists|j: int| 0 <= j < k && reachable[#[trigger] preds[j] as int] {
        assert forall|i: int| 0 <= i < lo.len() implies lo[i] == hi[i] by {
            assert forall|j: int| 0 <= j < k && reachable[#[trigger] preds[j] as int] implies outs.update(x, new)[preds[j] as int][i]
                == outs[preds[j] as int][i] by {
                assert(preds[j] as int != x);
            }
        }
        assert(lo =~= hi);
    }
}

/// The predecessors listed from the first `k` blocks are exactly those
/// among them with `b` as a successor.
proof fn lemma_preds_member(succ: Seq<Seq<usize>>, b: usize, k: int, p: usize)
    requires
        0 <= k <= succ.len(),
        succ.len() <= usize::MAX,
    ensures
        crate::cfg::predecessors_upto(succ, b, k).contains(p) <==> (p < k && succ[p as int].contains(b)),
        forall|j: int|
            0 <= j < crate::cfg::predecessors_upto(succ, b, k).len() ==> #[trigger] crate::cfg::predecessors_upto(succ, b, k)[j]
                < k,
    decreases k,
{
    if k > 0 {
        lemma_preds_member(succ, b, k - 1, p);
        let prev = crate::cfg::predecessors_upto(succ, b, k - 1);
        if succ[k - 1].contains(b) {
            let cur = prev.push((k - 1) as usize);
            assert(crate::cfg::predecessors_upto(succ, b, k) == cur);
            assert(cur[prev.len() as int] == (k - 1) as usize);
            if cur.contains(p) && p as int != k - 1 {
                let j = choose|j: int| 0 <= j < cur.len() && cur[j] == p;
                assert(j < prev.len());
                assert(prev[j] == p);
            }
            if prev.contains(p) {
                let j = choose|j: int| 0 <= j < prev.len() && prev[j] == p;
                assert(cur[j] == p);
            }
            if p as int == k - 1 {
                assert(cur[prev.len() as int] == p);
            }
            assert forall|j: int| 0 <= j < cur.len() implies #[trigger] cur[j] < k by {
                if j < prev.len() {
                    assert(cur[j] == prev[j]);
                }
            }
        }
    }
}

/// A successor of a reachable block is reachable.
proof fn lemma_reaches_successor(succ: Seq<Seq<usize>>, b: usize, c: usize)
    requires
        reaches(succ, b),
        0 <= b < succ.len(),
        succ[b as int].contains(c),
    ensures
        reaches(succ, c),
{
    let path = choose|path: Seq<usize>| #[trigger] path_to(succ, path, b);
    let longer = path.push(c);
    assert forall|i: int| 0 <= i < longer.len() - 1 implies #[trigger] succ[longer[i] as int].contains(longer[i + 1]) by {
        if i < path.len() - 1 {
            assert(longer[i] == path[i] && longer[i + 1] == path[i + 1]);
        }
    }
    assert(path_to(succ, longer, c));
}

/// The edges of `succ` stay among its blocks.
pub open spec fn edges_bounded(succ: Seq<Seq<usize>>) -> bool {
    forall|b: int, k: int| 0 <= b < succ.len() && 0 <= k < succ[b].len() ==> #[trigger] succ[b][k] < succ.len()
}

/// Every block on a path is a block of the graph.
proof fn lemma_path_bounded(succ: Seq<Seq<usize>>, path: Seq<usize>, b: usize, k: int)
    requires
        edges_bounded(succ),
        succ.len() > 0,
        path_to(succ, path, b),
        0 <= k < path.len(),
    ensures
        path[k] < succ.len(),
    decreases k,
{
    if k > 0 {
        lemma_path_bounded(succ, path, b, k - 1);
        let i = k - 1;
        assert(succ[path[i] as int].contains(path[i + 1]));
        let row = succ[path[k - 1] as int];
        let j = choose|j: int| 0 <= j < row.len() && #[trigger] row[j] == path[k];
        assert(succ[path[k - 1] as int][j] < succ.len());
    }
}

/// A reachable block other than the entry has a reachable predecessor.
proof fn lemma_reachable_has_predecessor(succ: Seq<Seq<usize>>, c: usize) -> (p: usize)
    requires
        reaches(succ, c),
        c != 0,
        edges_bounded(succ),
        succ.len() > 0,
    ensures
        reaches(succ, p),
        p < succ.len(),
        succ[p as int].contains(c),
{
    let path = choose|path: Seq<usize>| #[trigger] path_to(succ, path, c);
    assert(path.len() >= 2);
    let prefix = path.drop_last();
    let p = prefix.last();
    assert forall|i: int| 0 <= i < prefix.len() - 1 implies #[trigger] succ[prefix[i] as int].contains(prefix[i + 1]) by {
        assert(prefix[i] == path[i] && prefix[i + 1] == path[i + 1]);
    }
    assert(path_to(succ, prefix, p));
    let i = path.len() - 2;
    assert(succ[path[i] as int].contains(path[i + 1]));
    lemma_path_bounded(succ, path, c, i);
    p
}

// ---------------------------------------------------------------------------
// Recording the reads of instructions
// ---------------------------------------------------------------------------

/// The flags of each set.
spec fn out_views(sets: Seq<BitSet>) -> Seq<Seq<bool>> {
    Seq::new(sets.len(), |i: int| sets[i]@)
}

/// Every computed load set holds the loads of its expression.
spec fn cache_ok(p: Program, cache: Seq<LoadSet>) -> bool {
    &&& cache.len() == p.chunks@.len()
    &&& forall|c: int|
        0 <= c < cache.len() && !(#[trigger] cache[c] is Uncomputed) ==> (p.chunk_model(c) matches Some(m)
            && cache[c].items() == chunk_loads(m))
}

/// The slot an instruction assigns, if any.
fn assigned_slot(op: &Op) -> (r: Option<u32>)
    ensures
        r == assigned_by(*op),
{
    match op {
        Op::SetSlot { slot, .. } | Op::SetConst { slot, .. } | Op::CopySlot { slot, .. } | Op::Update { slot, .. } => Some(
            *slot,
        ),
        Op::Host(host) => host.bind,
        _ => None,
    }
}

/// The name a finding reports for `slot`.
fn slot_name(program: &Program, slot: u32) -> (r: String)
    ensures
        r@ == slot_label(program.slots.slot_names(), slot),
{
    match program.slots.name(slot) {
        Some(name) => name.to_owned(),
        None => {
            proof {
                reveal_strlit("?");
                assert("?"@ =~= seq!['?']);
            }
            "?".to_owned()
        },
    }
}

/// One not-yet-computed load set per expression.
fn empty_cache(count: usize) -> (r: Vec<LoadSet>)
    ensures
        r@.len() == count,
        forall|c: int| 0 <= c < count ==> #[trigger] r@[c] is Uncomputed,
{
    let mut cache: Vec<LoadSet> = Vec::new();
    let mut i: usize = 0;
    while i < count
        invariant
            i <= count,
            cache@.len() == i,
            forall|c: int| 0 <= c < i ==> #[trigger] cache@[c] is Uncomputed,
        decreases count - i,
    {
        cache.push(LoadSet::Uncomputed);
        i = i + 1;
    }
    cache
}

proof fn lemma_push_models(findings: Seq<UnassignedUse>, x: UnassignedUse)
    ensures
        finding_models(findings.push(x)) == finding_models(findings).push(x.model()),
{
    assert(finding_models(findings.push(x)) =~= finding_models(findings).push(x.model()));
}

/// Records the loads of expression `chunk_id` whose slots are not assigned.
fn record_unassigned(
    chunk_id: u32,
    program: &Program,
    assigned: &BitSet,
    load_cache: &mut Vec<LoadSet>,
    workspace: &mut ExpressionWorkspace,
    findings: &mut Vec<UnassignedUse>,
)
    requires
        assigned.wf(),
        program.expr_ops@.len() < usize::MAX,
        cache_ok(*program, old(load_cache)@),
    ensures
        cache_ok(*program, final(load_cache)@),
        finding_models(final(findings)@) == finding_models(old(findings)@) + chunk_findings(*program, chunk_id as nat, assigned@),
{
    let chunk = match program.chunk(chunk_id) {
        Some(chunk) => chunk,
        None => {
            assert(finding_models(findings@) =~= finding_models(findings@) + Seq::<(Seq<char>, nat, nat)>::empty());
            return ;
        },
    };
    let ghost m = chunk.model();
    let id = chunk_id as usize;
    if id >= load_cache.len() {
        return ;
    }
    let uncomputed = match &load_cache[id] {
        LoadSet::Uncomputed => true,
        _ => false,
    };
    if uncomputed {
        let loads = reachable_loads(&chunk, workspace);
        let ghost before = load_cache@;
        load_cache.set(id, loads);
        proof {
            assert forall|c: int| 0 <= c < load_cache@.len() && !(#[trigger] load_cache@[c] is Uncomputed) implies (
            program.chunk_model(c) matches Some(mm) && load_cache@[c].items() == chunk_loads(mm)) by {
                if c != id as int {
                    assert(load_cache@[c] == before[c]);
                }
            }
        }
    }
    let loads = load_cache[id].as_slice();
    let ghost names = program.slots.slot_names();
    let ghost base = finding_models(findings@);
    assert(loads@ == chunk_loads(m));
    assert(loads@.subrange(0, 0) =~= Seq::<Load>::empty());
    assert(finding_models(findings@) =~= base + missing_loads(loads@.subrange(0, 0), assigned@, names, m.line));
    let mut i: usize = 0;
    while i < loads.len()
        invariant
            assigned.wf(),
            i <= loads@.len(),
            names == program.slots.slot_names(),
            m.line == chunk.line,
            finding_models(findings@) == base + missing_loads(loads@.subrange(0, i as int), assigned@, names, m.line),
        decreases loads@.len() - i,
    {
        let (slot, column) = loads[i];
        let ghost prev = finding_models(findings@);
        assert(loads@.subrange(0, i + 1).drop_last() =~= loads@.subrange(0, i as int));
        assert(loads@.subrange(0, i + 1).last() == loads@[i as int]);
        if !assigned.contains(slot) {
            let name = slot_name(program, slot);
            let finding = UnassignedUse { name, line: chunk.line as usize, column };
            proof {
                lemma_push_models(findings@, finding);
            }
            findings.push(finding);
            assert(finding_models(findings@) =~= base + missing_loads(loads@.subrange(0, i + 1), assigned@, names, m.line));
        } else {
            assert(finding_models(findings@) =~= base + missing_loads(loads@.subrange(0, i + 1), assigned@, names, m.line));
        }
        i = i + 1;
    }
    assert(loads@.subrange(0, loads@.len() as int) =~= loads@);
}

/// A direct read of `slot`, recorded when the slot is not assigned.
fn record_slot_read(
    slot: u32,
    line: u32,
    column: u32,
    program: &Program,
    assigned: &BitSet,
    findings: &mut Vec<UnassignedUse>,
)
    requires
        assigned.wf(),
    ensures
        finding_models(final(findings)@) == finding_models(old(findings)@) + slot_read(*program, slot, line, column, assigned@),
{
    if !assigned.contains(slot) {
        let finding = UnassignedUse { name: slot_name(program, slot), line: line as usize, column: column as usize };
        proof {
            lemma_push_models(findings@, finding);
        }
        findings.push(finding);
        assert(finding_models(findings@) =~= finding_models(old(findings)@) + slot_read(*program, slot, line, column, assigned@));
    } else {
        assert(finding_models(findings@) =~= finding_models(old(findings)@) + slot_read(*program, slot, line, column, assigned@));
    }
}

/// Records the unassigned reads `op` performs.
fn record_reads(
    op: &Op,
    program: &Program,
    assigned: &BitSet,
    load_cache: &mut Vec<LoadSet>,
    workspace: &mut ExpressionWorkspace,
    findings: &mut Vec<UnassignedUse>,
)
    requires
        assigned.wf(),
        program.expr_ops@.len() < usize::MAX,
        cache_ok(*program, old(load_cache)@),
    ensures
        cache_ok(*program, final(load_cache)@),
        finding_models(final(findings)@) == finding_models(old(findings)@) + op_findings(*program, *op, assigned@),
{
    let ghost base = finding_models(findings@);
    match op {
        Op::SetSlot { value, .. } => {
            record_unassigned(*value, program, assigned, load_cache, workspace, findings);
        },
        Op::CopySlot { source, line, column, .. } => {
            record_slot_read(*source, *line, *column, program, assigned, findings);
        },
        Op::Update { slot, operation, line, column } => {
            record_slot_read(*slot, *line, *column, program, assigned, findings);
            let ghost direct = finding_models(findings@);
            let ids = update_chunks(*operation);
            let ghost idseq = update_chunk_ids(*operation);
            match ids[0] {
                Some(first) => {
                    record_unassigned(first, program, assigned, load_cache, workspace, findings);
                    assert(idseq.len() >= 1);
                    assert(idseq.subrange(0, 1).drop_last() =~= Seq::<nat>::empty());
                    assert(idseq.subrange(0, 1).last() == first as nat);
                    assert(chunks_findings(*program, Seq::<nat>::empty(), assigned@) =~= Seq::<(Seq<char>, nat, nat)>::empty());
                    assert(chunks_findings(*program, idseq.subrange(0, 1), assigned@) =~= chunk_findings(
                        *program,
                        first as nat,
                        assigned@,
                    ));
                    match ids[1] {
                        Some(second) => {
                            record_unassigned(second, program, assigned, load_cache, workspace, findings);
                            assert(idseq.len() == 2);
                            assert(idseq.drop_last() =~= idseq.subrange(0, 1));
                            assert(finding_models(findings@) =~= direct + chunks_findings(*program, idseq, assigned@));
                        },
                        None => {
                            assert(idseq.len() == 1);
                            assert(idseq.subrange(0, 1) =~= idseq);
                            assert(finding_models(findings@) =~= direct + chunks_findings(*program, idseq, assigned@));
                        },
                    }
                },
                None => {
                    assert(idseq.len() == 0);
                    assert(finding_models(findings@) =~= direct + chunks_findings(*program, idseq, assigned@));
                },
            }
            assert(finding_models(findings@) =~= base + op_findings(*program, *op, assigned@));
        },
        Op::JumpIfFalse { condition, .. } | Op::JumpIfIntegerCompare { condition, .. } => {
            record_unassigned(*condition, program, assigned, load_cache, workspace, findings);
        },
        Op::Host(host) => {
            let ghost ids = Seq::new(host.args@.len(), |i: int| host.args@[i] as nat);
            let mut k: usize = 0;
            assert(ids.subrange(0, 0) =~= Seq::<nat>::empty());
            assert(finding_models(findings@) =~= base + chunks_findings(*program, ids.subrange(0, 0), assigned@));
            while k < host.args.len()
                invariant
                    assigned.wf(),
                    program.expr_ops@.len() < usize::MAX,
                    cache_ok(*program, load_cache@),
                    k <= host.args@.len(),
                    ids == Seq::new(host.args@.len(), |i: int| host.args@[i] as nat),
                    finding_models(findings@) == base + chunks_findings(*program, ids.subrange(0, k as int), assigned@),
                decreases host.args@.len() - k,
            {
                record_unassigned(host.args[k], program, assigned, load_cache, workspace, findings);
                assert(ids.subrange(0, k + 1).drop_last() =~= ids.subrange(0, k as int));
                assert(ids.subrange(0, k + 1).last() == host.args@[k as int] as nat);
                assert(finding_models(findings@) =~= base + chunks_findings(*program, ids.subrange(0, k + 1), assigned@));
                k = k + 1;
            }
            assert(ids.subrange(0, ids.len() as int) =~= ids);
        },
        _ => {
            assert(finding_models(findings@) =~= base + Seq::<(Seq<char>, nat, nat)>::empty());
        },
    }
}

/// Records the reads of instructions `start..end` and adds their
/// assignments to `assigned`.
fn record_range(
    program: &Program,
    start: usize,
    end: usize,
    assigned: &mut BitSet,
    load_cache: &mut Vec<LoadSet>,
    workspace: &mut ExpressionWorkspace,
    findings: &mut Vec<UnassignedUse>,
)
    requires
        start <= end <= program.ops@.len(),
        old(assigned).wf(),
        program.expr_ops@.len() < usize::MAX,
        cache_ok(*program, old(load_cache)@),
    ensures
        final(assigned).wf(),
        final(assigned).len == old(assigned).len,
        final(assigned)@ == after_range(old(assigned)@, program.ops@, start as int, end as int),
        cache_ok(*program, final(load_cache)@),
        finding_models(final(findings)@) == finding_models(old(findings)@) + range_findings(
            *program,
            old(assigned)@,
            start as int,
            end as int,
        ),
{
    let ghost s0 = assigned@;
    let ghost base = finding_models(findings@);
    let mut pc = start;
    assert(finding_models(findings@) =~= base + range_findings(*program, s0, start as int, start as int));
    while pc < end
        invariant
            start <= pc <= end,
            end <= program.ops@.len(),
            assigned.wf(),
            assigned.len == s0.len(),
            assigned@ == after_range(s0, program.ops@, start as int, pc as int),
            program.expr_ops@.len() < usize::MAX,
            cache_ok(*program, load_cache@),
            finding_models(findings@) == base + range_findings(*program, s0, start as int, pc as int),
        decreases end - pc,
    {
        record_reads(&program.ops[pc], program, assigned, load_cache, workspace, findings);
        proof {
            lemma_after_range_len(s0, program.ops@, start as int, pc as int);
        }
        match assigned_slot(&program.ops[pc]) {
            Some(slot) => assigned.insert(slot),
            None => {},
        }
        assert(finding_models(findings@) =~= base + range_findings(*program, s0, start as int, pc + 1));
        pc = pc + 1;
    }
}

/// The reads of a straight-line program that are not assigned when they
/// run, starting from the slots in `assigned`.
fn find_unassigned_linear(program: &Program, assigned: BitSet) -> (r: Vec<UnassignedUse>)
    requires
        assigned.wf(),
        program.expr_ops@.len() < usize::MAX,
    ensures
        finding_models(r@) == range_findings(*program, assigned@, 0, program.ops@.len() as int),
{
    let ghost start = assigned@;
    let mut findings: Vec<UnassignedUse> = Vec::new();
    let mut load_cache = empty_cache(program.chunks.len());
    let mut workspace = ExpressionWorkspace::new();
    let mut assigned = assigned;
    assert(finding_models(findings@) =~= Seq::<(Seq<char>, nat, nat)>::empty());
    record_range(program, 0, program.ops.len(), &mut assigned, &mut load_cache, &mut workspace, &mut findings);
    assert(finding_models(findings@) =~= range_findings(*program, start, 0, program.ops@.len() as int));
    findings
}

// ---------------------------------------------------------------------------
// The must-assignment equations, solved by a worklist
// ---------------------------------------------------------------------------

/// The control-flow facts the analysis relies on.
spec fn flow_ok(ops: Seq<Op>, flow: ControlFlow) -> bool {
    let nb = flow.blocks@.len();
    &&& describes(flow, ops)
    &&& forall|b: int, j: int|
        0 <= b < nb && 0 <= j < flow.predecessors@[b]@.len() ==> #[trigger] flow.predecessors@[b]@[j] < nb
}

proof fn lemma_flow_ok(ops: Seq<Op>, flow: ControlFlow)
    requires
        describes(flow, ops),
        flow.blocks@.len() <= usize::MAX,
    ensures
        flow_ok(ops, flow),
{
    let nb = flow.blocks@.len();
    let succ = Seq::new(flow.successors@.len(), |i: int| flow.successors@[i]@);
    assert forall|b: int, j: int| 0 <= b < nb && 0 <= j < flow.predecessors@[b]@.len() implies #[trigger] flow.predecessors@[b]@[j]
        < nb by {
        lemma_preds_member(succ, b as usize, nb as int, 0);
        assert(flow.predecessors@[b]@ == crate::cfg::predecessors_upto(succ, b as usize, nb as int));
    }
}

/// The slots assigned on entry to `block_id`: the intersection of what its
/// reachable predecessors leave assigned, and the entry set for the first
/// block or a block without such predecessors.
fn incoming_set(block_id: usize, flow: &ControlFlow, assigned_out: &Vec<BitSet>, entry: &BitSet) -> (r: BitSet)
    requires
        block_id < flow.blocks@.len(),
        flow.predecessors@.len() == flow.blocks@.len(),
        flow.reachable@.len() == flow.blocks@.len(),
        forall|j: int|
            0 <= j < flow.predecessors@[block_id as int]@.len() ==> #[trigger] flow.predecessors@[block_id as int]@[j]
                < flow.blocks@.len(),
        assigned_out@.len() == flow.blocks@.len(),
        forall|c: int| 0 <= c < assigned_out@.len() ==> (#[trigger] assigned_out@[c]).wf() && assigned_out@[c].len == entry.len,
        entry.wf(),
    ensures
        r.wf(),
        r.len == entry.len,
        r@ == incoming_of(*flow, out_views(assigned_out@), entry@, block_id as int),
{
    let ghost outs = out_views(assigned_out@);
    let ghost b = block_id as int;
    let preds = &flow.predecessors[block_id];
    let ghost pv = preds@;
    let ghost reach = flow.reachable@;
    let mut have = block_id == 0;
    let mut acc = entry.copy();
    let mut k: usize = 0;
    proof {
        if b == 0 {
            assert(acc@ =~= incoming_upto(b, pv, reach, outs, entry@, 0));
        }
    }
    while k < preds.len()
        invariant
            pv == preds@,
            pv == flow.predecessors@[b]@,
            reach == flow.reachable@,
            reach.len() == assigned_out@.len(),
            outs == out_views(assigned_out@),
            forall|j: int| 0 <= j < pv.len() ==> #[trigger] pv[j] < assigned_out@.len(),
            forall|c: int| 0 <= c < assigned_out@.len() ==> (#[trigger] assigned_out@[c]).wf() && assigned_out@[c].len == entry.len,
            b == block_id,
            k <= pv.len(),
            acc.wf(),
            acc.len == entry.len,
            have == (b == 0 || exists|j: int| 0 <= j < k && reach[#[trigger] pv[j] as int]),
            acc@ == incoming_upto(b, pv, reach, outs, entry@, k as int),
        decreases pv.len() - k,
    {
        let p = preds[k];
        let ghost before = acc@;
        if flow.reachable[p] {
            if have {
                acc.intersect_assign(&assigned_out[p]);
            } else {
                acc = assigned_out[p].copy();
                have = true;
            }
            proof {
                assert(reach[pv[k as int] as int]);
                let next = incoming_upto(b, pv, reach, outs, entry@, k + 1);
                assert forall|i: int| 0 <= i < acc@.len() implies acc@[i] == next[i] by {
                    assert(outs[p as int] == assigned_out@[p as int]@);
                    if forall|j: int| 0 <= j < k + 1 && reach[#[trigger] pv[j] as int] ==> outs[pv[j] as int][i] {
                        assert(pv[k as int] == p);
                    }
                }
                assert(acc@ =~= next);
            }
        } else {
            proof {
                let next = incoming_upto(b, pv, reach, outs, entry@, k + 1);
                if exists|j: int| 0 <= j < k + 1 && reach[#[trigger] pv[j] as int] {
                    let j = choose|j: int| 0 <= j < k + 1 && reach[#[trigger] pv[j] as int];
                    assert(j < k);
                }
                if b == 0 || exists|j: int| 0 <= j < k && reach[#[trigger] pv[j] as int] {
                    assert forall|i: int| 0 <= i < acc@.len() implies acc@[i] == next[i] by {
                        if forall|j: int| 0 <= j < k && reach[#[trigger] pv[j] as int] ==> outs[pv[j] as int][i] {
                            assert forall|j: int| 0 <= j < k + 1 && reach[#[trigger] pv[j] as int] implies outs[pv[j] as int][i] by {
                                if j == k {
                                    assert(!reach[pv[j] as int]);
                                }
                            }
                        }
                    }
                    assert(acc@ =~= next);
                }
            }
        }
        k = k + 1;
    }
    acc
}

/// How many flags are set.
spec fn count_true(s: Seq<bool>) -> nat
    decreases s.len(),
{
    if s.len() == 0 {
        0
    } else {
        count_true(s.drop_last()) + if s.last() {
            1nat
        } else {
            0nat
        }
    }
}

/// How many flags are set over all blocks.
spec fn total(outs: Seq<Seq<bool>>) -> nat
    decreases outs.len(),
{
    if outs.len() == 0 {
        0
    } else {
        total(outs.drop_last()) + count_true(outs.last())
    }
}

proof fn lemma_count_within(a: Seq<bool>, b: Seq<bool>)
    requires
        within(a, b),
    ensures
        count_true(a) <= count_true(b),
        a != b ==> count_true(a) < count_true(b),
    decreases a.len(),
{
    if a.len() > 0 {
        let a1 = a.drop_last();
        let b1 = b.drop_last();
        assert forall|i: int| 0 <= i < a1.len() && #[trigger] a1[i] implies b1[i] by {
            assert(a[i]);
        }
        lemma_count_within(a1, b1);
        if a != b && a1 == b1 {
            assert(a.last() != b.last()) by {
                if a.last() == b.last() {
                    assert forall|i: int| 0 <= i < a.len() implies a[i] == b[i] by {
                        if i < a.len() - 1 {
                            assert(a1[i] == a[i] && b1[i] == b[i]);
                        }
                    }
                    assert(a =~= b);
                }
            }
        }
    } else {
        assert(a =~= b);
    }
}

proof fn lemma_total_update(outs: Seq<Seq<bool>>, i: int, x: Seq<bool>)
    requires
        0 <= i < outs.len(),
    ensures
        total(outs.update(i, x)) + count_true(outs[i]) == total(outs) + count_true(x),
    decreases outs.len(),
{
    if i < outs.len() - 1 {
        lemma_total_update(outs.drop_last(), i, x);
        assert(outs.update(i, x).drop_last() =~= outs.drop_last().update(i, x));
    } else {
        assert(outs.update(i, x).drop_last() =~= outs.drop_last());
    }
}

/// The worklist's bookkeeping: each waiting block is queued once, and
/// `queued` marks exactly the waiting blocks.
spec fn queue_ok(pending: Seq<usize>, queued: Seq<bool>, nb: nat) -> bool {
    &&& queued.len() == nb
    &&& forall|a: int, b: int| 0 <= a < b < pending.len() ==> #[trigger] pending[a] != #[trigger] pending[b]
    &&& forall|k: int| 0 <= k < pending.len() ==> #[trigger] pending[k] < nb
    &&& forall|i: int| 0 <= i < nb ==> (#[trigger] queued[i] <==> pending.contains(i as usize))
}

/// The sets each block leaves assigned, iterated down from "every slot" to
/// the greatest solution of the must-assignment equations.
fn solve_assigned(program: &Program, flow: &ControlFlow, entry: &BitSet) -> (r: Vec<BitSet>)
    requires
        describes(*flow, program.ops@),
        program.ops@.len() > 0,
        entry.wf(),
        entry.len <= u32::MAX,
    ensures
        r@.len() == flow.blocks@.len(),
        forall|c: int| 0 <= c < r@.len() ==> (#[trigger] r@[c]).wf() && r@[c].len == entry.len,
        greatest(program.ops@, *flow, out_views(r@), entry@),
{
    let ghost ops = program.ops@;
    let nb = flow.blocks.len();
    let ghost succ = Seq::new(flow.successors@.len(), |i: int| flow.successors@[i]@);
    proof {
        lemma_flow_ok(ops, *flow);
        assert(nb > 0);
        assert(edges_bounded(succ));
    }
    let ghost full = Seq::new(entry.len as nat, |i: int| true);
    let mut assigned_out: Vec<BitSet> = Vec::new();
    let mut queued: Vec<bool> = Vec::new();
    let mut c: usize = 0;
    while c < nb
        invariant
            c <= nb,
            nb == flow.blocks@.len(),
            entry.len <= u32::MAX,
            full == Seq::new(entry.len as nat, |i: int| true),
            assigned_out@.len() == c,
            queued@.len() == c,
            forall|d: int| 0 <= d < c ==> (#[trigger] assigned_out@[d]).wf() && assigned_out@[d].len == entry.len
                && assigned_out@[d]@ == full,
            forall|d: int| 0 <= d < c ==> !#[trigger] queued@[d],
        decreases nb - c,
    {
        assigned_out.push(BitSet::full(entry.len));
        queued.push(false);
        c = c + 1;
    }
    let mut pending: VecDeque<usize> = VecDeque::new();
    pending.push_back(0);
    queued.set(0, true);
    proof {
        let outs = out_views(assigned_out@);
        assert forall|d: int| 0 <= d < nb implies #[trigger] outs[d] == full by {
            assert(outs[d] == assigned_out@[d]@);
        }
        assert(pending@ =~= seq![0usize]);
        assert(path_to(succ, seq![0usize], 0));
        assert(flow.reachable@[0]);
        assert forall|i: int| 0 <= i < nb implies (#[trigger] queued@[i] <==> pending@.contains(i as usize)) by {
            if i == 0 {
                assert(pending@[0] == 0);
            }
        }
        assert forall|d: int| 0 <= d < nb && flow.reachable@[d] implies within(block_out(ops, *flow, outs, entry@, d), #[trigger] outs[d]) by {
            let blk = flow.blocks@[d];
            lemma_after_range_len(incoming_of(*flow, outs, entry@, d), ops, blk.start as int, blk.end as int);
        }
        assert forall|d: int| 0 <= d < nb && flow.reachable@[d] && !queued@[d] implies #[trigger] outs[d] == block_out(ops, *flow, outs, entry@, d) by {
            assert(d != 0);
            assert(reaches(succ, d as usize));
            let p = lemma_reachable_has_predecessor(succ, d as usize);
            let preds = flow.predecessors@[d]@;
            lemma_preds_member(succ, d as usize, nb as int, p);
            assert(preds.contains(p));
            let j = choose|j: int| 0 <= j < preds.len() && preds[j] == p;
            assert(flow.reachable@[p as int]);
            assert(flow.reachable@[preds[j] as int]);
            let inc = incoming_of(*flow, outs, entry@, d);
            assert(inc =~= full);
            lemma_after_range_full(entry.len as nat, ops, flow.blocks@[d].start as int, flow.blocks@[d].end as int);
        }
        assert forall|t: Seq<Seq<bool>>| #[trigger] solves(ops, *flow, t, entry@) implies below_on_reachable(*flow, t, outs) by {
            assert forall|d: int| 0 <= d < outs.len() && flow.reachable@[d] implies within(#[trigger] t[d], outs[d]) by {
                assert(t[d].len() == entry@.len());
            }
        }
    }
    while pending.len() > 0
        invariant
            ops == program.ops@,
            flow_ok(ops, *flow),
            nb == flow.blocks@.len(),
            succ == Seq::new(flow.successors@.len(), |i: int| flow.successors@[i]@),
            edges_bounded(succ),
            entry.wf(),
            assigned_out@.len() == nb,
            forall|d: int| 0 <= d < nb ==> (#[trigger] assigned_out@[d]).wf() && assigned_out@[d].len == entry.len,
            queue_ok(pending@, queued@, nb as nat),
            forall|k: int| 0 <= k < pending@.len() ==> flow.reachable@[#[trigger] pending@[k] as int],
            forall|d: int|
                0 <= d < nb && flow.reachable@[d] ==> within(
                    block_out(ops, *flow, out_views(assigned_out@), entry@, d),
                    #[trigger] out_views(assigned_out@)[d],
                ),
            forall|d: int|
                0 <= d < nb && flow.reachable@[d] && !queued@[d] ==> #[trigger] out_views(assigned_out@)[d] == block_out(
                    ops,
                    *flow,
                    out_views(assigned_out@),
                    entry@,
                    d,
                ),
            forall|t: Seq<Seq<bool>>| #[trigger] solves(ops, *flow, t, entry@) ==> below_on_reachable(*flow, t, out_views(assigned_out@)),
        decreases total(out_views(assigned_out@)), pending@.len(),
    {
        let ghost outs = out_views(assigned_out@);
        let ghost pending0 = pending@;
        let ghost queued0 = queued@;
        let b = match pending.pop_front() {
            Some(x) => x,
            None => 0,
        };
        assert(pending0[0] == b && pending@ =~= pending0.drop_first());
        queued.set(b, false);
        proof {
            assert forall|x: int, y: int| 0 <= x < y < pending@.len() implies #[trigger] pending@[x] != #[trigger] pending@[y] by {
                assert(pending0[x + 1] != pending0[y + 1]);
            }
            assert forall|k: int| 0 <= k < pending@.len() implies #[trigger] pending@[k] < nb by {
                assert(pending@[k] == pending0[k + 1]);
            }
            assert forall|k: int| 0 <= k < pending@.len() implies flow.reachable@[#[trigger] pending@[k] as int] by {
                assert(pending@[k] == pending0[k + 1]);
            }
            assert forall|i: int| 0 <= i < nb implies (#[trigger] queued@[i] <==> pending@.contains(i as usize)) by {
                if i == b as int {
                    if pending@.contains(i as usize) {
                        let k = choose|k: int| 0 <= k < pending@.len() && pending@[k] == i as usize;
                        assert(pending0[k + 1] == pending0[0]);
                    }
                } else {
                    assert(queued0[i] == queued@[i]);
                    if queued0[i] {
                        let k = choose|k: int| 0 <= k < pending0.len() && pending0[k] == i as usize;
                        assert(k != 0);
                        assert(pending@[k - 1] == i as usize);
                    }
                    if pending@.contains(i as usize) {
                        let k = choose|k: int| 0 <= k < pending@.len() && pending@[k] == i as usize;
                        assert(pending0[k + 1] == i as usize);
                    }
                }
            }
        }
        let mut outgoing = incoming_set(b, flow, &assigned_out, entry);
        let block = flow.blocks[b];
        proof {
            crate::cfg::lemma_block_bounds(flow.blocks@, ops, b as int);
        }
        let ghost inc = outgoing@;
        let mut pc = block.start;
        while pc < block.end
            invariant
                block.start <= pc <= block.end,
                block.end <= ops.len(),
                ops == program.ops@,
                outgoing.wf(),
                outgoing.len == entry.len,
                inc.len() == entry.len,
                outgoing@ == after_range(inc, ops, block.start as int, pc as int),
            decreases block.end - pc,
        {
            proof {
                lemma_after_range_len(inc, ops, block.start as int, pc as int);
            }
            match assigned_slot(&program.ops[pc]) {
                Some(slot) => outgoing.insert(slot),
                None => {},
            }
            pc = pc + 1;
        }
        let ghost new = outgoing@;
        assert(new == block_out(ops, *flow, outs, entry@, b as int));
        if !outgoing.same(&assigned_out[b]) {
            assigned_out.set(b, outgoing);
            let ghost after = out_views(assigned_out@);
            proof {
                assert(after =~= outs.update(b as int, new));
                assert(within(new, outs[b as int]));
                lemma_count_within(new, outs[b as int]);
                lemma_total_update(outs, b as int, new);
                assert forall|d: int| 0 <= d < nb implies within(#[trigger] after[d], outs[d]) by {
                    if d != b as int {
                        assert(after[d] == outs[d]);
                    }
                }
                assert forall|d: int| 0 <= d < nb && flow.reachable@[d] implies within(
                    block_out(ops, *flow, after, entry@, d),
                    #[trigger] after[d],
                ) by {
                    let preds = flow.predecessors@[d]@;
                    lemma_incoming_monotone(d, preds, flow.reachable@, after, outs, entry@, preds.len() as int);
                    let blk = flow.blocks@[d];
                    lemma_after_range_monotone(
                        incoming_of(*flow, after, entry@, d),
                        incoming_of(*flow, outs, entry@, d),
                        ops,
                        blk.start as int,
                        blk.end as int,
                    );
                    if d != b as int {
                        assert(after[d] == outs[d]);
                    }
                }
                assert forall|t: Seq<Seq<bool>>| #[trigger] solves(ops, *flow, t, entry@) implies below_on_reachable(*flow, t, after) by {
                    assert(below_on_reachable(*flow, t, outs));
                    assert forall|d: int| 0 <= d < after.len() && flow.reachable@[d] implies within(#[trigger] t[d], after[d]) by {
                        if d == b as int {
                            let preds = flow.predecessors@[d]@;
                            assert forall|c: int| 0 <= c < t.len() && flow.reachable@[c] implies within(#[trigger] t[c], outs[c]) by {
                                assert(within(t[c], outs[c]));
                            }
                            lemma_incoming_monotone_reachable(d, preds, flow.reachable@, t, outs, entry@, preds.len() as int);
                            let blk = flow.blocks@[d];
                            lemma_after_range_monotone(
                                incoming_of(*flow, t, entry@, d),
                                incoming_of(*flow, outs, entry@, d),
                                ops,
                                blk.start as int,
                                blk.end as int,
                            );
                            assert(t[d] == block_out(ops, *flow, t, entry@, d));
                        } else {
                            assert(after[d] == outs[d]);
                            assert(within(t[d], outs[d]));
                        }
                    }
                }
            }
            let succs = &flow.successors[b];
            let ghost queued1 = queued@;
            let mut k: usize = 0;
            while k < succs.len()
                invariant
                    succs@ == succ[b as int],
                    b < nb,
                    flow.reachable@[b as int],
                    flow_ok(ops, *flow),
                    nb == flow.blocks@.len(),
                    succ == Seq::new(flow.successors@.len(), |i: int| flow.successors@[i]@),
                    edges_bounded(succ),
                    k <= succs@.len(),
                    queue_ok(pending@, queued@, nb as nat),
                    forall|x: int| 0 <= x < pending@.len() ==> flow.reachable@[#[trigger] pending@[x] as int],
                    forall|i: int| 0 <= i < nb && #[trigger] queued1[i] ==> queued@[i],
                    forall|j: int| 0 <= j < k ==> queued@[#[trigger] succs@[j] as int],
                    after == out_views(assigned_out@),
                decreases succs@.len() - k,
            {
                let s = succs[k];
                assert(s < nb);
                if !queued[s] {
                    let ghost pending_before = pending@;
                    queued.set(s, true);
                    pending.push_back(s);
                    proof {
                        assert(describes(*flow, ops));
                        assert(reaches(succ, b));
                        lemma_reaches_successor(succ, b, s);
                        assert(flow.reachable@[s as int]);
                        assert forall|x: int, y: int| 0 <= x < y < pending@.len() implies #[trigger] pending@[x] != #[trigger] pending@[y] by {
                            if y == pending_before.len() {
                                assert(pending@[x] == pending_before[x]);
                                if pending_before[x] == s {
                                    assert(pending_before.contains(s));
                                }
                            } else {
                                assert(pending@[x] == pending_before[x]);
                                assert(pending@[y] == pending_before[y]);
                            }
                        }
                        assert forall|x: int| 0 <= x < pending@.len() implies #[trigger] pending@[x] < nb && flow.reachable@[pending@[x] as int] by {
                            if x < pending_before.len() {
                                assert(pending@[x] == pending_before[x]);
                            }
                        }
                        assert forall|i: int| 0 <= i < nb implies (#[trigger] queued@[i] <==> pending@.contains(i as usize)) by {
                            if i == s as int {
                                assert(pending@[pending_before.len() as int] == s);
                            } else {
                                if pending_before.contains(i as usize) {
                                    let x = choose|x: int| 0 <= x < pending_before.len() && pending_before[x] == i as usize;
                                    assert(pending@[x] == i as usize);
                                }
                                if pending@.contains(i as usize) {
                                    let x = choose|x: int| 0 <= x < pending@.len() && pending@[x] == i as usize;
                                    assert(pending_before[x] == i as usize);
                                }
                            }
                        }
                    }
                }
                k = k + 1;
            }
            proof {
                assert forall|d: int|
                    0 <= d < nb && flow.reachable@[d] && !queued@[d] implies #[trigger] after[d] == block_out(
                        ops,
                        *flow,
                        after,
                        entry@,
                        d,
                    ) by {
                    let preds = flow.predecessors@[d]@;
                    assert(!succ[b as int].contains(d as usize)) by {
                        if succ[b as int].contains(d as usize) {
                            let j = choose|j: int| 0 <= j < succs@.len() && succs@[j] == d as usize;
                            assert(queued@[succs@[j] as int]);
                        }
                    }
                    assert forall|j: int| 0 <= j < preds.len() implies #[trigger] preds[j] as int != b as int && preds[j] < outs.len() by {
                        lemma_preds_member(succ, d as usize, nb as int, preds[j]);
                        assert(preds.contains(preds[j]));
                    }
                    lemma_incoming_frame(d, preds, flow.reachable@, outs, b as int, new, entry@, preds.len() as int);
                    if d != b as int {
                        assert(!queued1[d]);
                        assert(!queued0[d]);
                        assert(after[d] == outs[d]);
                    }
                }
            }
        } else {
            proof {
                assert(new == outs[b as int]);
            }
        }
    }
    assigned_out
}

/// The reads of the reachable blocks that are not assigned on entry to the
/// block or by the instructions before them in it.
fn find_unassigned_reads(program: &Program, flow: &ControlFlow, assigned_out: &Vec<BitSet>, entry: &BitSet) -> (r: Vec<
    UnassignedUse,
>)
    requires
        flow_ok(program.ops@, *flow),
        program.expr_ops@.len() < usize::MAX,
        assigned_out@.len() == flow.blocks@.len(),
        forall|c: int| 0 <= c < assigned_out@.len() ==> (#[trigger] assigned_out@[c]).wf() && assigned_out@[c].len == entry.len,
        entry.wf(),
    ensures
        finding_models(r@) == blocks_findings(
            *program,
            *flow,
            out_views(assigned_out@),
            entry@,
            flow.blocks@.len() as int,
        ),
{
    let ghost outs = out_views(assigned_out@);
    let mut findings: Vec<UnassignedUse> = Vec::new();
    let mut load_cache = empty_cache(program.chunks.len());
    let mut workspace = ExpressionWorkspace::new();
    let mut b: usize = 0;
    assert(finding_models(findings@) =~= blocks_findings(*program, *flow, outs, entry@, 0));
    while b < flow.blocks.len()
        invariant
            flow_ok(program.ops@, *flow),
            program.expr_ops@.len() < usize::MAX,
            assigned_out@.len() == flow.blocks@.len(),
            forall|c: int| 0 <= c < assigned_out@.len() ==> (#[trigger] assigned_out@[c]).wf() && assigned_out@[c].len == entry.len,
            entry.wf(),
            outs == out_views(assigned_out@),
            b <= flow.blocks@.len(),
            cache_ok(*program, load_cache@),
            finding_models(findings@) == blocks_findings(*program, *flow, outs, entry@, b as int),
        decreases flow.blocks@.len() - b,
    {
        let ghost before = finding_models(findings@);
        if flow.reachable[b] {
            let mut assigned = incoming_set(b, flow, assigned_out, entry);
            let block = flow.blocks[b];
            proof {
                crate::cfg::lemma_block_bounds(flow.blocks@, program.ops@, b as int);
            }
            record_range(program, block.start, block.end, &mut assigned, &mut load_cache, &mut workspace, &mut findings);
        } else {
            assert(finding_models(findings@) =~= before + Seq::<(Seq<char>, nat, nat)>::empty());
        }
        b = b + 1;
    }
    findings
}

/// `findings` are the reads the analysis reports for `p` when the slots in
/// `preset` are assigned on entry: nothing for an empty program; for a
/// straight-line program, each read whose slot the instructions before it
/// leave unassigned; otherwise, over the program's control-flow graph and the
/// greatest solution of the must-assignment equations, each read in a
/// reachable block
/// whose slot is not assigned on entry to the block or before it in the
/// block. Findings come in instruction order, and within one expression by
/// slot and column.
pub open spec fn reports(p: Program, preset: Seq<u32>, findings: Seq<(Seq<char>, nat, nat)>) -> bool {
    let entry = entry_set(p.slots.width(), preset);
    let n = p.ops@.len();
    if n == 0 {
        findings.len() == 0
    } else if straight_line(p.ops@) {
        findings == range_findings(p, entry, 0, n as int)
    } else {
        exists|flow: ControlFlow, outs: Seq<Seq<bool>>|
            #![trigger greatest(p.ops@, flow, outs, entry)]
            describes(flow, p.ops@) && greatest(p.ops@, flow, outs, entry) && findings == blocks_findings(
                p,
                flow,
                outs,
                entry,
                flow.blocks@.len() as int,
            )
    }
}

/// Runs definite-assignment analysis with the slots in `preset` assigned on
/// entry, returning every read that is not definitely assigned.
pub fn definite_assignment_slots(program: &Program, preset: &[u32]) -> (r: Vec<UnassignedUse>)
    requires
        program.slots.wf(),
        program.expr_ops@.len() < usize::MAX,
    ensures
        reports(*program, preset@, finding_models(r@)),
{
    let slot_count = program.slots.len();
    if program.ops.len() == 0 {
        let none: Vec<UnassignedUse> = Vec::new();
        assert(finding_models(none@).len() == 0);
        return none;
    }
    proof {
        program.slots.lemma_width_fits();
    }
    let mut entry = BitSet::empty(slot_count);
    let mut i: usize = 0;
    while i < preset.len()
        invariant
            i <= preset@.len(),
            slot_count <= u32::MAX,
            entry.wf(),
            entry.len == slot_count,
            entry@ == entry_set(slot_count as nat, preset@.subrange(0, i as int)),
        decreases preset@.len() - i,
    {
        let ghost before = entry@;
        entry.insert(preset[i]);
        proof {
            let now = entry_set(slot_count as nat, preset@.subrange(0, i + 1));
            let shorter = preset@.subrange(0, i as int);
            let longer = preset@.subrange(0, i + 1);
            assert forall|x: int| 0 <= x < slot_count implies entry@[x] == now[x] by {
                let v = x as u32;
                assert(v as int == x);
                assert(before[x] == shorter.contains(v));
                assert(now[x] == longer.contains(v));
                if x == preset@[i as int] as int {
                    assert(longer[i as int] == v);
                    assert(entry@[x]);
                } else {
                    assert(entry@[x] == before[x]);
                }
                if shorter.contains(v) {
                    let k = choose|k: int| 0 <= k < shorter.len() && #[trigger] shorter[k] == v;
                    assert(longer[k] == v);
                }
                if longer.contains(v) {
                    let k = choose|k: int| 0 <= k < longer.len() && #[trigger] longer[k] == v;
                    if k < i {
                        assert(shorter[k] == v);
                    } else {
                        assert(v == preset@[i as int]);
                    }
                }
            }
            assert(entry@ =~= now);
        }
        i = i + 1;
    }
    assert(preset@.subrange(0, preset@.len() as int) =~= preset@);
    if is_straight_line(&program.ops) {
        return find_unassigned_linear(program, entry);
    }
    let flow = ControlFlow::new(&program.ops);
    let assigned_out = solve_assigned(program, &flow, &entry);
    proof {
        lemma_flow_ok(program.ops@, flow);
    }
    let findings = find_unassigned_reads(program, &flow, &assigned_out, &entry);
    proof {
        let outs = out_views(assigned_out@);
        assert(describes(flow, program.ops@) && greatest(program.ops@, flow, outs, entry@) && finding_models(findings@)
            == blocks_findings(*program, flow, outs, entry@, flow.blocks@.len() as int));
    }
    findings
}

/// The slots of the names in `names` that the table binds, in order.
pub open spec fn named_slots(slots: crate::slots::SlotTable, names: Seq<Seq<char>>) -> Seq<u32>
    decreases names.len(),
{
    if names.len() == 0 {
        Seq::empty()
    } else {
        named_slots(slots, names.drop_last()) + match slots.slot_of(names.last()) {
            Some(slot) => seq![slot as u32],
            None => Seq::empty(),
        }
    }
}

/// Runs definite-assignment analysis over `program`, treating the slots of
/// the `preset` names (such as variables the host seeds before running) as
/// assigned on entry. Returns every read that is not definitely assigned,
/// in program order.
pub fn definite_assignment(program: &Program, preset: &[String]) -> (r: Vec<UnassignedUse>)
    requires
        program.slots.wf(),
        program.expr_ops@.len() < usize::MAX,
    ensures
        reports(*program, named_slots(program.slots, crate::slots::name_views(preset@)), finding_models(r@)),
{
    let ghost names = crate::slots::name_views(preset@);
    let mut slots: Vec<u32> = Vec::new();
    let mut i: usize = 0;
    while i < preset.len()
        invariant
            program.slots.wf(),
            i <= preset@.len(),
            names == crate::slots::name_views(preset@),
            slots@ == named_slots(program.slots, names.subrange(0, i as int)),
        decreases preset@.len() - i,
    {
        let found = program.slots.get(preset[i].as_str());
        assert(names.subrange(0, i + 1).drop_last() =~= names.subrange(0, i as int));
        assert(names.subrange(0, i + 1).last() == preset@[i as int]@);
        match found {
            Some(slot) => {
                slots.push(slot);
                assert(slots@ =~= named_slots(program.slots, names.subrange(0, i + 1)));
            },
            None => {
                assert(slots@ =~= named_slots(program.slots, names.subrange(0, i + 1)));
            },
        }
        i = i + 1;
    }
    assert(names.subrange(0, names.len() as int) =~= names);
    definite_assignment_slots(program, slots.as_slice())
}

// ---------------------------------------------------------------------------
// Soundness
// ---------------------------------------------------------------------------

/// The entry set of a block on a path from the entry block is below what
/// running the blocks of the path before it assigns.
proof fn lemma_incoming_along(ops: Seq<Op>, flow: ControlFlow, outs: Seq<Seq<bool>>, entry: Seq<bool>, path: Seq<usize>)
    requires
        describes(flow, ops),
        ops.len() > 0,
        flow.blocks@.len() <= usize::MAX,
        solves(ops, flow, outs, entry),
        path.len() > 0,
        path_to(Seq::new(flow.successors@.len(), |i: int| flow.successors@[i]@), path, path.last()),
    ensures
        path.last() < flow.blocks@.len(),
        within(incoming_of(flow, outs, entry, path.last() as int), along(ops, flow.blocks@, entry, path)),
    decreases path.len(),
{
    let succ = Seq::new(flow.successors@.len(), |i: int| flow.successors@[i]@);
    let nb = flow.blocks@.len();
    let b = path.last();
    assert(edges_bounded(succ));
    assert(nb > 0);
    lemma_path_bounded(succ, path, b, path.len() - 1);
    let inc = incoming_of(flow, outs, entry, b as int);
    if path.len() == 1 {
        assert(b == 0);
        assert forall|i: int| 0 <= i < inc.len() && #[trigger] inc[i] implies entry[i] by {}
    } else {
        let prefix = path.drop_last();
        let p = prefix.last();
        assert forall|i: int| 0 <= i < prefix.len() - 1 implies #[trigger] succ[prefix[i] as int].contains(prefix[i + 1]) by {
            assert(prefix[i] == path[i] && prefix[i + 1] == path[i + 1]);
        }
        assert(path_to(succ, prefix, p));
        lemma_incoming_along(ops, flow, outs, entry, prefix);
        assert(flow.reachable@[p as int]);
        let k = path.len() - 2;
        assert(succ[path[k] as int].contains(path[k + 1]));
        assert(succ[p as int].contains(b));
        let blk = flow.blocks@[p as int];
        let before = along(ops, flow.blocks@, entry, prefix);
        assert(outs[p as int] == block_out(ops, flow, outs, entry, p as int));
        lemma_after_range_monotone(incoming_of(flow, outs, entry, p as int), before, ops, blk.start as int, blk.end as int);
        let preds = flow.predecessors@[b as int]@;
        lemma_preds_member(succ, b, nb as int, p);
        assert(preds.contains(p));
        let j = choose|j: int| 0 <= j < preds.len() && preds[j] == p;
        assert(flow.reachable@[preds[j] as int]);
        assert forall|i: int| 0 <= i < inc.len() && #[trigger] inc[i] implies along(ops, flow.blocks@, entry, path)[i] by {
            assert(outs[preds[j] as int][i]);
        }
        lemma_after_range_len(incoming_of(flow, outs, entry, p as int), ops, blk.start as int, blk.end as int);
        lemma_after_range_len(before, ops, blk.start as int, blk.end as int);
    }
}

/// Soundness of the analysis: whatever path through the control-flow graph
/// leads from the entry block to a block, a slot the analysis counts as
/// assigned at a position of that block is assigned once the blocks of the
/// path and the block's instructions before the position have run. So a
/// read the analysis does not report never reads an unassigned slot.
pub proof fn unreported_reads_are_assigned_on_every_path(
    ops: Seq<Op>,
    flow: ControlFlow,
    outs: Seq<Seq<bool>>,
    entry: Seq<bool>,
    path: Seq<usize>,
    pc: int,
)
    requires
        describes(flow, ops),
        ops.len() > 0,
        flow.blocks@.len() <= usize::MAX,
        solves(ops, flow, outs, entry),
        path.len() > 0,
        path_to(Seq::new(flow.successors@.len(), |i: int| flow.successors@[i]@), path, path.last()),
    ensures
        path.last() < flow.blocks@.len(),
        within(
            after_range(
                incoming_of(flow, outs, entry, path.last() as int),
                ops,
                flow.blocks@[path.last() as int].start as int,
                pc,
            ),
            after_range(
                along(ops, flow.blocks@, entry, path),
                ops,
                flow.blocks@[path.last() as int].start as int,
                pc,
            ),
        ),
{
    lemma_incoming_along(ops, flow, outs, entry, path);
    let b = path.last() as int;
    lemma_after_range_monotone(
        incoming_of(flow, outs, entry, b),
        along(ops, flow.blocks@, entry, path),
        ops,
        flow.blocks@[b].start as int,
        pc,
    );
}

// ---------------------------------------------------------------------------
// Completeness
// ---------------------------------------------------------------------------

/// The edges of the graph `flow` describes.
pub open spec fn flow_edges(flow: ControlFlow) -> Seq<Seq<usize>> {
    Seq::new(flow.successors@.len(), |i: int| flow.successors@[i]@)
}

/// The slots assigned on entry to block `b` whatever path leads there.
pub open spec fn on_every_path(ops: Seq<Op>, flow: ControlFlow, entry: Seq<bool>, b: int) -> Seq<bool> {
    Seq::new(
        entry.len(),
        |i: int|
            forall|path: Seq<usize>|
                path_to(flow_edges(flow), path, b as usize) ==> #[trigger] along(ops, flow.blocks@, entry, path)[i],
    )
}

/// What each block leaves assigned when it is entered with the slots
/// assigned on every path.
pub open spec fn path_outs(ops: Seq<Op>, flow: ControlFlow, entry: Seq<bool>) -> Seq<Seq<bool>> {
    Seq::new(
        flow.blocks@.len(),
        |d: int|
            after_range(
                on_every_path(ops, flow, entry, d),
                ops,
                flow.blocks@[d].start as int,
                flow.blocks@[d].end as int,
            ),
    )
}

/// Running instructions only sets flags: a flag is set afterwards when it
/// was set before or the instructions assign it.
proof fn lemma_after_range_split(s: Seq<bool>, ops: Seq<Op>, a: int, e: int, i: int)
    requires
        0 <= i < s.len(),
    ensures
        after_range(s, ops, a, e)[i] == (s[i] || after_range(Seq::new(s.len(), |k: int| false), ops, a, e)[i]),
    decreases e - a,
{
    lemma_after_range_len(s, ops, a, e);
    lemma_after_range_len(Seq::new(s.len(), |k: int| false), ops, a, e);
    if e > a {
        lemma_after_range_split(s, ops, a, e - 1, i);
        lemma_after_range_len(s, ops, a, e - 1);
        lemma_after_range_len(Seq::new(s.len(), |k: int| false), ops, a, e - 1);
    }
}

proof fn lemma_along_len(ops: Seq<Op>, blocks: Seq<BasicBlock>, entry: Seq<bool>, path: Seq<usize>)
    ensures
        along(ops, blocks, entry, path).len() == entry.len(),
    decreases path.len(),
{
    if path.len() > 1 {
        let prefix = path.drop_last();
        let b = prefix.last() as int;
        lemma_along_len(ops, blocks, entry, prefix);
        lemma_after_range_len(along(ops, blocks, entry, prefix), ops, blocks[b].start as int, blocks[b].end as int);
    }
}

/// On a reachable block, the entry set the path solution gives is exactly
/// the set assigned on every path.
proof fn lemma_path_incoming(ops: Seq<Op>, flow: ControlFlow, entry: Seq<bool>, b: int)
    requires
        describes(flow, ops),
        ops.len() > 0,
        flow.blocks@.len() <= usize::MAX,
        0 <= b < flow.blocks@.len(),
        flow.reachable@[b],
    ensures
        incoming_of(flow, path_outs(ops, flow, entry), entry, b) == on_every_path(ops, flow, entry, b),
{
    let succ = flow_edges(flow);
    let nb = flow.blocks@.len();
    let t = path_outs(ops, flow, entry);
    let preds = flow.predecessors@[b]@;
    let inc = incoming_of(flow, t, entry, b);
    let every = on_every_path(ops, flow, entry, b);
    assert(edges_bounded(succ));
    assert(reaches(succ, b as usize));
    assert(preds == crate::cfg::predecessors_upto(succ, b as usize, nb as int));
    if b != 0 {
        let p = lemma_reachable_has_predecessor(succ, b as usize);
        lemma_preds_member(succ, b as usize, nb as int, p);
        assert(preds.contains(p));
        let j = choose|j: int| 0 <= j < preds.len() && preds[j] == p;
        assert(flow.reachable@[preds[j] as int]);
    }
    assert(inc.len() == entry.len());
    assert forall|i: int| 0 <= i < entry.len() implies inc[i] == every[i] by {
        if inc[i] {
            assert forall|path: Seq<usize>| path_to(succ, path, b as usize) implies #[trigger] along(
                ops,
                flow.blocks@,
                entry,
                path,
            )[i] by {
                if path.len() == 1 {
                    assert(b == 0);
                } else {
                    let prefix = path.drop_last();
                    let p = prefix.last();
                    assert forall|k: int| 0 <= k < prefix.len() - 1 implies #[trigger] succ[prefix[k] as int].contains(
                        prefix[k + 1],
                    ) by {
                        assert(prefix[k] == path[k] && prefix[k + 1] == path[k + 1]);
                    }
                    assert(path_to(succ, prefix, p));
                    lemma_path_bounded(succ, path, b as usize, path.len() - 2);
                    let k = path.len() - 2;
                    assert(succ[path[k] as int].contains(path[k + 1]));
                    assert(reaches(succ, p));
                    lemma_preds_member(succ, b as usize, nb as int, p);
                    let jj = choose|jj: int| 0 <= jj < preds.len() && preds[jj] == p;
                    assert(flow.reachable@[preds[jj] as int]);
                    assert(t[p as int][i]);
                    let blk = flow.blocks@[p as int];
                    let before = along(ops, flow.blocks@, entry, prefix);
                    lemma_along_len(ops, flow.blocks@, entry, prefix);
                    assert(within(on_every_path(ops, flow, entry, p as int), before)) by {
                        assert forall|x: int| 0 <= x < before.len() && #[trigger] on_every_path(ops, flow, entry, p as int)[x]
                            implies before[x] by {
                            assert(path_to(succ, prefix, p as usize));
                        }
                    }
                    lemma_after_range_monotone(on_every_path(ops, flow, entry, p as int), before, ops, blk.start as int, blk.end as int);
                    lemma_after_range_len(on_every_path(ops, flow, entry, p as int), ops, blk.start as int, blk.end as int);
                }
            }
        } else {
            if every[i] {
                if b == 0 {
                    let single = seq![0usize];
                    assert(path_to(succ, single, 0usize));
                    assert(along(ops, flow.blocks@, entry, single)[i]);
                }
                assert forall|j: int| 0 <= j < preds.len() && flow.reachable@[#[trigger] preds[j] as int] implies t[preds[j] as int][i] by {
                    let p = preds[j];
                    lemma_preds_member(succ, b as usize, nb as int, p);
                    assert(preds.contains(p));
                    assert(succ[p as int].contains(b as usize));
                    let blk = flow.blocks@[p as int];
                    let start = on_every_path(ops, flow, entry, p as int);
                    let gen = after_range(Seq::new(entry.len(), |k: int| false), ops, blk.start as int, blk.end as int);
                    lemma_after_range_split(start, ops, blk.start as int, blk.end as int, i);
                    if !gen[i] {
                        assert forall|q: Seq<usize>| path_to(succ, q, p) implies #[trigger] along(ops, flow.blocks@, entry, q)[i] by {
                            let longer = q.push(b as usize);
                            assert forall|k: int| 0 <= k < longer.len() - 1 implies #[trigger] succ[longer[k] as int].contains(
                                longer[k + 1],
                            ) by {
                                if k < q.len() - 1 {
                                    assert(longer[k] == q[k] && longer[k + 1] == q[k + 1]);
                                }
                            }
                            assert(path_to(succ, longer, b as usize));
                            assert(longer.drop_last() =~= q);
                            assert(along(ops, flow.blocks@, entry, longer)[i]);
                            lemma_along_len(ops, flow.blocks@, entry, q);
                            lemma_after_range_split(along(ops, flow.blocks@, entry, q), ops, blk.start as int, blk.end as int, i);
                        }
                        assert(start[i]);
                    }
                }
            }
        }
    }
    assert(inc =~= every);
}

/// Completeness of the analysis: when it reports that a read at position
/// `pc` of a reachable block may see slot `i` unassigned, some path through
/// the control-flow graph from the entry block reaches that read without
/// assigning the slot. With soundness, a read is reported exactly when some
/// path leaves its slot unassigned.
pub proof fn reported_reads_miss_an_assignment_on_some_path(
    ops: Seq<Op>,
    flow: ControlFlow,
    outs: Seq<Seq<bool>>,
    entry: Seq<bool>,
    b: int,
    pc: int,
    i: int,
)
    requires
        describes(flow, ops),
        ops.len() > 0,
        flow.blocks@.len() <= usize::MAX,
        greatest(ops, flow, outs, entry),
        0 <= b < flow.blocks@.len(),
        flow.reachable@[b],
        0 <= i < entry.len(),
        !after_range(incoming_of(flow, outs, entry, b), ops, flow.blocks@[b].start as int, pc)[i],
    ensures
        exists|path: Seq<usize>|
            path_to(flow_edges(flow), path, b as usize) && !#[trigger] after_range(
                along(ops, flow.blocks@, entry, path),
                ops,
                flow.blocks@[b].start as int,
                pc,
            )[i],
{
    let t = path_outs(ops, flow, entry);
    let nb = flow.blocks@.len();
    let succ = flow_edges(flow);
    let start = flow.blocks@[b].start as int;
    assert forall|d: int| 0 <= d < t.len() implies (#[trigger] t[d]).len() == entry.len() by {
        lemma_after_range_len(on_every_path(ops, flow, entry, d), ops, flow.blocks@[d].start as int, flow.blocks@[d].end as int);
    }
    assert forall|d: int| 0 <= d < t.len() && flow.reachable@[d] implies #[trigger] t[d] == block_out(ops, flow, t, entry, d) by {
        lemma_path_incoming(ops, flow, entry, d);
    }
    assert(solves(ops, flow, t, entry));
    assert(below_on_reachable(flow, t, outs));
    let preds = flow.predecessors@[b]@;
    assert(preds == crate::cfg::predecessors_upto(succ, b as usize, nb as int));
    assert forall|j: int| 0 <= j < preds.len() implies #[trigger] preds[j] < t.len() by {
        lemma_preds_member(succ, b as usize, nb as int, preds[j]);
    }
    lemma_incoming_monotone_reachable(b, preds, flow.reachable@, t, outs, entry, preds.len() as int);
    lemma_path_incoming(ops, flow, entry, b);
    let inc = incoming_of(flow, outs, entry, b);
    lemma_after_range_len(incoming_of(flow, t, entry, b), ops, start, pc);
    assert(inc.len() == entry.len());
    lemma_after_range_split(inc, ops, start, pc, i);
    assert(!on_every_path(ops, flow, entry, b)[i]);
    let path = choose|path: Seq<usize>| path_to(succ, path, b as usize) && !#[trigger] along(ops, flow.blocks@, entry, path)[i];
    lemma_along_len(ops, flow.blocks@, entry, path);
    lemma_after_range_split(along(ops, flow.blocks@, entry, path), ops, start, pc, i);
    assert(!after_range(along(ops, flow.blocks@, entry, path), ops, start, pc)[i]);
}

} // verus!
