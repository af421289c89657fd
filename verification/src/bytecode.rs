//! Register bytecode for one expression.
//!
//! Expressions use explicit source and destination registers. Short-circuit
//! branches keep their condition register, while built-ins and interpolation
//! consume contiguous register ranges. Program-level control flow lives in
//! [`crate::program::Op`] and refers to expression chunks by index.

use crate::value::{view_items, values_equal, BinaryOp, Builtin, Datum, UnaryOp, Value};
use std::ops::Range;
use vstd::prelude::*;

verus! {

/// A physical register within one expression chunk.
pub type Register = u16;

/// Clamps a source position into the compact 32-bit form.
pub open spec fn compact_position(position: nat) -> nat {
    if position <= u32::MAX {
        position
    } else {
        u32::MAX as nat
    }
}

/// Stores a source position in 32 bits, saturating at `u32::MAX`.
pub fn compact_source_position(position: usize) -> (r: u32)
    ensures
        r == compact_position(position as nat),
{
    if position <= 4294967295usize {
        position as u32
    } else {
        u32::MAX
    }
}

/// One register instruction in an expression chunk.
#[derive(Debug, PartialEq, Eq)]
pub enum ExprOp {
    /// Copy a value from the chunk constant pool into `dst`.
    Const { dst: Register, constant: u32 },
    /// Copy the current value of a frame slot into `dst`.
    Load { dst: Register, slot: u32, column: u32 },
    /// Apply a unary operator to `source` and write `dst`.
    Unary { dst: Register, op: UnaryOp, source: Register },
    /// Apply a binary operator and write `dst`.
    Binary { dst: Register, left: Register, op: BinaryOp, right: Register },
    /// Invoke a deterministic built-in on a contiguous register range.
    Call { dst: Register, function: Builtin, args: Range<Register> },
    /// Draw an integer using lower and upper bound registers.
    Random { dst: Register, args: Range<Register>, state_slot: u32 },
    /// Draw a boolean using a percentage register.
    Chance { dst: Register, args: Range<Register>, state_slot: u32 },
    /// Jump when `condition` is boolean false; other values fall through.
    JumpIfFalse { condition: Register, target: u32 },
    /// Jump when `condition` is boolean true; other values fall through.
    JumpIfTrue { condition: Register, target: u32 },
    /// Render and concatenate a contiguous register range into `dst`.
    Concat { dst: Register, values: Range<Register> },
}

/// A compiled expression with an explicit register file and result register.
///
/// `line` is the 1-based source line used for runtime diagnostics.
#[derive(Debug, PartialEq, Eq)]
pub struct ExprChunk {
    pub ops: Vec<ExprOp>,
    pub constants: Vec<Value>,
    pub registers: Register,
    pub result: Register,
    pub line: u32,
}

/// Borrowed register bytecode from a standalone chunk or a packed program.
#[derive(Debug)]
pub struct ExprChunkRef<'a> {
    pub ops: &'a [ExprOp],
    pub constants: &'a [Value],
    pub registers: Register,
    pub result: Register,
    pub line: u32,
}

/// The model of an expression chunk.
pub struct ChunkModel {
    pub ops: Seq<ExprOp>,
    pub constants: Seq<Datum>,
    pub registers: nat,
    pub result: nat,
    pub line: nat,
}

impl ExprChunk {
    pub open spec fn model(&self) -> ChunkModel {
        ChunkModel {
            ops: self.ops@,
            constants: view_items(self.constants@),
            registers: self.registers as nat,
            result: self.result as nat,
            line: self.line as nat,
        }
    }
}

impl<'a> ExprChunkRef<'a> {
    pub open spec fn model(&self) -> ChunkModel {
        ChunkModel {
            ops: self.ops@,
            constants: view_items(self.constants@),
            registers: self.registers as nat,
            result: self.result as nat,
            line: self.line as nat,
        }
    }
}

/// Index of the first constant equal to `value`.
pub open spec fn first_equal(constants: Seq<Datum>, value: Datum) -> Option<nat>
    decreases constants.len(),
{
    if constants.len() == 0 {
        None
    } else if constants[0] == value {
        Some(0)
    } else {
        match first_equal(constants.subrange(1, constants.len() as int), value) {
            Some(i) => Some(i + 1),
            None => None,
        }
    }
}

pub(crate) proof fn lemma_first_equal(constants: Seq<Datum>, value: Datum)
    ensures
        first_equal(constants, value) matches Some(i) ==> i < constants.len() && constants[i as int]
            == value && forall|j: int| 0 <= j < i ==> constants[j] != value,
        first_equal(constants, value) is None ==> forall|j: int|
            0 <= j < constants.len() ==> constants[j] != value,
    decreases constants.len(),
{
    if constants.len() > 0 {
        let rest = constants.subrange(1, constants.len() as int);
        lemma_first_equal(rest, value);
        assert forall|j: int| 1 <= j < constants.len() implies constants[j] == rest[j - 1] by {}
    }
}

impl ExprChunk {
    /// An empty chunk whose result is the fixed register 0.
    pub fn new(line: usize) -> (r: ExprChunk)
        ensures
            r.ops@.len() == 0,
            r.constants@.len() == 0,
            r.registers == 1,
            r.result == 0,
            r.line == compact_position(line as nat),
    {
        ExprChunk {
            ops: Vec::new(),
            constants: Vec::new(),
            registers: 1,
            result: 0,
            line: compact_source_position(line),
        }
    }

    /// Resets a reusable chunk while keeping its allocations.
    pub fn reset(&mut self, line: usize)
        ensures
            final(self).ops@.len() == 0,
            final(self).constants@.len() == 0,
            final(self).registers == 1,
            final(self).result == 0,
            final(self).line == compact_position(line as nat),
    {
        self.ops.clear();
        self.constants.clear();
        self.registers = 1;
        self.result = 0;
        self.line = compact_source_position(line);
    }

    /// Allocates one register after the fixed result register.
    pub fn register(&mut self) -> (r: Register)
        requires
            old(self).registers < u16::MAX,
        ensures
            r == old(self).registers,
            final(self).registers == old(self).registers + 1,
            final(self).ops == old(self).ops,
            final(self).constants == old(self).constants,
            final(self).result == old(self).result,
            final(self).line == old(self).line,
    {
        let register = self.registers;
        self.registers = self.registers + 1;
        register
    }

    /// Allocates `count` consecutive registers.
    pub fn register_range(&mut self, count: usize) -> (r: Range<Register>)
        requires
            old(self).registers + count <= u16::MAX,
        ensures
            r.start == old(self).registers,
            r.end == old(self).registers + count,
            final(self).registers == r.end,
            final(self).ops == old(self).ops,
            final(self).constants == old(self).constants,
            final(self).result == old(self).result,
            final(self).line == old(self).line,
    {
        let count = count as u16;
        let start = self.registers;
        self.registers = self.registers + count;
        Range { start, end: self.registers }
    }

    /// Interns a constant and returns its deduplicated pool index.
    pub fn constant(&mut self, value: Value) -> (r: u32)
        requires
            old(self).constants@.len() < u32::MAX,
        ensures
            first_equal(old(self).model().constants, value@) matches Some(i) ==> r == i
                && final(self).constants@ == old(self).constants@,
            first_equal(old(self).model().constants, value@) is None ==> r == old(
                self,
            ).constants@.len() && final(self).constants@ == old(self).constants@.push(value),
            final(self).ops == old(self).ops,
            final(self).registers == old(self).registers,
            final(self).result == old(self).result,
            final(self).line == old(self).line,
    {
        let ghost pool = view_items(self.constants@);
        proof {
            lemma_first_equal(pool, value@);
            crate::value::lemma_view_items(self.constants@);
        }
        let mut index: usize = 0;
        while index < self.constants.len()
            invariant
                index <= self.constants@.len(),
                pool == view_items(self.constants@),
                pool.len() == self.constants@.len(),
                self.constants@.len() < u32::MAX,
                forall|j: int| 0 <= j < index ==> pool[j] != value@,
                forall|j: int| 0 <= j < pool.len() ==> #[trigger] pool[j] == self.constants@[j]@,
                first_equal(pool, value@) matches Some(i) ==> i < pool.len() && pool[i as int]
                    == value@ && forall|j: int| 0 <= j < i ==> pool[j] != value@,
                first_equal(pool, value@) is None ==> forall|j: int|
                    0 <= j < pool.len() ==> pool[j] != value@,
            decreases self.constants@.len() - index,
        {
            if values_equal(&self.constants[index], &value) {
                assert(pool[index as int] == self.constants@[index as int]@);
                return index as u32;
            }
            assert(pool[index as int] == self.constants@[index as int]@);
            index = index + 1;
        }
        let index = self.constants.len() as u32;
        self.constants.push(value);
        index
    }

    /// Appends an instruction and returns its index for jump patching.
    pub fn push(&mut self, op: ExprOp) -> (r: usize)
        requires
            old(self).ops@.len() < usize::MAX,
        ensures
            r == old(self).ops@.len(),
            final(self).ops@ == old(self).ops@.push(op),
            final(self).constants == old(self).constants,
            final(self).registers == old(self).registers,
            final(self).result == old(self).result,
            final(self).line == old(self).line,
    {
        self.ops.push(op);
        self.ops.len() - 1
    }

    /// Borrows this standalone chunk in packed-program form.
    pub fn as_chunk_ref(&self) -> (r: ExprChunkRef<'_>)
        ensures
            r.model() == self.model(),
    {
        ExprChunkRef {
            ops: self.ops.as_slice(),
            constants: self.constants.as_slice(),
            registers: self.registers,
            result: self.result,
            line: self.line,
        }
    }
}

} // verus!
