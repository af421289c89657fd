//! Optional source locations kept beside an execution image.

use crate::bytecode::ExprOp;
use crate::program::{Op, Program, ProgramChunk};
use vstd::prelude::*;

verus! {

/// A source location attached to a bytecode item.
#[derive(Debug, Clone, Copy, PartialEq, Eq, Structural)]
pub struct DebugLocation {
    /// One-based source line, or zero when the item has no source location.
    pub line: u32,
    /// One-based source column, or zero when the item has no column.
    pub column: u32,
}

/// Source locations that can be dropped from a numeric-slot execution image.
///
/// Expression columns are indexed by the packed `Program::expr_ops` arena;
/// chunk and operation locations use their program indices.
#[derive(Debug, Clone, PartialEq, Eq)]
pub struct DebugTable {
    chunk_locations: Vec<DebugLocation>,
    op_locations: Vec<DebugLocation>,
    expr_columns: Vec<u32>,
}

/// The location of a chunk: its line, no column.
pub open spec fn chunk_location(chunk: ProgramChunk) -> DebugLocation {
    DebugLocation { line: chunk.line, column: 0 }
}

/// The location of a program instruction.
pub open spec fn op_location_of(chunks: Seq<ProgramChunk>, op: Op) -> DebugLocation {
    match op {
        Op::SetSlot { value, .. } | Op::JumpIfFalse { condition: value, .. } | Op::JumpIfIntegerCompare {
            condition: value,
            ..
        } => if (value as int) < chunks.len() {
            chunk_location(chunks[value as int])
        } else {
            DebugLocation { line: 0, column: 0 }
        },
        Op::SetConst { line, .. } => DebugLocation { line, column: 0 },
        Op::Host(host) => DebugLocation { line: host.line, column: 0 },
        Op::CopySlot { line, column, .. } | Op::Update { line, column, .. } => DebugLocation { line, column },
        Op::Jump(_) | Op::Halt => DebugLocation { line: 0, column: 0 },
    }
}

/// The source column of an expression instruction; zero for none.
pub open spec fn column_of(op: ExprOp) -> u32 {
    match op {
        ExprOp::Load { column, .. } => column,
        _ => 0,
    }
}

impl DebugTable {
    pub closed spec fn chunks(&self) -> Seq<DebugLocation> {
        self.chunk_locations@
    }

    pub closed spec fn ops(&self) -> Seq<DebugLocation> {
        self.op_locations@
    }

    pub closed spec fn columns(&self) -> Seq<u32> {
        self.expr_columns@
    }

    /// The table describes `program`.
    pub open spec fn describes(&self, program: &Program) -> bool {
        &&& self.chunks().len() == program.chunks@.len()
        &&& forall|i: int| 0 <= i < self.chunks().len() ==> #[trigger] self.chunks()[i] == chunk_location(program.chunks@[i])
        &&& self.ops().len() == program.ops@.len()
        &&& forall|i: int|
            0 <= i < self.ops().len() ==> #[trigger] self.ops()[i] == op_location_of(program.chunks@, program.ops@[i])
        &&& self.columns().len() == program.expr_ops@.len()
        &&& forall|i: int| 0 <= i < self.columns().len() ==> #[trigger] self.columns()[i] == column_of(program.expr_ops@[i])
    }

    /// Collects the locations of every chunk, instruction and expression
    /// instruction of `program`.
    pub fn from_program(program: &Program) -> (r: DebugTable)
        ensures
            r.describes(program),
    {
        let mut chunk_locations: Vec<DebugLocation> = Vec::new();
        let mut i: usize = 0;
        while i < program.chunks.len()
            invariant
                i <= program.chunks@.len(),
                chunk_locations@.len() == i,
                forall|j: int| 0 <= j < i ==> #[trigger] chunk_locations@[j] == chunk_location(program.chunks@[j]),
            decreases program.chunks@.len() - i,
        {
            chunk_locations.push(DebugLocation { line: program.chunks[i].line, column: 0 });
            i = i + 1;
        }
        let mut op_locations: Vec<DebugLocation> = Vec::new();
        let mut i: usize = 0;
        while i < program.ops.len()
            invariant
                i <= program.ops@.len(),
                op_locations@.len() == i,
                forall|j: int|
                    0 <= j < i ==> #[trigger] op_locations@[j] == op_location_of(program.chunks@, program.ops@[j]),
            decreases program.ops@.len() - i,
        {
            op_locations.push(op_location(program, &program.ops[i]));
            i = i + 1;
        }
        let mut expr_columns: Vec<u32> = Vec::new();
        let mut i: usize = 0;
        while i < program.expr_ops.len()
            invariant
                i <= program.expr_ops@.len(),
                expr_columns@.len() == i,
                forall|j: int| 0 <= j < i ==> #[trigger] expr_columns@[j] == column_of(program.expr_ops@[j]),
            decreases program.expr_ops@.len() - i,
        {
            let column = match &program.expr_ops[i] {
                ExprOp::Load { column, .. } => *column,
                _ => 0,
            };
            expr_columns.push(column);
            i = i + 1;
        }
        DebugTable { chunk_locations, op_locations, expr_columns }
    }

    /// The source location of an expression chunk.
    pub fn chunk(&self, id: u32) -> (r: Option<DebugLocation>)
        ensures
            r == (if (id as int) < self.chunks().len() {
                Some(self.chunks()[id as int])
            } else {
                None
            }),
    {
        if (id as usize) < self.chunk_locations.len() {
            Some(self.chunk_locations[id as usize])
        } else {
            None
        }
    }

    /// The source location of a program instruction.
    pub fn op(&self, pc: usize) -> (r: Option<DebugLocation>)
        ensures
            r == (if pc < self.ops().len() {
                Some(self.ops()[pc as int])
            } else {
                None
            }),
    {
        if pc < self.op_locations.len() {
            Some(self.op_locations[pc])
        } else {
            None
        }
    }

    /// The source column of a packed expression instruction, when it has
    /// one.
    pub fn expression_column(&self, arena_index: usize) -> (r: Option<u32>)
        ensures
            r == (if arena_index < self.columns().len() && self.columns()[arena_index as int] != 0 {
                Some(self.columns()[arena_index as int])
            } else {
                None
            }),
    {
        if arena_index < self.expr_columns.len() && self.expr_columns[arena_index] != 0 {
            Some(self.expr_columns[arena_index])
        } else {
            None
        }
    }

    /// The number of source locations in the table.
    pub fn len(&self) -> (r: usize)
        requires
            self.chunks().len() + self.ops().len() + self.columns().len() <= usize::MAX,
        ensures
            r == self.chunks().len() + self.ops().len() + self.columns().len(),
    {
        self.chunk_locations.len() + self.op_locations.len() + self.expr_columns.len()
    }

    /// Whether the table holds no location.
    pub fn is_empty(&self) -> (r: bool)
        requires
            self.chunks().len() + self.ops().len() + self.columns().len() <= usize::MAX,
        ensures
            r == (self.chunks().len() + self.ops().len() + self.columns().len() == 0),
    {
        self.len() == 0
    }
}

fn op_location(program: &Program, op: &Op) -> (r: DebugLocation)
    ensures
        r == op_location_of(program.chunks@, *op),
{
    match op {
        Op::SetSlot { value, .. } | Op::JumpIfFalse { condition: value, .. } | Op::JumpIfIntegerCompare {
            condition: value,
            ..
        } => {
            if (*value as usize) < program.chunks.len() {
                DebugLocation { line: program.chunks[*value as usize].line, column: 0 }
            } else {
                DebugLocation { line: 0, column: 0 }
            }
        },
        Op::SetConst { line, .. } => DebugLocation { line: *line, column: 0 },
        Op::Host(host) => DebugLocation { line: host.line, column: 0 },
        Op::CopySlot { line, column, .. } | Op::Update { line, column, .. } => DebugLocation {
            line: *line,
            column: *column,
        },
        Op::Jump(_) | Op::Halt => DebugLocation { line: 0, column: 0 },
    }
}

} // verus!
