//! Lowering from the `Expr` tree to a flat stack-machine chunk.
//!
//! The compiler is a post-order walk: operands are emitted before the
//! instruction that consumes them. `and`/`or` short-circuit: they lower to
//! conditional jumps, so the right operand is skipped when the left operand
//! already decides the result. Subtrees whose value is a known constant are
//! folded into one constant ahead of lowering; a subtree whose evaluation
//! fails, or draws a random number, is kept so the error or the draw happens
//! at run time.

use crate::builtins::builtin_result;
use crate::bytecode::{compact_position, compact_source_position, first_equal, lemma_first_equal};
use crate::eval::{apply_binary, apply_unary, binary_result, eval_args, eval_expr, eval_parts, unary_result};
use crate::slots::{consistent_tables_name_slots_once, index_of, lemma_index_of, SlotTable, RNG_STATE_SLOT};
use crate::syntax::{Expr, StrPart, Variables};
use crate::text::{lemma_utf8_len_concat, utf8_len};
use crate::value::{
    display, lemma_view_items, values_equal, view_items, BinaryOp, Builtin, Datum, UnaryOp, Value, MAX_DATA_TEXT_BYTES,
};
use vstd::prelude::*;
use vstd::string::*;

verus! {

/// One stack-machine instruction. Each instruction takes its operands from
/// the top of the operand stack and pushes its result.
#[derive(Debug, Clone, Copy, PartialEq, Eq)]
pub enum ExprOp {
    /// Push a constant from the chunk's constant pool.
    Const(u32),
    /// Push the current value of a frame slot; `column` locates the read.
    Load { slot: u32, column: u32 },
    /// Apply a unary operator to the top of the stack.
    Unary(UnaryOp),
    /// Apply a binary operator to the top two stack values.
    Binary(BinaryOp),
    /// Call a built-in with `argc` values taken from the stack.
    Call { function: Builtin, argc: u32 },
    /// Draw an integer from the bounds on the stack, using the random state
    /// kept in `state_slot`.
    Random { state_slot: u32 },
    /// Draw a boolean from the percentage on the stack, using the random
    /// state kept in `state_slot`.
    Chance { state_slot: u32 },
    /// If the top of the stack is boolean `false`, keep it and jump.
    JumpIfFalse(u32),
    /// If the top of the stack is boolean `true`, keep it and jump.
    JumpIfTrue(u32),
    /// Require the top of the stack to be boolean without consuming it.
    AssertBoolean(BinaryOp),
    /// Concatenate the display forms of the top `count` values.
    Concat(u32),
}

/// A compiled expression: a constant pool and a flat instruction stream.
/// `line` is the one-based source line, kept for error reports.
#[derive(Debug, PartialEq, Eq)]
pub struct ExprChunk {
    pub ops: Vec<ExprOp>,
    pub constants: Vec<Value>,
    pub line: u32,
}

/// Borrowed expression bytecode.
#[derive(Debug)]
pub struct ExprChunkRef<'a> {
    pub ops: &'a [ExprOp],
    pub constants: &'a [Value],
    pub line: u32,
}

impl ExprChunk {
    /// An empty chunk for the given source line.
    pub fn new(line: usize) -> (r: ExprChunk)
        ensures
            r.ops@.len() == 0,
            r.constants@.len() == 0,
            r.line == compact_position(line as nat),
    {
        ExprChunk { ops: Vec::new(), constants: Vec::new(), line: compact_source_position(line) }
    }

    /// Interns a constant and returns its pool index; equal values share
    /// one entry.
    pub fn constant(&mut self, value: Value) -> (r: u32)
        requires
            old(self).constants@.len() < u32::MAX,
        ensures
            first_equal(view_items(old(self).constants@), value@) matches Some(i) ==> r == i
                && final(self).constants@ == old(self).constants@,
            first_equal(view_items(old(self).constants@), value@) is None ==> r == old(
                self,
            ).constants@.len() && final(self).constants@ == old(self).constants@.push(value),
            final(self).ops == old(self).ops,
            final(self).line == old(self).line,
    {
        let ghost pool = view_items(self.constants@);
        proof {
            lemma_first_equal(pool, value@);
            lemma_view_items(self.constants@);
        }
        let mut index: usize = 0;
        while index < self.constants.len()
            invariant
                index <= self.constants@.len(),
                pool == view_items(self.constants@),
                pool.len() == self.constants@.len(),
                self.constants@.len() < u32::MAX,
                forall|j: int| 0 <= j < index ==> pool[j] != value@,
                forall|j: int| 0 <= j < pool.len() ==> #[trigger] pool[j] == self.constants@[j]@,
                first_equal(pool, value@) matches Some(i) ==> i < pool.len() && pool[i as int]
                    == value@ && forall|j: int| 0 <= j < i ==> pool[j] != value@,
                first_equal(pool, value@) is None ==> forall|j: int|
                    0 <= j < pool.len() ==> pool[j] != value@,
            decreases self.constants@.len() - index,
        {
            if values_equal(&self.constants[index], &value) {
                assert(pool[index as int] == self.constants@[index as int]@);
                return index as u32;
            }
            assert(pool[index as int] == self.constants@[index as int]@);
            index = index + 1;
        }
        let index = self.constants.len() as u32;
        self.constants.push(value);
        index
    }

    /// Appends an instruction and returns its index, for jump patching.
    pub fn push(&mut self, op: ExprOp) -> (r: usize)
        requires
            old(self).ops@.len() < usize::MAX,
        ensures
            r == old(self).ops@.len(),
            final(self).ops@ == old(self).ops@.push(op),
            final(self).constants == old(self).constants,
            final(self).line == old(self).line,
    {
        self.ops.push(op);
        self.ops.len() - 1
    }

    /// Borrows this chunk.
    pub fn as_chunk_ref(&self) -> (r: ExprChunkRef<'_>)
        ensures
            r.ops@ == self.ops@,
            r.constants@ == self.constants@,
            r.line == self.line,
    {
        ExprChunkRef { ops: self.ops.as_slice(), constants: self.constants.as_slice(), line: self.line }
    }
}

// ---------------------------------------------------------------------------
// Constant folding
// ---------------------------------------------------------------------------

/// The value an operation gives when it succeeds.
pub open spec fn ok_value(r: Result<Datum, Seq<char>>) -> Option<Datum> {
    match r {
        Ok(d) => Some(d),
        Err(_) => None,
    }
}

/// The constant value of an expression: known when every value it depends
/// on is a literal and its evaluation succeeds without drawing a random
/// number. A short-circuiting `and`/`or` whose left operand decides the
/// result is constant whatever its right operand is.
pub open spec fn folded(e: Expr) -> Option<Datum>
    decreases e, 2int,
{
    match e {
        Expr::Spanned { expression, .. } => folded(*expression),
        Expr::Value(v) => Some(v@),
        Expr::Variable(_) => None,
        Expr::Unary { op, value } => match folded(*value) {
            Some(d) => ok_value(unary_result(op, d)),
            None => None,
        },
        Expr::Binary { left, op, right } => binary_fold(op, folded(*left), folded(*right)),
        Expr::Invoke { function, arguments } => call_fold(function, folded_args(arguments@)),
        Expr::Interpolate { parts } => match folded_parts(parts@) {
            Some(text) => Some(Datum::Text(text)),
            None => None,
        },
    }
}

/// The constant value of a binary operation from those of its operands.
pub open spec fn binary_fold(op: BinaryOp, l: Option<Datum>, r: Option<Datum>) -> Option<Datum> {
    if op == BinaryOp::And && l == Some(Datum::Boolean(false)) {
        Some(Datum::Boolean(false))
    } else if op == BinaryOp::Or && l == Some(Datum::Boolean(true)) {
        Some(Datum::Boolean(true))
    } else {
        match (l, r) {
            (Some(a), Some(b)) => ok_value(binary_result(a, op, b)),
            _ => None,
        }
    }
}

/// The constant value of a call from those of its arguments; random draws
/// never fold.
pub open spec fn call_fold(function: Builtin, args: Option<Seq<Datum>>) -> Option<Datum> {
    if function == Builtin::Random || function == Builtin::Chance {
        None
    } else {
        match args {
            Some(ds) => ok_value(builtin_result(function, ds)),
            None => None,
        }
    }
}

/// The constant values of call arguments, when all have one.
pub open spec fn folded_args(args: Seq<Expr>) -> Option<Seq<Datum>>
    decreases args, 1int,
{
    if args.len() == 0 {
        Some(Seq::empty())
    } else {
        match (folded_args(args.subrange(0, args.len() - 1)), folded(args[args.len() - 1])) {
            (Some(ds), Some(d)) => Some(ds.push(d)),
            _ => None,
        }
    }
}

/// The constant text of interpolation parts, when every hole is constant
/// and the text stays within the data budget.
pub open spec fn folded_parts(parts: Seq<StrPart>) -> Option<Seq<char>>
    decreases parts, 1int,
{
    if parts.len() == 0 {
        Some(Seq::empty())
    } else {
        let prefix = folded_parts(parts.subrange(0, parts.len() - 1));
        let piece = match parts[parts.len() - 1] {
            StrPart::Literal(literal) => Some(literal@),
            StrPart::Hole(expression) => match folded(*expression) {
                Some(d) => Some(display(d)),
                None => None,
            },
        };
        match (prefix, piece) {
            (Some(text), Some(p)) => if utf8_len(text + p) <= MAX_DATA_TEXT_BYTES {
                Some(text + p)
            } else {
                None
            },
            _ => None,
        }
    }
}

/// A folded constant is what evaluation gives, under any variables and
/// random state, which it leaves untouched.
pub proof fn folded_constants_evaluate(e: Expr, vars: Variables, rng: Option<i64>)
    requires
        folded(e) is Some,
    ensures
        eval_expr(e, vars, rng) == (Ok::<Datum, Seq<char>>(folded(e)->Some_0), rng),
    decreases e, 2int,
{
    match e {
        Expr::Spanned { expression, .. } => folded_constants_evaluate(*expression, vars, rng),
        Expr::Unary { value, .. } => folded_constants_evaluate(*value, vars, rng),
        Expr::Binary { left, op, right } => {
            folded_constants_evaluate(*left, vars, rng);
            if !(op == BinaryOp::And && folded(*left) == Some(Datum::Boolean(false))) && !(op == BinaryOp::Or
                && folded(*left) == Some(Datum::Boolean(true))) {
                folded_constants_evaluate(*right, vars, rng);
            }
        },
        Expr::Invoke { arguments, .. } => folded_args_evaluate(arguments@, vars, rng),
        Expr::Interpolate { parts } => folded_parts_evaluate(parts@, vars, rng),
        _ => {},
    }
}

proof fn folded_args_evaluate(args: Seq<Expr>, vars: Variables, rng: Option<i64>)
    requires
        folded_args(args) is Some,
    ensures
        eval_args(args, vars, rng) == (Ok::<Seq<Datum>, Seq<char>>(folded_args(args)->Some_0), rng),
    decreases args, 1int,
{
    if args.len() > 0 {
        folded_args_evaluate(args.subrange(0, args.len() - 1), vars, rng);
        folded_constants_evaluate(args[args.len() - 1], vars, rng);
    }
}

proof fn folded_parts_evaluate(parts: Seq<StrPart>, vars: Variables, rng: Option<i64>)
    requires
        folded_parts(parts) is Some,
    ensures
        eval_parts(parts, vars, rng) == (Ok::<Seq<char>, Seq<char>>(folded_parts(parts)->Some_0), rng),
    decreases parts, 1int,
{
    if parts.len() > 0 {
        let front = parts.subrange(0, parts.len() - 1);
        folded_parts_evaluate(front, vars, rng);
        let text = folded_parts(front)->Some_0;
        match parts[parts.len() - 1] {
            StrPart::Literal(literal) => {
                lemma_utf8_len_concat(text, literal@);
            },
            StrPart::Hole(expression) => {
                folded_constants_evaluate(*expression, vars, rng);
                lemma_utf8_len_concat(text, display(folded(*expression)->Some_0));
            },
        }
    }
}

/// An expression with its source annotations removed.
pub open spec fn unspanned(e: Expr) -> Expr
    decreases e,
{
    match e {
        Expr::Spanned { expression, .. } => unspanned(*expression),
        _ => e,
    }
}

/// The expression under any source annotations.
fn strip_spans(e: &Expr) -> (r: &Expr)
    ensures
        *r == unspanned(*e),
    decreases e,
{
    match e {
        Expr::Spanned { expression, .. } => strip_spans(expression),
        _ => e,
    }
}

/// Whether a left operand decides `and`/`or` as a literal.
pub open spec fn literal_short_circuit(left: Expr, op: BinaryOp) -> bool {
    (op == BinaryOp::And && unspanned(left) == Expr::Value(Value::Boolean(false))) || (op == BinaryOp::Or
        && unspanned(left) == Expr::Value(Value::Boolean(true)))
}

/// A quick look at an expression before folding: its number of nodes
/// (annotations not counted), whether all its values are literals, and
/// whether some operation in it may fold.
pub open spec fn shape(e: Expr) -> (nat, bool, bool)
    decreases e, 2int,
{
    match e {
        Expr::Spanned { expression, .. } => shape(*expression),
        Expr::Value(_) => (1, true, false),
        Expr::Variable(_) => (1, false, false),
        Expr::Unary { value, .. } => {
            let c = shape(*value);
            (c.0 + 1, c.1, c.2 || c.1)
        },
        Expr::Binary { left, op, right } => {
            let l = shape(*left);
            let r = shape(*right);
            let short = literal_short_circuit(*left, op);
            (l.0 + r.0 + 1, short || (l.1 && r.1), l.2 || r.2 || short || (l.1 && r.1))
        },
        Expr::Invoke { function, arguments } => {
            let a = args_shape(arguments@);
            let constant = !(function == Builtin::Random || function == Builtin::Chance) && a.1;
            (a.0 + 1, constant, a.2 || constant)
        },
        Expr::Interpolate { parts } => {
            let p = parts_shape(parts@);
            (p.0 + 1, p.1, p.2 || p.1)
        },
    }
}

pub open spec fn args_shape(args: Seq<Expr>) -> (nat, bool, bool)
    decreases args, 1int,
{
    if args.len() == 0 {
        (0, true, false)
    } else {
        let p = args_shape(args.subrange(0, args.len() - 1));
        let c = shape(args[args.len() - 1]);
        (p.0 + c.0, p.1 && c.1, p.2 || c.2)
    }
}

pub open spec fn parts_shape(parts: Seq<StrPart>) -> (nat, bool, bool)
    decreases parts, 1int,
{
    if parts.len() == 0 {
        (0, true, false)
    } else {
        let p = parts_shape(parts.subrange(0, parts.len() - 1));
        match parts[parts.len() - 1] {
            StrPart::Literal(_) => p,
            StrPart::Hole(expression) => {
                let c = shape(*expression);
                (p.0 + c.0, p.1 && c.1, p.2 || c.2)
            },
        }
    }
}

/// The fold plan of an expression: its nodes in pre-order, annotations
/// skipped, each with the number of plan entries its subtree spans and its
/// constant value.
pub open spec fn fold_nodes(e: Expr) -> Seq<(nat, Option<Datum>)>
    decreases e, 2int,
{
    match e {
        Expr::Spanned { expression, .. } => fold_nodes(*expression),
        _ => seq![(fold_children(e).len() + 1, folded(e))] + fold_children(e),
    }
}

/// The plans of the operands of a node, in order.
pub open spec fn fold_children(e: Expr) -> Seq<(nat, Option<Datum>)>
    decreases e, 1int,
{
    match e {
        Expr::Unary { value, .. } => fold_nodes(*value),
        Expr::Binary { left, right, .. } => fold_nodes(*left) + fold_nodes(*right),
        Expr::Invoke { arguments, .. } => args_nodes(arguments@),
        Expr::Interpolate { parts } => parts_nodes(parts@),
        _ => Seq::empty(),
    }
}

pub open spec fn args_nodes(args: Seq<Expr>) -> Seq<(nat, Option<Datum>)>
    decreases args, 1int,
{
    if args.len() == 0 {
        Seq::empty()
    } else {
        args_nodes(args.subrange(0, args.len() - 1)) + fold_nodes(args[args.len() - 1])
    }
}

pub open spec fn parts_nodes(parts: Seq<StrPart>) -> Seq<(nat, Option<Datum>)>
    decreases parts, 1int,
{
    if parts.len() == 0 {
        Seq::empty()
    } else {
        parts_nodes(parts.subrange(0, parts.len() - 1)) + match parts[parts.len() - 1] {
            StrPart::Literal(_) => Seq::empty(),
            StrPart::Hole(expression) => fold_nodes(*expression),
        }
    }
}

/// The plan has one entry per node the shape counts.
proof fn lemma_plan_size(e: Expr)
    ensures
        fold_nodes(e).len() == shape(e).0,
    decreases e, 2int,
{
    if !(e is Spanned) {
        assert(fold_nodes(e).len() == fold_children(e).len() + 1);
    }
    match e {
        Expr::Spanned { expression, .. } => lemma_plan_size(*expression),
        Expr::Unary { value, .. } => lemma_plan_size(*value),
        Expr::Binary { left, right, .. } => {
            lemma_plan_size(*left);
            lemma_plan_size(*right);
        },
        Expr::Invoke { arguments, .. } => lemma_args_plan_size(arguments@),
        Expr::Interpolate { parts } => lemma_parts_plan_size(parts@),
        _ => {},
    }
}

proof fn lemma_args_plan_size(args: Seq<Expr>)
    ensures
        args_nodes(args).len() == args_shape(args).0,
    decreases args, 1int,
{
    if args.len() > 0 {
        lemma_args_plan_size(args.subrange(0, args.len() - 1));
        lemma_plan_size(args[args.len() - 1]);
    }
}

proof fn lemma_parts_plan_size(parts: Seq<StrPart>)
    ensures
        parts_nodes(parts).len() == parts_shape(parts).0,
    decreases parts, 1int,
{
    if parts.len() > 0 {
        lemma_parts_plan_size(parts.subrange(0, parts.len() - 1));
        if let StrPart::Hole(expression) = parts[parts.len() - 1] {
            lemma_plan_size(*expression);
        }
    }
}

/// The result of [`fold_shape`].
#[derive(Clone, Copy)]
struct FoldShape {
    nodes: usize,
    constant: bool,
    candidate: bool,
}

/// Computes [`shape`].
fn fold_shape(expression: &Expr) -> (r: FoldShape)
    requires
        shape(*expression).0 <= usize::MAX,
    ensures
        (r.nodes as nat, r.constant, r.candidate) == shape(*expression),
    decreases expression,
{
    match expression {
        Expr::Spanned { expression, .. } => fold_shape(expression),
        Expr::Value(_) => FoldShape { nodes: 1, constant: true, candidate: false },
        Expr::Variable(_) => FoldShape { nodes: 1, constant: false, candidate: false },
        Expr::Unary { value, .. } => {
            let child = fold_shape(value);
            FoldShape { nodes: child.nodes + 1, constant: child.constant, candidate: child.candidate || child.constant }
        },
        Expr::Binary { left, op, right } => {
            let left_shape = fold_shape(left);
            let right_shape = fold_shape(right);
            let short_circuits = match (op, strip_spans(left)) {
                (BinaryOp::And, Expr::Value(Value::Boolean(false))) => true,
                (BinaryOp::Or, Expr::Value(Value::Boolean(true))) => true,
                _ => false,
            };
            FoldShape {
                nodes: left_shape.nodes + right_shape.nodes + 1,
                constant: short_circuits || (left_shape.constant && right_shape.constant),
                candidate: left_shape.candidate || right_shape.candidate || short_circuits || (
                left_shape.constant && right_shape.constant),
            }
        },
        Expr::Invoke { function, arguments } => {
            let mut nodes: usize = 1;
            let mut constant = !(*function == Builtin::Random || *function == Builtin::Chance);
            let mut candidate = false;
            let mut i: usize = 0;
            while i < arguments.len()
                invariant
                    i <= arguments@.len(),
                    shape(*expression).0 <= usize::MAX,
                    *expression == (Expr::Invoke { function: *function, arguments: *arguments }),
                    nodes == args_shape(arguments@.subrange(0, i as int)).0 + 1,
                    constant == (!(*function == Builtin::Random || *function == Builtin::Chance) && args_shape(
                        arguments@.subrange(0, i as int),
                    ).1),
                    candidate == args_shape(arguments@.subrange(0, i as int)).2,
                decreases arguments@.len() - i,
            {
                proof {
                    assert(arguments@.subrange(0, i + 1).subrange(0, i as int) =~= arguments@.subrange(0, i as int));
                    lemma_args_shape_prefix(arguments@, (i + 1) as nat);
                }
                let child = fold_shape(&arguments[i]);
                nodes = nodes + child.nodes;
                constant = constant && child.constant;
                candidate = candidate || child.candidate;
                i = i + 1;
            }
            proof {
                assert(arguments@.subrange(0, arguments@.len() as int) =~= arguments@);
            }
            FoldShape { nodes, constant, candidate: candidate || constant }
        },
        Expr::Interpolate { parts } => {
            let mut nodes: usize = 1;
            let mut constant = true;
            let mut candidate = false;
            let mut i: usize = 0;
            while i < parts.len()
                invariant
                    i <= parts@.len(),
                    shape(*expression).0 <= usize::MAX,
                    *expression == (Expr::Interpolate { parts: *parts }),
                    nodes == parts_shape(parts@.subrange(0, i as int)).0 + 1,
                    constant == parts_shape(parts@.subrange(0, i as int)).1,
                    candidate == parts_shape(parts@.subrange(0, i as int)).2,
                decreases parts@.len() - i,
            {
                proof {
                    assert(parts@.subrange(0, i + 1).subrange(0, i as int) =~= parts@.subrange(0, i as int));
                    lemma_parts_shape_prefix(parts@, (i + 1) as nat);
                }
                match &parts[i] {
                    StrPart::Hole(hole) => {
                        let child = fold_shape(hole);
                        nodes = nodes + child.nodes;
                        constant = constant && child.constant;
                        candidate = candidate || child.candidate;
                    },
                    StrPart::Literal(_) => {},
                }
                i = i + 1;
            }
            proof {
                assert(parts@.subrange(0, parts@.len() as int) =~= parts@);
            }
            FoldShape { nodes, constant, candidate: candidate || constant }
        },
    }
}

/// The node count of a prefix of the arguments is at most the whole count.
proof fn lemma_args_shape_prefix(args: Seq<Expr>, k: nat)
    requires
        k <= args.len(),
    ensures
        args_shape(args.subrange(0, k as int)).0 <= args_shape(args).0,
        k > 0 ==> shape(args[k - 1]).0 <= args_shape(args.subrange(0, k as int)).0,
        k > 0 ==> args_shape(args.subrange(0, k as int)).0 == args_shape(args.subrange(0, k - 1)).0 + shape(
            args[k - 1],
        ).0,
    decreases args.len() - k,
{
    if k > 0 {
        assert(args.subrange(0, k as int).subrange(0, k - 1) =~= args.subrange(0, k - 1));
    }
    if k < args.len() {
        lemma_args_shape_prefix(args, k + 1);
        assert(args.subrange(0, k + 1 as int).subrange(0, k as int) =~= args.subrange(0, k as int));
    } else {
        assert(args.subrange(0, k as int) =~= args);
    }
}

/// The node count of a prefix of the parts is at most the whole count.
proof fn lemma_parts_shape_prefix(parts: Seq<StrPart>, k: nat)
    requires
        k <= parts.len(),
    ensures
        parts_shape(parts.subrange(0, k as int)).0 <= parts_shape(parts).0,
        k > 0 ==> (parts[k - 1] matches StrPart::Hole(h) ==> shape(*h).0 <= parts_shape(parts.subrange(0, k as int)).0),
    decreases parts.len() - k,
{
    if k > 0 {
        assert(parts.subrange(0, k as int).subrange(0, k - 1) =~= parts.subrange(0, k - 1));
    }
    if k < parts.len() {
        lemma_parts_shape_prefix(parts, k + 1);
        assert(parts.subrange(0, k + 1 as int).subrange(0, k as int) =~= parts.subrange(0, k as int));
    } else {
        assert(parts.subrange(0, k as int) =~= parts);
    }
}

/// Facts linking folding to the shape: a composite expression with literal
/// values only may fold, and an expression that folds is all literals or
/// may fold.
proof fn lemma_shape_facts(e: Expr)
    ensures
        !(unspanned(e) is Value) ==> (shape(e).1 ==> shape(e).2),
        folded(e) is Some ==> shape(e).1 || shape(e).2,
        unspanned(e) is Value ==> shape(e) == (1nat, true, false) && folded(e) == Some(unspanned(e)->Value_0@),
    decreases e, 2int,
{
    match e {
        Expr::Spanned { expression, .. } => lemma_shape_facts(*expression),
        Expr::Unary { value, .. } => lemma_shape_facts(*value),
        Expr::Binary { left, op, right } => {
            lemma_shape_facts(*left);
            lemma_shape_facts(*right);
            if unspanned(*left) is Value {
                let v = unspanned(*left)->Value_0;
                if v@ == Datum::Boolean(false) {
                    assert(v == Value::Boolean(false));
                }
                if v@ == Datum::Boolean(true) {
                    assert(v == Value::Boolean(true));
                }
            }
        },
        Expr::Invoke { arguments, .. } => lemma_args_facts(arguments@),
        Expr::Interpolate { parts } => lemma_parts_facts(parts@),
        _ => {},
    }
}

proof fn lemma_args_facts(args: Seq<Expr>)
    ensures
        folded_args(args) is Some ==> args_shape(args).1 || args_shape(args).2,
    decreases args, 1int,
{
    if args.len() > 0 {
        lemma_args_facts(args.subrange(0, args.len() - 1));
        lemma_shape_facts(args[args.len() - 1]);
    }
}

proof fn lemma_parts_facts(parts: Seq<StrPart>)
    ensures
        folded_parts(parts) is Some ==> parts_shape(parts).1 || parts_shape(parts).2,
    decreases parts, 1int,
{
    if parts.len() > 0 {
        lemma_parts_facts(parts.subrange(0, parts.len() - 1));
        if let StrPart::Hole(expression) = parts[parts.len() - 1] {
            lemma_shape_facts(*expression);
        }
    }
}

/// One plan entry: where the subtree of the node ends in the plan, and its
/// constant value if it has one.
pub struct FoldNode {
    end: usize,
    constant: Option<Value>,
}

/// The model of a plan entry at index `k`: the number of entries its
/// subtree spans and its constant value.
pub closed spec fn node_view(n: FoldNode, k: int) -> (nat, Option<Datum>) {
    (
        (if n.end >= k {
            n.end - k
        } else {
            0
        }) as nat,
        match n.constant {
            Some(v) => Some(v@),
            None => None,
        },
    )
}

/// `nodes` holds the plan `plan` from index `start` on.
pub closed spec fn holds_plan(nodes: Seq<FoldNode>, start: int, plan: Seq<(nat, Option<Datum>)>) -> bool {
    &&& 0 <= start
    &&& start + plan.len() <= nodes.len()
    &&& forall|k: int| start <= k < start + plan.len() ==> node_view(#[trigger] nodes[k], k) == plan[k - start]
}

/// The model of an optional value.
pub open spec fn option_view(v: Option<Value>) -> Option<Datum> {
    match v {
        Some(value) => Some(value@),
        None => None,
    }
}

/// Plans laid side by side form the plan of the concatenation.
proof fn lemma_plan_concat(nodes: Seq<FoldNode>, a: int, p: Seq<(nat, Option<Datum>)>, q: Seq<(nat, Option<Datum>)>)
    requires
        holds_plan(nodes, a, p),
        holds_plan(nodes, a + p.len(), q),
    ensures
        holds_plan(nodes, a, p + q),
{
    assert forall|k: int| a <= k < a + (p + q).len() implies node_view(#[trigger] nodes[k], k) == (p + q)[k - a] by {
        if k < a + p.len() {
            assert(node_view(nodes[k], k) == p[k - a]);
        } else {
            assert(node_view(nodes[k], k) == q[k - (a + p.len())]);
        }
    }
}

/// A plan stays held where the entries are unchanged.
proof fn lemma_plan_frame(n1: Seq<FoldNode>, n2: Seq<FoldNode>, a: int, p: Seq<(nat, Option<Datum>)>)
    requires
        holds_plan(n1, a, p),
        a + p.len() <= n2.len(),
        forall|k: int| a <= k < a + p.len() ==> n2[k] == n1[k],
    ensures
        holds_plan(n2, a, p),
{
    assert forall|k: int| a <= k < a + p.len() implies node_view(#[trigger] n2[k], k) == p[k - a] by {
        assert(n2[k] == n1[k]);
        assert(node_view(n1[k], k) == p[k - a]);
    }
}

/// The constant value of a binary operation from those of its operands.
fn fold_binary(op: BinaryOp, left: Option<Value>, right: Option<Value>, line: usize) -> (r: Option<Value>)
    ensures
        option_view(r) == binary_fold(op, option_view(left), option_view(right)),
{
    match (op, left, right) {
        (BinaryOp::And, Some(Value::Boolean(false)), _) => Some(Value::Boolean(false)),
        (BinaryOp::Or, Some(Value::Boolean(true)), _) => Some(Value::Boolean(true)),
        (_, Some(l), Some(r)) => {
            proof {
                if op == BinaryOp::And {
                    assert(l@ != Datum::Boolean(false));
                }
                if op == BinaryOp::Or {
                    assert(l@ != Datum::Boolean(true));
                }
            }
            match apply_binary(l, op, r, line) {
                Ok(v) => Some(v),
                Err(_) => None,
            }
        },
        (_, l, _) => {
            proof {
                if op == BinaryOp::And && l is Some {
                    assert(l->Some_0@ != Datum::Boolean(false));
                }
                if op == BinaryOp::Or && l is Some {
                    assert(l->Some_0@ != Datum::Boolean(true));
                }
            }
            None
        },
    }
}

/// Appends the plans of call arguments and returns the call's constant
/// value.
fn fold_call(function: Builtin, arguments: &Vec<Expr>, line: usize, nodes: &mut Vec<FoldNode>) -> (r: Option<Value>)
    requires
        old(nodes)@.len() + args_nodes(arguments@).len() <= usize::MAX,
    ensures
        option_view(r) == call_fold(function, folded_args(arguments@)),
        final(nodes)@.len() == old(nodes)@.len() + args_nodes(arguments@).len(),
        forall|k: int| 0 <= k < old(nodes)@.len() ==> final(nodes)@[k] == old(nodes)@[k],
        holds_plan(final(nodes)@, old(nodes)@.len() as int, args_nodes(arguments@)),
    decreases arguments, 0int,
{
    let ghost start = nodes@.len();
    let ghost before = nodes@;
    let mut values: Option<Vec<Value>> = Some(Vec::new());
    let mut i: usize = 0;
    proof {
        assert(arguments@.subrange(0, 0) =~= Seq::<Expr>::empty());
    }
    while i < arguments.len()
        invariant
            i <= arguments@.len(),
            start == before.len(),
            start + args_nodes(arguments@).len() <= usize::MAX,
            nodes@.len() == start + args_nodes(arguments@.subrange(0, i as int)).len(),
            forall|k: int| 0 <= k < start ==> nodes@[k] == before[k],
            holds_plan(nodes@, start as int, args_nodes(arguments@.subrange(0, i as int))),
            match values {
                Some(vs) => folded_args(arguments@.subrange(0, i as int)) == Some(view_items(vs@)),
                None => folded_args(arguments@.subrange(0, i as int)) is None,
            },
        decreases arguments@.len() - i,
    {
        let ghost prefix = arguments@.subrange(0, i as int);
        let ghost next = arguments@.subrange(0, i + 1);
        proof {
            assert(next.subrange(0, i as int) =~= prefix);
            assert(next[i as int] == arguments@[i as int]);
            lemma_args_nodes_prefix(arguments@, (i + 1) as nat);
        }
        let ghost mid = nodes@;
        let value = build_fold_plan(&arguments[i], line, nodes);
        proof {
            lemma_plan_frame(mid, nodes@, start as int, args_nodes(prefix));
            lemma_plan_concat(nodes@, start as int, args_nodes(prefix), fold_nodes(arguments@[i as int]));
        }
        values = match (values, value) {
            (Some(mut vs), Some(v)) => {
                proof {
                    lemma_view_items(vs@);
                }
                let ghost old_vs = vs@;
                vs.push(v);
                proof {
                    lemma_view_items(vs@);
                    assert(view_items(vs@) =~= view_items(old_vs).push(v@));
                }
                Some(vs)
            },
            _ => None,
        };
        i = i + 1;
    }
    proof {
        assert(arguments@.subrange(0, arguments@.len() as int) =~= arguments@);
    }
    if function == Builtin::Random || function == Builtin::Chance {
        return None;
    }
    match values {
        Some(vs) => match crate::builtins::invoke(function, vs, line) {
            Ok(v) => Some(v),
            Err(_) => None,
        },
        None => None,
    }
}

/// The plan of a prefix of the arguments is a prefix of the plan.
proof fn lemma_args_nodes_prefix(args: Seq<Expr>, k: nat)
    requires
        0 < k <= args.len(),
    ensures
        args_nodes(args.subrange(0, k as int)) == args_nodes(args.subrange(0, k - 1)) + fold_nodes(args[k - 1]),
        args_nodes(args.subrange(0, k as int)).len() <= args_nodes(args).len(),
    decreases args.len() - k,
{
    assert(args.subrange(0, k as int).subrange(0, k - 1) =~= args.subrange(0, k - 1));
    if k < args.len() {
        lemma_args_nodes_prefix(args, k + 1);
        assert(args.subrange(0, k + 1 as int).subrange(0, k as int) =~= args.subrange(0, k as int));
    } else {
        assert(args.subrange(0, k as int) =~= args);
    }
}

/// The plan of a prefix of the parts is a prefix of the plan.
proof fn lemma_parts_nodes_prefix(parts: Seq<StrPart>, k: nat)
    requires
        0 < k <= parts.len(),
    ensures
        parts_nodes(parts.subrange(0, k as int)) == parts_nodes(parts.subrange(0, k - 1)) + match parts[k - 1] {
            StrPart::Literal(_) => Seq::empty(),
            StrPart::Hole(expression) => fold_nodes(*expression),
        },
        parts_nodes(parts.subrange(0, k as int)).len() <= parts_nodes(parts).len(),
    decreases parts.len() - k,
{
    assert(parts.subrange(0, k as int).subrange(0, k - 1) =~= parts.subrange(0, k - 1));
    if k < parts.len() {
        lemma_parts_nodes_prefix(parts, k + 1);
        assert(parts.subrange(0, k + 1 as int).subrange(0, k as int) =~= parts.subrange(0, k as int));
    } else {
        assert(parts.subrange(0, k as int) =~= parts);
    }
}

/// Appends the plans of the holes of an interpolation and returns its
/// constant text.
fn fold_interpolation(parts: &Vec<StrPart>, line: usize, nodes: &mut Vec<FoldNode>) -> (r: Option<Value>)
    requires
        old(nodes)@.len() + parts_nodes(parts@).len() <= usize::MAX,
    ensures
        option_view(r) == match folded_parts(parts@) {
            Some(text) => Some(Datum::Text(text)),
            None => None::<Datum>,
        },
        final(nodes)@.len() == old(nodes)@.len() + parts_nodes(parts@).len(),
        forall|k: int| 0 <= k < old(nodes)@.len() ==> final(nodes)@[k] == old(nodes)@[k],
        holds_plan(final(nodes)@, old(nodes)@.len() as int, parts_nodes(parts@)),
    decreases parts, 0int,
{
    let ghost start = nodes@.len();
    let ghost before = nodes@;
    let mut text: Option<String> = Some(String::new());
    let mut i: usize = 0;
    proof {
        assert(parts@.subrange(0, 0) =~= Seq::<StrPart>::empty());
    }
    while i < parts.len()
        invariant
            i <= parts@.len(),
            start == before.len(),
            start + parts_nodes(parts@).len() <= usize::MAX,
            nodes@.len() == start + parts_nodes(parts@.subrange(0, i as int)).len(),
            forall|k: int| 0 <= k < start ==> nodes@[k] == before[k],
            holds_plan(nodes@, start as int, parts_nodes(parts@.subrange(0, i as int))),
            match text {
                Some(t) => folded_parts(parts@.subrange(0, i as int)) == Some(t@),
                None => folded_parts(parts@.subrange(0, i as int)) is None,
            },
        decreases parts@.len() - i,
    {
        let ghost prefix = parts@.subrange(0, i as int);
        let ghost next = parts@.subrange(0, i + 1);
        proof {
            assert(next.subrange(0, i as int) =~= prefix);
            assert(next[i as int] == parts@[i as int]);
            lemma_parts_nodes_prefix(parts@, (i + 1) as nat);
        }
        match &parts[i] {
            StrPart::Literal(literal) => {
                text = match text {
                    Some(mut output) => {
                        let used = output.as_str().as_bytes().len();
                        let extra = literal.as_str().as_bytes().len();
                        proof {
                            lemma_utf8_len_concat(output@, literal@);
                        }
                        if used > MAX_DATA_TEXT_BYTES || extra > MAX_DATA_TEXT_BYTES - used {
                            None
                        } else {
                            output.append(literal.as_str());
                            Some(output)
                        }
                    },
                    None => None,
                };
                proof {
                    assert(parts_nodes(next) =~= parts_nodes(prefix));
                }
            },
            StrPart::Hole(hole) => {
                let ghost mid = nodes@;
                let value = build_fold_plan(hole, line, nodes);
                proof {
                    lemma_plan_frame(mid, nodes@, start as int, parts_nodes(prefix));
                    lemma_plan_concat(nodes@, start as int, parts_nodes(prefix), fold_nodes(**hole));
                }
                text = match (text, value) {
                    (Some(mut output), Some(v)) => {
                        if v.append_to_display(&mut output, MAX_DATA_TEXT_BYTES).is_ok() {
                            Some(output)
                        } else {
                            None
                        }
                    },
                    _ => None,
                };
            },
        }
        i = i + 1;
    }
    proof {
        assert(parts@.subrange(0, parts@.len() as int) =~= parts@);
    }
    match text {
        Some(t) => Some(Value::String(t)),
        None => None,
    }
}

/// Appends the plan of `expression` to `nodes` and returns its constant
/// value.
fn build_fold_plan(expression: &Expr, line: usize, nodes: &mut Vec<FoldNode>) -> (r: Option<Value>)
    requires
        old(nodes)@.len() + fold_nodes(*expression).len() <= usize::MAX,
    ensures
        option_view(r) == folded(*expression),
        final(nodes)@.len() == old(nodes)@.len() + fold_nodes(*expression).len(),
        forall|k: int| 0 <= k < old(nodes)@.len() ==> final(nodes)@[k] == old(nodes)@[k],
        holds_plan(final(nodes)@, old(nodes)@.len() as int, fold_nodes(*expression)),
    decreases expression, 1int,
{
    if let Expr::Spanned { expression: inner, .. } = expression {
        return build_fold_plan(inner, line, nodes);
    }
    let ghost before = nodes@;
    let start = nodes.len();
    nodes.push(FoldNode { end: usize::MAX, constant: None });
    let ghost children = fold_children(*expression);
    assert(fold_nodes(*expression) == seq![(children.len() + 1, folded(*expression))] + children);
    let ghost placed = nodes@;
    let constant: Option<Value> = match expression {
        Expr::Value(value) => Some(value.duplicate()),
        Expr::Unary { op, value } => {
            let inner = build_fold_plan(value, line, nodes);
            match inner {
                Some(v) => match apply_unary(*op, v, line) {
                    Ok(r) => Some(r),
                    Err(_) => None,
                },
                None => None,
            }
        },
        Expr::Binary { left, op, right } => {
            let l = build_fold_plan(left, line, nodes);
            let ghost mid = nodes@;
            let r = build_fold_plan(right, line, nodes);
            proof {
                lemma_plan_frame(mid, nodes@, start + 1, fold_nodes(**left));
                lemma_plan_concat(nodes@, start + 1, fold_nodes(**left), fold_nodes(**right));
            }
            fold_binary(*op, l, r, line)
        },
        Expr::Invoke { function, arguments } => fold_call(*function, arguments, line, nodes),
        Expr::Interpolate { parts } => fold_interpolation(parts, line, nodes),
        _ => None,
    };
    let end = nodes.len();
    let recorded = match &constant {
        Some(v) => Some(v.duplicate()),
        None => None,
    };
    let ghost filled = nodes@;
    nodes.set(start, FoldNode { end, constant: recorded });
    proof {
        assert(holds_plan(filled, start + 1, children));
        lemma_plan_frame(filled, nodes@, start + 1, children);
        assert(node_view(nodes@[start as int], start as int) == (children.len() + 1, folded(*expression)));
        assert(holds_plan(nodes@, start as int, seq![(children.len() + 1, folded(*expression))]));
        lemma_plan_concat(nodes@, start as int, seq![(children.len() + 1, folded(*expression))], children);
    }
    constant
}

// ---------------------------------------------------------------------------
// Lowering
// ---------------------------------------------------------------------------

/// A stack instruction with its constant and its slots resolved: what an
/// instruction means whatever the layout of the pools.
pub enum Step {
    Push(Datum),
    Load { name: Seq<char>, column: nat },
    Unary(UnaryOp),
    Binary(BinaryOp),
    Call { function: Builtin, argc: nat },
    Random,
    Chance,
    JumpIfFalse(nat),
    JumpIfTrue(nat),
    AssertBoolean(BinaryOp),
    Concat(nat),
}

/// Whether `slot` is the slot named for the random state.
pub open spec fn is_rng_slot(slot: u32, names: Seq<Seq<char>>) -> bool {
    (slot as int) < names.len() && names[slot as int] == RNG_STATE_SLOT@
}

/// What an instruction means against a constant pool and slot names.
pub open spec fn resolve(op: ExprOp, constants: Seq<Datum>, names: Seq<Seq<char>>) -> Option<Step> {
    match op {
        ExprOp::Const(i) => if (i as int) < constants.len() {
            Some(Step::Push(constants[i as int]))
        } else {
            None
        },
        ExprOp::Load { slot, column } => if (slot as int) < names.len() {
            Some(Step::Load { name: names[slot as int], column: column as nat })
        } else {
            None
        },
        ExprOp::Unary(o) => Some(Step::Unary(o)),
        ExprOp::Binary(o) => Some(Step::Binary(o)),
        ExprOp::Call { function, argc } => Some(Step::Call { function, argc: argc as nat }),
        ExprOp::Random { state_slot } => if is_rng_slot(state_slot, names) {
            Some(Step::Random)
        } else {
            None
        },
        ExprOp::Chance { state_slot } => if is_rng_slot(state_slot, names) {
            Some(Step::Chance)
        } else {
            None
        },
        ExprOp::JumpIfFalse(t) => Some(Step::JumpIfFalse(t as nat)),
        ExprOp::JumpIfTrue(t) => Some(Step::JumpIfTrue(t as nat)),
        ExprOp::AssertBoolean(o) => Some(Step::AssertBoolean(o)),
        ExprOp::Concat(n) => Some(Step::Concat(n as nat)),
    }
}

/// `ops` mean `steps` against the pool and names.
pub open spec fn resolves_to(ops: Seq<ExprOp>, constants: Seq<Datum>, names: Seq<Seq<char>>, steps: Seq<Step>) -> bool {
    &&& ops.len() == steps.len()
    &&& forall|i: int| 0 <= i < ops.len() ==> resolve(#[trigger] ops[i], constants, names) == Some(steps[i])
}

/// The instructions an expression compiles to when they start at index
/// `base` of the chunk: a constant subtree becomes one constant; otherwise
/// operands come before their operation, and `and`/`or` jump past their
/// right operand when the left one decides. Variables are read at the
/// column of the innermost annotation around them.
pub open spec fn code(e: Expr, column: nat, base: nat) -> Seq<Step>
    decreases e, 2int,
{
    match e {
        Expr::Spanned { span, expression } => code(*expression, span.column as nat, base),
        _ => match folded(e) {
            Some(d) => seq![Step::Push(d)],
            None => operation_code(e, column, base),
        },
    }
}

/// The instructions of an operation that does not fold.
pub open spec fn operation_code(e: Expr, column: nat, base: nat) -> Seq<Step>
    decreases e, 1int,
{
    match e {
        Expr::Value(v) => seq![Step::Push(v@)],
        Expr::Variable(name) => seq![Step::Load { name: name@, column: compact_position(column) }],
        Expr::Unary { op, value } => code(*value, column, base).push(Step::Unary(op)),
        Expr::Binary { left, op, right } => {
            let l = code(*left, column, base);
            if op == BinaryOp::And || op == BinaryOp::Or {
                let r = code(*right, column, base + l.len() + 1);
                let end = base + l.len() + r.len() + 2;
                l.push(
                    if op == BinaryOp::And {
                        Step::JumpIfFalse(end)
                    } else {
                        Step::JumpIfTrue(end)
                    },
                ) + r.push(Step::Binary(op))
            } else {
                l + code(*right, column, base + l.len()).push(Step::Binary(op))
            }
        },
        Expr::Invoke { function, arguments } => args_code(arguments@, column, base).push(
            if function == Builtin::Random {
                Step::Random
            } else if function == Builtin::Chance {
                Step::Chance
            } else {
                Step::Call { function, argc: arguments@.len() }
            },
        ),
        Expr::Interpolate { parts } => parts_code(parts@, column, base).push(Step::Concat(parts@.len())),
        Expr::Spanned { .. } => Seq::empty(),
    }
}

/// The instructions of call arguments, one after the other.
pub open spec fn args_code(args: Seq<Expr>, column: nat, base: nat) -> Seq<Step>
    decreases args, 0int,
{
    if args.len() == 0 {
        Seq::empty()
    } else {
        let p = args_code(args.subrange(0, args.len() - 1), column, base);
        p + code(args[args.len() - 1], column, base + p.len())
    }
}

/// The instructions of interpolation parts: literal text as constants,
/// holes as their expressions.
pub open spec fn parts_code(parts: Seq<StrPart>, column: nat, base: nat) -> Seq<Step>
    decreases parts, 0int,
{
    if parts.len() == 0 {
        Seq::empty()
    } else {
        let p = parts_code(parts.subrange(0, parts.len() - 1), column, base);
        p + match parts[parts.len() - 1] {
            StrPart::Literal(literal) => seq![Step::Push(Datum::Text(literal@))],
            StrPart::Hole(expression) => code(*expression, column, base + p.len()),
        }
    }
}

/// Where lowering reads the fold plan.
struct FoldCursor<'a> {
    nodes: &'a [FoldNode],
    at: usize,
}

impl<'a> FoldCursor<'a> {
    /// Steps into the next plan entry: its constant value, if any, with
    /// the cursor moved past the entry's subtree; otherwise the cursor moves
    /// to the entry's first operand.
    fn enter(&mut self) -> (r: Option<Value>)
        ensures
            final(self).nodes@ == old(self).nodes@,
            old(self).at < old(self).nodes@.len() ==> option_view(r) == option_view(
                old(self).nodes@[old(self).at as int].constant,
            ) && final(self).at == (if r is Some {
                old(self).nodes@[old(self).at as int].end
            } else {
                (old(self).at + 1) as usize
            }),
            old(self).at >= old(self).nodes@.len() ==> r is None && final(self).at == old(self).at,
    {
        if self.at >= self.nodes.len() {
            return None;
        }
        let node = &self.nodes[self.at];
        self.at = self.at + 1;
        match &node.constant {
            Some(value) => {
                self.at = node.end;
                Some(value.duplicate())
            },
            None => None,
        }
    }
}

/// The number of instructions does not depend on where they start or on
/// the column they report, and is at least one.
proof fn lemma_code_len(e: Expr, c: nat, b: nat)
    ensures
        code(e, c, b).len() == code(e, 0, 0).len(),
        code(e, c, b).len() >= 1,
    decreases e, 2int,
{
    match e {
        Expr::Spanned { span, expression } => {
            lemma_code_len(*expression, span.column as nat, b);
            lemma_code_len(*expression, span.column as nat, 0);
        },
        _ => if folded(e) is None {
            assert(code(e, c, b) == operation_code(e, c, b));
            assert(code(e, 0, 0) == operation_code(e, 0, 0));
            match e {
                Expr::Unary { value, .. } => {
                    lemma_code_len(*value, c, b);
                    lemma_code_len(*value, 0, 0);
                },
                Expr::Binary { left, op, right } => {
                    lemma_code_len(*left, c, b);
                    lemma_code_len(*left, 0, 0);
                    let l = code(*left, c, b).len();
                    lemma_code_len(*right, c, b + l);
                    lemma_code_len(*right, c, b + l + 1);
                    lemma_code_len(*right, 0, l);
                    lemma_code_len(*right, 0, l + 1);
                },
                Expr::Invoke { arguments, .. } => {
                    lemma_args_code_len(arguments@, c, b);
                    lemma_args_code_len(arguments@, 0, 0);
                },
                Expr::Interpolate { parts } => {
                    lemma_parts_code_len(parts@, c, b);
                    lemma_parts_code_len(parts@, 0, 0);
                },
                _ => {},
            }
        },
    }
}

proof fn lemma_args_code_len(args: Seq<Expr>, c: nat, b: nat)
    ensures
        args_code(args, c, b).len() == args_code(args, 0, 0).len(),
        args_code(args, c, b).len() >= args.len(),
    decreases args, 0int,
{
    if args.len() > 0 {
        let front = args.subrange(0, args.len() - 1);
        lemma_args_code_len(front, c, b);
        lemma_args_code_len(front, 0, 0);
        let p = args_code(front, c, b).len();
        lemma_code_len(args[args.len() - 1], c, b + p);
        lemma_code_len(args[args.len() - 1], 0, p);
    }
}

proof fn lemma_parts_code_len(parts: Seq<StrPart>, c: nat, b: nat)
    ensures
        parts_code(parts, c, b).len() == parts_code(parts, 0, 0).len(),
        parts_code(parts, c, b).len() >= parts.len(),
    decreases parts, 0int,
{
    if parts.len() > 0 {
        let front = parts.subrange(0, parts.len() - 1);
        lemma_parts_code_len(front, c, b);
        lemma_parts_code_len(front, 0, 0);
        let p = parts_code(front, c, b).len();
        if let StrPart::Hole(expression) = parts[parts.len() - 1] {
            lemma_code_len(*expression, c, b + p);
            lemma_code_len(*expression, 0, p);
        }
    }
}

/// A plan of a concatenation holds both parts.
proof fn lemma_plan_split(nodes: Seq<FoldNode>, a: int, p: Seq<(nat, Option<Datum>)>, q: Seq<(nat, Option<Datum>)>)
    requires
        holds_plan(nodes, a, p + q),
    ensures
        holds_plan(nodes, a, p),
        holds_plan(nodes, a + p.len(), q),
{
    assert forall|k: int| a <= k < a + p.len() implies node_view(#[trigger] nodes[k], k) == p[k - a] by {
        assert(node_view(nodes[k], k) == (p + q)[k - a]);
    }
    assert forall|k: int| a + p.len() <= k < a + p.len() + q.len() implies node_view(#[trigger] nodes[k], k)
        == q[k - (a + p.len())] by {
        assert(node_view(nodes[k], k) == (p + q)[k - a]);
    }
}

/// The plan of leading arguments is a prefix of the plan of all of them.
proof fn lemma_args_nodes_leading(args: Seq<Expr>, k: nat)
    requires
        k <= args.len(),
    ensures
        args_nodes(args) == args_nodes(args.subrange(0, k as int)) + args_nodes(args).subrange(
            args_nodes(args.subrange(0, k as int)).len() as int,
            args_nodes(args).len() as int,
        ),
        args_nodes(args.subrange(0, k as int)).len() <= args_nodes(args).len(),
    decreases args.len() - k,
{
    if k < args.len() {
        lemma_args_nodes_leading(args, k + 1);
        lemma_args_nodes_prefix(args, k + 1);
    } else {
        assert(args.subrange(0, k as int) =~= args);
    }
    assert(args_nodes(args) =~= args_nodes(args.subrange(0, k as int)) + args_nodes(args).subrange(
        args_nodes(args.subrange(0, k as int)).len() as int,
        args_nodes(args).len() as int,
    ));
}

/// The plan of leading parts is a prefix of the plan of all of them.
proof fn lemma_parts_nodes_leading(parts: Seq<StrPart>, k: nat)
    requires
        k <= parts.len(),
    ensures
        parts_nodes(parts) == parts_nodes(parts.subrange(0, k as int)) + parts_nodes(parts).subrange(
            parts_nodes(parts.subrange(0, k as int)).len() as int,
            parts_nodes(parts).len() as int,
        ),
        parts_nodes(parts.subrange(0, k as int)).len() <= parts_nodes(parts).len(),
    decreases parts.len() - k,
{
    if k < parts.len() {
        lemma_parts_nodes_leading(parts, k + 1);
        lemma_parts_nodes_prefix(parts, k + 1);
    } else {
        assert(parts.subrange(0, k as int) =~= parts);
    }
    assert(parts_nodes(parts) =~= parts_nodes(parts.subrange(0, k as int)) + parts_nodes(parts).subrange(
        parts_nodes(parts.subrange(0, k as int)).len() as int,
        parts_nodes(parts).len() as int,
    ));
}

/// No argument of a call that may not fold may fold.
proof fn lemma_args_no_candidate(args: Seq<Expr>, i: int)
    requires
        !args_shape(args).2,
        0 <= i < args.len(),
    ensures
        !shape(args[i]).2,
    decreases args.len(),
{
    if i < args.len() - 1 {
        lemma_args_no_candidate(args.subrange(0, args.len() - 1), i);
    }
}

/// No hole of an interpolation that may not fold may fold.
proof fn lemma_parts_no_candidate(parts: Seq<StrPart>, i: int)
    requires
        !parts_shape(parts).2,
        0 <= i < parts.len(),
    ensures
        parts[i] matches StrPart::Hole(h) ==> !shape(*h).2,
    decreases parts.len(),
{
    if i < parts.len() - 1 {
        lemma_parts_no_candidate(parts.subrange(0, parts.len() - 1), i);
    }
}

/// Resolution only reads entries below an instruction's index, so growing
/// the pool or the names keeps it.
proof fn lemma_resolve_grows(op: ExprOp, c1: Seq<Datum>, c2: Seq<Datum>, n1: Seq<Seq<char>>, n2: Seq<Seq<char>>)
    requires
        resolve(op, c1, n1) is Some,
        c1.len() <= c2.len(),
        c2.subrange(0, c1.len() as int) == c1,
        n1.len() <= n2.len(),
        n2.subrange(0, n1.len() as int) == n1,
    ensures
        resolve(op, c2, n2) == resolve(op, c1, n1),
{
    match op {
        ExprOp::Const(i) => {
            assert(c2[i as int] == c2.subrange(0, c1.len() as int)[i as int]);
        },
        ExprOp::Load { slot, .. } | ExprOp::Random { state_slot: slot } | ExprOp::Chance { state_slot: slot } => {
            assert(n2[slot as int] == n2.subrange(0, n1.len() as int)[slot as int]);
        },
        _ => {},
    }
}

/// Room for `n` more instructions: jump targets, pool indices and slots
/// stay within 32 bits.
spec fn lowering_room(chunk: ExprChunk, slots: SlotTable, n: nat) -> bool {
    &&& chunk.ops@.len() + n <= u32::MAX
    &&& chunk.constants@.len() + n < u32::MAX
    &&& slots.width() + n < u32::MAX
}

/// `names` extends `before`.
pub open spec fn names_extend(before: Seq<Seq<char>>, names: Seq<Seq<char>>) -> bool {
    before.len() <= names.len() && names.subrange(0, before.len() as int) == before
}

/// Whether a step reads neither the constant pool nor the slot names.
pub open spec fn neutral(step: Step) -> bool {
    !(step is Push || step is Load || step is Random || step is Chance)
}

/// The pool after `step`: a pushed value is added unless already present.
pub open spec fn pool_step(pool: Seq<Datum>, step: Step) -> Seq<Datum> {
    match step {
        Step::Push(v) => if first_equal(pool, v) is Some {
            pool
        } else {
            pool.push(v)
        },
        _ => pool,
    }
}

/// The pool after emitting `steps` in order.
pub open spec fn pool_after(pool: Seq<Datum>, steps: Seq<Step>) -> Seq<Datum>
    decreases steps.len(),
{
    if steps.len() == 0 {
        pool
    } else {
        pool_step(pool_after(pool, steps.drop_last()), steps.last())
    }
}

/// The slot names after `step`: a read name, or the random-state name for a
/// draw, is added unless already present.
pub open spec fn names_step(names: Seq<Seq<char>>, step: Step) -> Seq<Seq<char>> {
    let added = match step {
        Step::Load { name, .. } => Some(name),
        Step::Random | Step::Chance => Some(RNG_STATE_SLOT@),
        _ => None,
    };
    match added {
        Some(name) => if index_of(names, name) is Some {
            names
        } else {
            names.push(name)
        },
        None => names,
    }
}

/// The slot names after emitting `steps` in order.
pub open spec fn names_after(names: Seq<Seq<char>>, steps: Seq<Step>) -> Seq<Seq<char>>
    decreases steps.len(),
{
    if steps.len() == 0 {
        names
    } else {
        names_step(names_after(names, steps.drop_last()), steps.last())
    }
}

proof fn lemma_after_concat(pool: Seq<Datum>, names: Seq<Seq<char>>, a: Seq<Step>, b: Seq<Step>)
    ensures
        pool_after(pool, a + b) == pool_after(pool_after(pool, a), b),
        names_after(names, a + b) == names_after(names_after(names, a), b),
    decreases b.len(),
{
    if b.len() == 0 {
        assert(a + b =~= a);
    } else {
        lemma_after_concat(pool, names, a, b.drop_last());
        assert((a + b).drop_last() =~= a + b.drop_last());
        assert((a + b).last() == b.last());
    }
}

proof fn lemma_after_single(pool: Seq<Datum>, names: Seq<Seq<char>>, step: Step)
    ensures
        pool_after(pool, seq![step]) == pool_step(pool, step),
        names_after(names, seq![step]) == names_step(names, step),
{
    reveal_with_fuel(pool_after, 2);
    reveal_with_fuel(names_after, 2);
    assert(seq![step].drop_last() =~= Seq::<Step>::empty());
    assert(seq![step].last() == step);
}

proof fn lemma_after_neutral_update(pool: Seq<Datum>, names: Seq<Seq<char>>, steps: Seq<Step>, k: int, step: Step)
    requires
        0 <= k < steps.len(),
        neutral(steps[k]),
        neutral(step),
    ensures
        pool_after(pool, steps.update(k, step)) == pool_after(pool, steps),
        names_after(names, steps.update(k, step)) == names_after(names, steps),
    decreases steps.len(),
{
    let u = steps.update(k, step);
    if k == steps.len() - 1 {
        assert(u.drop_last() =~= steps.drop_last());
    } else {
        lemma_after_neutral_update(pool, names, steps.drop_last(), k, step);
        assert(u.drop_last() =~= steps.drop_last().update(k, step));
    }
}

/// From `c0` and `s0` to `c1` and `s1`, lowering appended instructions that
/// mean `steps`, only appended to the pool and, for a table with names,
/// only added names.
spec fn lowered(c0: ExprChunk, c1: ExprChunk, s0: SlotTable, s1: SlotTable, steps: Seq<Step>) -> bool {
    &&& c1.ops@.len() == c0.ops@.len() + steps.len()
    &&& c1.ops@.subrange(0, c0.ops@.len() as int) == c0.ops@
    &&& c0.constants@.len() <= c1.constants@.len() <= c0.constants@.len() + steps.len()
    &&& c1.constants@.subrange(0, c0.constants@.len() as int) == c0.constants@
    &&& c1.line == c0.line
    &&& s1.wf()
    &&& s1.width() <= s0.width() + steps.len()
    &&& s1.named() == s0.named()
    &&& s0.named() ==> names_extend(s0.slot_names(), s1.slot_names())
    &&& s1.named() ==> resolves_to(
        c1.ops@.subrange(c0.ops@.len() as int, c1.ops@.len() as int),
        view_items(c1.constants@),
        s1.slot_names(),
        steps,
    )
    &&& view_items(c1.constants@) == pool_after(view_items(c0.constants@), steps)
    &&& s0.named() ==> s1.slot_names() == names_after(s0.slot_names(), steps)
}

proof fn lemma_lowered_nothing(c: ExprChunk, s: SlotTable)
    requires
        s.wf(),
    ensures
        lowered(c, c, s, s, Seq::empty()),
{
    assert(c.ops@.subrange(0, c.ops@.len() as int) =~= c.ops@);
    assert(c.constants@.subrange(0, c.constants@.len() as int) =~= c.constants@);
    assert(s.slot_names().subrange(0, s.slot_names().len() as int) =~= s.slot_names());
}

/// Two lowerings one after the other lower the concatenation.
proof fn lemma_lowered_chain(
    c0: ExprChunk,
    c1: ExprChunk,
    c2: ExprChunk,
    s0: SlotTable,
    s1: SlotTable,
    s2: SlotTable,
    a: Seq<Step>,
    b: Seq<Step>,
)
    requires
        lowered(c0, c1, s0, s1, a),
        lowered(c1, c2, s1, s2, b),
    ensures
        lowered(c0, c2, s0, s2, a + b),
{
    let n0 = c0.ops@.len() as int;
    let n1 = c1.ops@.len() as int;
    lemma_after_concat(view_items(c0.constants@), s0.slot_names(), a, b);
    assert(c2.ops@.subrange(0, n0) =~= c2.ops@.subrange(0, n1).subrange(0, n0));
    assert(c2.constants@.subrange(0, c0.constants@.len() as int) =~= c2.constants@.subrange(
        0,
        c1.constants@.len() as int,
    ).subrange(0, c0.constants@.len() as int));
    if s0.named() {
        assert(s2.slot_names().subrange(0, s0.slot_names().len() as int) =~= s2.slot_names().subrange(
            0,
            s1.slot_names().len() as int,
        ).subrange(0, s0.slot_names().len() as int));
    }
    if s2.named() {
        let ops = c2.ops@.subrange(n0, c2.ops@.len() as int);
        let pool1 = view_items(c1.constants@);
        let pool2 = view_items(c2.constants@);
        lemma_view_items(c1.constants@);
        lemma_view_items(c2.constants@);
        assert(pool1.len() <= pool2.len());
        assert(pool2.subrange(0, pool1.len() as int) =~= pool1) by {
            assert forall|i: int| 0 <= i < pool1.len() implies pool2[i] == pool1[i] by {
                assert(c2.constants@[i] == c2.constants@.subrange(0, c1.constants@.len() as int)[i]);
            }
        }
        assert forall|i: int| 0 <= i < ops.len() implies resolve(#[trigger] ops[i], pool2, s2.slot_names()) == Some(
            (a + b)[i],
        ) by {
            if i < a.len() {
                let first = c1.ops@.subrange(n0, n1);
                assert(ops[i] == first[i]) by {
                    assert(ops[i] == c2.ops@[n0 + i]);
                    assert(c2.ops@[n0 + i] == c2.ops@.subrange(0, n1)[n0 + i]);
                }
                assert(resolve(first[i], pool1, s1.slot_names()) == Some(a[i]));
                lemma_resolve_grows(first[i], pool1, pool2, s1.slot_names(), s2.slot_names());
            } else {
                let second = c2.ops@.subrange(n1, c2.ops@.len() as int);
                assert(ops[i] == second[i - a.len()]);
                assert(resolve(second[i - a.len()], pool2, s2.slot_names()) == Some(b[i - a.len()]));
            }
        }
    }
}

/// Appending one instruction that means `step` lowers `[step]`.
proof fn lemma_lowered_push(c0: ExprChunk, c1: ExprChunk, s: SlotTable, op: ExprOp, step: Step)
    requires
        s.wf(),
        c1.ops@ == c0.ops@.push(op),
        c1.constants@ == c0.constants@,
        c1.line == c0.line,
        s.named() ==> resolve(op, view_items(c0.constants@), s.slot_names()) == Some(step),
        neutral(step),
    ensures
        lowered(c0, c1, s, s, seq![step]),
{
    lemma_after_single(view_items(c0.constants@), s.slot_names(), step);
    assert(c1.ops@.subrange(0, c0.ops@.len() as int) =~= c0.ops@);
    assert(c1.ops@.subrange(c0.ops@.len() as int, c1.ops@.len() as int) =~= seq![op]);
    assert(c1.constants@.subrange(0, c0.constants@.len() as int) =~= c0.constants@);
    assert(s.slot_names().subrange(0, s.slot_names().len() as int) =~= s.slot_names());
}

/// Re-pointing one appended instruction to one with another meaning.
proof fn lemma_lowered_patch(
    c0: ExprChunk,
    c1: ExprChunk,
    c2: ExprChunk,
    s0: SlotTable,
    s1: SlotTable,
    steps: Seq<Step>,
    index: int,
    op: ExprOp,
    step: Step,
)
    requires
        lowered(c0, c1, s0, s1, steps),
        c0.ops@.len() <= index < c1.ops@.len(),
        c2.ops@ == c1.ops@.update(index, op),
        c2.constants@ == c1.constants@,
        c2.line == c1.line,
        s1.named() ==> resolve(op, view_items(c1.constants@), s1.slot_names()) == Some(step),
        neutral(steps[index - c0.ops@.len()]),
        neutral(step),
    ensures
        lowered(c0, c2, s0, s1, steps.update(index - c0.ops@.len(), step)),
{
    let n0 = c0.ops@.len() as int;
    lemma_after_neutral_update(view_items(c0.constants@), s0.slot_names(), steps, index - n0, step);
    assert(c2.ops@.subrange(0, n0) =~= c1.ops@.subrange(0, n0));
    if s1.named() {
        let old_ops = c1.ops@.subrange(n0, c1.ops@.len() as int);
        let new_ops = c2.ops@.subrange(n0, c2.ops@.len() as int);
        let target = steps.update(index - n0, step);
        assert forall|i: int| 0 <= i < new_ops.len() implies resolve(
            #[trigger] new_ops[i],
            view_items(c2.constants@),
            s1.slot_names(),
        ) == Some(target[i]) by {
            if i != index - n0 {
                assert(new_ops[i] == old_ops[i]);
            }
        }
    }
}

/// The code of leading arguments is a prefix of the code of all of them.
proof fn lemma_args_code_prefix(args: Seq<Expr>, k: nat, c: nat, b: nat)
    requires
        0 < k <= args.len(),
    ensures
        args_code(args.subrange(0, k as int), c, b) == args_code(args.subrange(0, k - 1), c, b) + code(
            args[k - 1],
            c,
            b + args_code(args.subrange(0, k - 1), c, b).len(),
        ),
        args_code(args.subrange(0, k as int), c, b).len() <= args_code(args, c, b).len(),
    decreases args.len() - k,
{
    assert(args.subrange(0, k as int).subrange(0, k - 1) =~= args.subrange(0, k - 1));
    if k < args.len() {
        lemma_args_code_prefix(args, k + 1, c, b);
        assert(args.subrange(0, k + 1 as int).subrange(0, k as int) =~= args.subrange(0, k as int));
    } else {
        assert(args.subrange(0, k as int) =~= args);
    }
}

/// The code of leading parts is a prefix of the code of all of them.
proof fn lemma_parts_code_prefix(parts: Seq<StrPart>, k: nat, c: nat, b: nat)
    requires
        0 < k <= parts.len(),
    ensures
        parts_code(parts.subrange(0, k as int), c, b) == parts_code(parts.subrange(0, k - 1), c, b) + match parts[k
            - 1] {
            StrPart::Literal(literal) => seq![Step::Push(Datum::Text(literal@))],
            StrPart::Hole(expression) => code(*expression, c, b + parts_code(parts.subrange(0, k - 1), c, b).len()),
        },
        parts_code(parts.subrange(0, k as int), c, b).len() <= parts_code(parts, c, b).len(),
    decreases parts.len() - k,
{
    assert(parts.subrange(0, k as int).subrange(0, k - 1) =~= parts.subrange(0, k - 1));
    if k < parts.len() {
        lemma_parts_code_prefix(parts, k + 1, c, b);
        assert(parts.subrange(0, k + 1 as int).subrange(0, k as int) =~= parts.subrange(0, k as int));
    } else {
        assert(parts.subrange(0, k as int) =~= parts);
    }
}

/// Every plan has an entry for the node itself.
proof fn lemma_fold_nodes_nonempty(e: Expr)
    ensures
        fold_nodes(e).len() >= 1,
    decreases e,
{
    if let Expr::Spanned { expression, .. } = e {
        lemma_fold_nodes_nonempty(*expression);
    }
}

/// The cursor is at the plan of `e`, or there is no plan and nothing in
/// `e` may fold.
pub closed spec fn cursor_ok(nodes: Seq<FoldNode>, at: int, e: Expr) -> bool {
    holds_plan(nodes, at, fold_nodes(e)) || (at == nodes.len() && !shape(e).2)
}

/// How far lowering `e` moves the cursor.
spec fn advance(nodes: Seq<FoldNode>, at: int, e: Expr) -> nat {
    if holds_plan(nodes, at, fold_nodes(e)) {
        fold_nodes(e).len()
    } else {
        0
    }
}

/// Appends a constant.
fn emit_constant(chunk: &mut ExprChunk, slots: &SlotTable, value: Value)
    requires
        slots.wf(),
        lowering_room(*old(chunk), *slots, 1),
    ensures
        lowered(*old(chunk), *final(chunk), *slots, *slots, seq![Step::Push(value@)]),
{
    let ghost c0 = *chunk;
    let ghost v = value@;
    let index = chunk.constant(value);
    let ghost c1 = *chunk;
    proof {
        lemma_first_equal(view_items(c0.constants@), v);
        lemma_view_items(c0.constants@);
        lemma_view_items(c1.constants@);
        assert(view_items(c1.constants@)[index as int] == v);
        assert(c1.constants@.subrange(0, c0.constants@.len() as int) =~= c0.constants@);
    }
    chunk.push(ExprOp::Const(index));
    proof {
        lemma_after_single(view_items(c0.constants@), slots.slot_names(), Step::Push(v));
        assert(view_items(chunk.constants@) =~= pool_step(view_items(c0.constants@), Step::Push(v)));
        assert(chunk.ops@.subrange(0, c0.ops@.len() as int) =~= c0.ops@);
        assert(chunk.ops@.subrange(c0.ops@.len() as int, chunk.ops@.len() as int) =~= seq![ExprOp::Const(index)]);
        assert(slots.slot_names().subrange(0, slots.slot_names().len() as int) =~= slots.slot_names());
    }
}

/// Appends a read of the slot of `name`, interning the name.
fn emit_load(chunk: &mut ExprChunk, slots: &mut SlotTable, name: &String, column: usize)
    requires
        old(slots).wf(),
        lowering_room(*old(chunk), *old(slots), 1),
    ensures
        lowered(
            *old(chunk),
            *final(chunk),
            *old(slots),
            *final(slots),
            seq![Step::Load { name: name@, column: compact_position(column as nat) }],
        ),
{
    let ghost c0 = *chunk;
    let ghost s0 = *slots;
    let slot = slots.intern(name.as_str());
    let position = compact_source_position(column);
    chunk.push(ExprOp::Load { slot, column: position });
    proof {
        let step = Step::Load { name: name@, column: compact_position(column as nat) };
        lemma_after_single(view_items(c0.constants@), s0.slot_names(), step);
        assert(chunk.ops@.subrange(0, c0.ops@.len() as int) =~= c0.ops@);
        assert(chunk.ops@.subrange(c0.ops@.len() as int, chunk.ops@.len() as int) =~= seq![
            ExprOp::Load { slot, column: position },
        ]);
        assert(chunk.constants@.subrange(0, c0.constants@.len() as int) =~= c0.constants@);
        if s0.named() {
            assert(slots.slot_names().subrange(0, s0.slot_names().len() as int) =~= s0.slot_names());
            lemma_index_of(slots.slot_names(), name@);
        }
    }
}

/// Appends a random draw that keeps its state in the reserved slot.
fn emit_random(chunk: &mut ExprChunk, slots: &mut SlotTable, chance: bool)
    requires
        old(slots).wf(),
        lowering_room(*old(chunk), *old(slots), 1),
    ensures
        lowered(
            *old(chunk),
            *final(chunk),
            *old(slots),
            *final(slots),
            seq![
                if chance {
                    Step::Chance
                } else {
                    Step::Random
                },
            ],
        ),
{
    let ghost c0 = *chunk;
    let ghost s0 = *slots;
    let state_slot = slots.intern_rng_state();
    let op = if chance {
        ExprOp::Chance { state_slot }
    } else {
        ExprOp::Random { state_slot }
    };
    chunk.push(op);
    proof {
        let step = if chance {
            Step::Chance
        } else {
            Step::Random
        };
        lemma_after_single(view_items(c0.constants@), s0.slot_names(), step);
        assert(chunk.ops@.subrange(0, c0.ops@.len() as int) =~= c0.ops@);
        assert(chunk.ops@.subrange(c0.ops@.len() as int, chunk.ops@.len() as int) =~= seq![op]);
        assert(chunk.constants@.subrange(0, c0.constants@.len() as int) =~= c0.constants@);
        if s0.named() {
            assert(slots.slot_names().subrange(0, s0.slot_names().len() as int) =~= s0.slot_names());
            lemma_index_of(slots.slot_names(), RNG_STATE_SLOT@);
        }
    }
}

/// Appends an instruction that reads neither the pool nor the slots.
fn emit_op(chunk: &mut ExprChunk, slots: &SlotTable, op: ExprOp, step: Ghost<Step>)
    requires
        slots.wf(),
        lowering_room(*old(chunk), *slots, 1),
        forall|c: Seq<Datum>, n: Seq<Seq<char>>| resolve(op, c, n) == Some(step@),
    ensures
        lowered(*old(chunk), *final(chunk), *slots, *slots, seq![step@]),
{
    let ghost c0 = *chunk;
    chunk.push(op);
    proof {
        assert(resolve(op, Seq::empty(), Seq::empty()) == Some(step@));
        lemma_lowered_push(c0, *chunk, *slots, op, step@);
    }
}

/// Lowers `left and right` / `left or right` so the right operand is
/// skipped when the left one decides:
///
/// ```text
///   <left>
///   JumpIfFalse END      ; JumpIfTrue for `or`
///   <right>
///   Binary op
/// END:
/// ```
fn lower_short_circuit(
    left: &Expr,
    op: BinaryOp,
    right: &Expr,
    chunk: &mut ExprChunk,
    slots: &mut SlotTable,
    column: usize,
    folds: &mut FoldCursor<'_>,
    Ghost(whole): Ghost<Expr>,
)
    requires
        op == BinaryOp::And || op == BinaryOp::Or,
        whole == (Expr::Binary { left: Box::new(*left), op, right: Box::new(*right) }),
        old(slots).wf(),
        lowering_room(*old(chunk), *old(slots), operation_code(whole, column as nat, old(chunk).ops@.len()).len()),
        holds_plan(old(folds).nodes@, old(folds).at as int, fold_nodes(*left) + fold_nodes(*right)) || (old(
            folds,
        ).at == old(folds).nodes@.len() && !shape(*left).2 && !shape(*right).2),
    ensures
        lowered(*old(chunk), *final(chunk), *old(slots), *final(slots), operation_code(whole, column as nat, old(chunk).ops@.len())),
        final(folds).nodes@ == old(folds).nodes@,
        final(folds).at == old(folds).at + (if holds_plan(
            old(folds).nodes@,
            old(folds).at as int,
            fold_nodes(*left) + fold_nodes(*right),
        ) {
            (fold_nodes(*left) + fold_nodes(*right)).len()
        } else {
            0
        }),
    decreases whole, 0int,
{
    let ghost c0 = *chunk;
    let ghost s0 = *slots;
    let ghost nodes = folds.nodes@;
    let ghost at0 = folds.at as int;
    let ghost base = chunk.ops@.len();
    let ghost col = column as nat;
    let ghost planned = holds_plan(nodes, at0, fold_nodes(*left) + fold_nodes(*right));
    let ghost l = code(*left, col, base);
    let ghost r = code(*right, col, base + l.len() + 1);
    proof {
        lemma_fold_nodes_nonempty(*left);
        lemma_fold_nodes_nonempty(*right);
        lemma_code_len(*left, col, base);
        lemma_code_len(*right, col, base + l.len() + 1);
        if planned {
            lemma_plan_split(nodes, at0, fold_nodes(*left), fold_nodes(*right));
        }
    }
    lower(left, chunk, slots, column, folds);
    let ghost c1 = *chunk;
    let ghost s1 = *slots;
    let placeholder = if op == BinaryOp::And {
        ExprOp::JumpIfFalse(u32::MAX)
    } else {
        ExprOp::JumpIfTrue(u32::MAX)
    };
    let ghost placeholder_step = if op == BinaryOp::And {
        Step::JumpIfFalse(u32::MAX as nat)
    } else {
        Step::JumpIfTrue(u32::MAX as nat)
    };
    let guard = chunk.push(placeholder);
    proof {
        lemma_lowered_push(c1, *chunk, s1, placeholder, placeholder_step);
        lemma_lowered_chain(c0, c1, *chunk, s0, s1, s1, l, seq![placeholder_step]);
    }
    let ghost c2 = *chunk;
    lower(right, chunk, slots, column, folds);
    let ghost c3 = *chunk;
    let ghost s3 = *slots;
    proof {
        lemma_lowered_chain(c0, c2, c3, s0, s1, s3, l + seq![placeholder_step], r);
    }
    emit_op(chunk, slots, ExprOp::Binary(op), Ghost(Step::Binary(op)));
    proof {
        lemma_lowered_chain(c0, c3, *chunk, s0, s3, s3, l + seq![placeholder_step] + r, seq![Step::Binary(op)]);
    }
    let end = chunk.ops.len() as u32;
    let jump = if op == BinaryOp::And {
        ExprOp::JumpIfFalse(end)
    } else {
        ExprOp::JumpIfTrue(end)
    };
    let ghost jump_step = if op == BinaryOp::And {
        Step::JumpIfFalse(end as nat)
    } else {
        Step::JumpIfTrue(end as nat)
    };
    let ghost c4 = *chunk;
    chunk.ops.set(guard, jump);
    proof {
        lemma_lowered_patch(
            c0,
            c4,
            *chunk,
            s0,
            s3,
            l + seq![placeholder_step] + r + seq![Step::Binary(op)],
            guard as int,
            jump,
            jump_step,
        );
        assert((l + seq![placeholder_step] + r + seq![Step::Binary(op)]).update(guard - base, jump_step) =~= l.push(
            jump_step,
        ) + r.push(Step::Binary(op)));
    }
}

/// Lowers `expression`, reading variables at `column` unless an annotation
/// inside gives another, and folding the subtrees the plan marks constant.
#[verifier::loop_isolation(false)]
fn lower(expression: &Expr, chunk: &mut ExprChunk, slots: &mut SlotTable, column: usize, folds: &mut FoldCursor<'_>)
    requires
        old(slots).wf(),
        lowering_room(*old(chunk), *old(slots), code(*expression, column as nat, old(chunk).ops@.len()).len()),
        cursor_ok(old(folds).nodes@, old(folds).at as int, *expression),
    ensures
        lowered(*old(chunk), *final(chunk), *old(slots), *final(slots), code(*expression, column as nat, old(chunk).ops@.len())),
        final(folds).nodes@ == old(folds).nodes@,
        final(folds).at == old(folds).at + advance(old(folds).nodes@, old(folds).at as int, *expression),
    decreases expression, 1int,
{
    if let Expr::Spanned { span, expression: inner } = expression {
        lower(inner, chunk, slots, span.column, folds);
        return;
    }
    let ghost c0 = *chunk;
    let ghost s0 = *slots;
    let ghost nodes = folds.nodes@;
    let ghost at0 = folds.at as int;
    let ghost base = chunk.ops@.len();
    let ghost col = column as nat;
    let ghost planned = holds_plan(nodes, at0, fold_nodes(*expression));
    let ghost children = fold_children(*expression);
    proof {
        lemma_fold_nodes_nonempty(*expression);
        lemma_shape_facts(*expression);
        lemma_code_len(*expression, col, base);
        assert(fold_nodes(*expression) == seq![(children.len() + 1, folded(*expression))] + children);
        if planned {
            lemma_plan_split(nodes, at0, seq![(children.len() + 1, folded(*expression))], children);
            assert(node_view(nodes[at0], at0) == (children.len() + 1, folded(*expression)));
        }
    }
    match folds.enter() {
        Some(value) => {
            emit_constant(chunk, slots, value);
            return;
        },
        None => {},
    }
    proof {
        if folded(*expression) is None {
            assert(code(*expression, col, base) == operation_code(*expression, col, base));
        }
    }
    match expression {
        Expr::Value(value) => {
            emit_constant(chunk, slots, value.duplicate());
        },
        Expr::Variable(name) => {
            emit_load(chunk, slots, name, column);
        },
        Expr::Unary { op, value } => {
            proof {
                lemma_code_len(**value, col, base);
            }
            lower(value, chunk, slots, column, folds);
            let ghost c1 = *chunk;
            let ghost s1 = *slots;
            emit_op(chunk, slots, ExprOp::Unary(*op), Ghost(Step::Unary(*op)));
            proof {
                lemma_lowered_chain(c0, c1, *chunk, s0, s1, s1, code(**value, col, base), seq![Step::Unary(*op)]);
                assert(code(**value, col, base) + seq![Step::Unary(*op)] =~= code(**value, col, base).push(
                    Step::Unary(*op),
                ));
            }
        },
        Expr::Binary { left, op, right } => {
            if *op == BinaryOp::And || *op == BinaryOp::Or {
                lower_short_circuit(left, *op, right, chunk, slots, column, folds, Ghost(*expression));
            } else {
                let ghost l = code(**left, col, base);
                let ghost r = code(**right, col, base + l.len());
                proof {
                    lemma_code_len(**left, col, base);
                    lemma_code_len(**right, col, base + l.len());
                    lemma_fold_nodes_nonempty(**left);
                    lemma_fold_nodes_nonempty(**right);
                    if planned {
                        lemma_plan_split(nodes, at0 + 1, fold_nodes(**left), fold_nodes(**right));
                    }
                }
                lower(left, chunk, slots, column, folds);
                let ghost c1 = *chunk;
                let ghost s1 = *slots;
                lower(right, chunk, slots, column, folds);
                let ghost c2 = *chunk;
                let ghost s2 = *slots;
                proof {
                    lemma_lowered_chain(c0, c1, c2, s0, s1, s2, l, r);
                }
                emit_op(chunk, slots, ExprOp::Binary(*op), Ghost(Step::Binary(*op)));
                proof {
                    lemma_lowered_chain(c0, c2, *chunk, s0, s2, s2, l + r, seq![Step::Binary(*op)]);
                    assert(l + r + seq![Step::Binary(*op)] =~= l + r.push(Step::Binary(*op)));
                }
            }
        },
        Expr::Invoke { function, arguments } => {
            lower_call(*function, arguments, chunk, slots, column, folds, Ghost(*expression));
        },
        Expr::Interpolate { parts } => {
            lower_interpolation(parts, chunk, slots, column, folds, Ghost(*expression));
        },
        Expr::Spanned { .. } => {},
    }
}

/// Lowers a call: its arguments in order, then the call, or a draw that
/// keeps its state in the reserved slot.
#[verifier::loop_isolation(false)]
fn lower_call(
    function: Builtin,
    arguments: &Vec<Expr>,
    chunk: &mut ExprChunk,
    slots: &mut SlotTable,
    column: usize,
    folds: &mut FoldCursor<'_>,
    Ghost(whole): Ghost<Expr>,
)
    requires
        whole == (Expr::Invoke { function, arguments: *arguments }),
        old(slots).wf(),
        lowering_room(*old(chunk), *old(slots), operation_code(whole, column as nat, old(chunk).ops@.len()).len()),
        holds_plan(old(folds).nodes@, old(folds).at as int, args_nodes(arguments@)) || (old(folds).at == old(
            folds,
        ).nodes@.len() && !args_shape(arguments@).2),
    ensures
        lowered(*old(chunk), *final(chunk), *old(slots), *final(slots), operation_code(whole, column as nat, old(chunk).ops@.len())),
        final(folds).nodes@ == old(folds).nodes@,
        final(folds).at == old(folds).at + (if holds_plan(old(folds).nodes@, old(folds).at as int, args_nodes(arguments@)) {
            args_nodes(arguments@).len()
        } else {
            0
        }),
    decreases whole, 0int,
{
    let ghost c0 = *chunk;
    let ghost s0 = *slots;
    let ghost nodes = folds.nodes@;
    let ghost start = folds.at as int;
    let ghost base = chunk.ops@.len();
    let ghost col = column as nat;
    let ghost planned = holds_plan(nodes, start, args_nodes(arguments@));
    let ghost args = arguments@;
    proof {
        lemma_lowered_nothing(c0, s0);
        assert(args.subrange(0, 0) =~= Seq::<Expr>::empty());
        lemma_args_code_len(args, col, base);
    }
    let mut i: usize = 0;
    while i < arguments.len()
        invariant
            i <= args.len(),
            args == arguments@,
            lowered(c0, *chunk, s0, *slots, args_code(args.subrange(0, i as int), col, base)),
            folds.nodes@ == nodes,
            planned ==> folds.at == start + args_nodes(args.subrange(0, i as int)).len()
                && holds_plan(nodes, start, args_nodes(args)),
            !planned ==> folds.at == nodes.len() && !args_shape(args).2,
            lowering_room(c0, s0, args_code(args, col, base).len() + 1),
            args_code(args, col, base).len() >= args.len(),
            c0.ops@.len() == base,
        decreases args.len() - i,
    {
        let ghost prefix = args.subrange(0, i as int);
        let ghost p = args_code(prefix, col, base);
        proof {
            lemma_args_code_prefix(args, (i + 1) as nat, col, base);
            lemma_code_len(args[i as int], col, base + p.len());
            assert(args.subrange(0, i + 1).subrange(0, i as int) =~= prefix);
            if planned {
                lemma_args_nodes_leading(args, (i + 1) as nat);
                lemma_args_nodes_prefix(args, (i + 1) as nat);
                let upto = args_nodes(args.subrange(0, i + 1));
                lemma_plan_split(nodes, start, upto, args_nodes(args).subrange(upto.len() as int, args_nodes(args).len() as int));
                lemma_plan_split(nodes, start, args_nodes(prefix), fold_nodes(args[i as int]));
            } else {
                lemma_args_no_candidate(args, i as int);
                lemma_fold_nodes_nonempty(args[i as int]);
            }
        }
        let ghost c1 = *chunk;
        let ghost s1 = *slots;
        proof {
            assert(decreases_to!(whole => arguments@[i as int]));
        }
        lower(&arguments[i], chunk, slots, column, folds);
        proof {
            lemma_lowered_chain(c0, c1, *chunk, s0, s1, *slots, p, code(args[i as int], col, base + p.len()));
        }
        i = i + 1;
    }
    proof {
        assert(args.subrange(0, args.len() as int) =~= args);
    }
    let ghost c1 = *chunk;
    let ghost s1 = *slots;
    let ghost all = args_code(args, col, base);
    if function == Builtin::Random {
        emit_random(chunk, slots, false);
        proof {
            lemma_lowered_chain(c0, c1, *chunk, s0, s1, *slots, all, seq![Step::Random]);
            assert(all + seq![Step::Random] =~= all.push(Step::Random));
        }
    } else if function == Builtin::Chance {
        emit_random(chunk, slots, true);
        proof {
            lemma_lowered_chain(c0, c1, *chunk, s0, s1, *slots, all, seq![Step::Chance]);
            assert(all + seq![Step::Chance] =~= all.push(Step::Chance));
        }
    } else {
        let argc = arguments.len() as u32;
        emit_op(
            chunk,
            slots,
            ExprOp::Call { function: function, argc },
            Ghost(Step::Call { function: function, argc: args.len() }),
        );
        proof {
            lemma_lowered_chain(
                c0,
                c1,
                *chunk,
                s0,
                s1,
                s1,
                all,
                seq![Step::Call { function: function, argc: args.len() }],
            );
            assert(all + seq![Step::Call { function: function, argc: args.len() }] =~= all.push(
                Step::Call { function: function, argc: args.len() },
            ));
        }
    }
}

/// Lowers an interpolation: literal text as constants and holes as their
/// expressions, in order, then their concatenation.
#[verifier::loop_isolation(false)]
fn lower_interpolation(
    parts: &Vec<StrPart>,
    chunk: &mut ExprChunk,
    slots: &mut SlotTable,
    column: usize,
    folds: &mut FoldCursor<'_>,
    Ghost(whole): Ghost<Expr>,
)
    requires
        whole == (Expr::Interpolate { parts: *parts }),
        old(slots).wf(),
        lowering_room(*old(chunk), *old(slots), operation_code(whole, column as nat, old(chunk).ops@.len()).len()),
        holds_plan(old(folds).nodes@, old(folds).at as int, parts_nodes(parts@)) || (old(folds).at == old(
            folds,
        ).nodes@.len() && !parts_shape(parts@).2),
    ensures
        lowered(*old(chunk), *final(chunk), *old(slots), *final(slots), operation_code(whole, column as nat, old(chunk).ops@.len())),
        final(folds).nodes@ == old(folds).nodes@,
        final(folds).at == old(folds).at + (if holds_plan(old(folds).nodes@, old(folds).at as int, parts_nodes(parts@)) {
            parts_nodes(parts@).len()
        } else {
            0
        }),
    decreases whole, 0int,
{
    let ghost c0 = *chunk;
    let ghost s0 = *slots;
    let ghost nodes = folds.nodes@;
    let ghost start = folds.at as int;
    let ghost base = chunk.ops@.len();
    let ghost col = column as nat;
    let ghost planned = holds_plan(nodes, start, parts_nodes(parts@));
    let ghost ps = parts@;
    proof {
        lemma_lowered_nothing(c0, s0);
        assert(ps.subrange(0, 0) =~= Seq::<StrPart>::empty());
        lemma_parts_code_len(ps, col, base);
    }
    let mut i: usize = 0;
    while i < parts.len()
        invariant
            i <= ps.len(),
            ps == parts@,
            lowered(c0, *chunk, s0, *slots, parts_code(ps.subrange(0, i as int), col, base)),
            folds.nodes@ == nodes,
            planned ==> folds.at == start + parts_nodes(ps.subrange(0, i as int)).len()
                && holds_plan(nodes, start, parts_nodes(ps)),
            !planned ==> folds.at == nodes.len() && !parts_shape(ps).2,
            lowering_room(c0, s0, parts_code(ps, col, base).len() + 1),
            parts_code(ps, col, base).len() >= ps.len(),
            c0.ops@.len() == base,
        decreases ps.len() - i,
    {
        let ghost prefix = ps.subrange(0, i as int);
        let ghost p = parts_code(prefix, col, base);
        proof {
            lemma_parts_code_prefix(ps, (i + 1) as nat, col, base);
            assert(ps.subrange(0, i + 1).subrange(0, i as int) =~= prefix);
            lemma_parts_nodes_prefix(ps, (i + 1) as nat);
            if planned {
                lemma_parts_nodes_leading(ps, (i + 1) as nat);
                let upto = parts_nodes(ps.subrange(0, i + 1));
                lemma_plan_split(nodes, start, upto, parts_nodes(ps).subrange(upto.len() as int, parts_nodes(ps).len() as int));
            } else {
                lemma_parts_no_candidate(ps, i as int);
            }
        }
        let ghost c1 = *chunk;
        let ghost s1 = *slots;
        match &parts[i] {
            StrPart::Literal(literal) => {
                emit_constant(chunk, slots, Value::String(literal.clone()));
                proof {
                    lemma_lowered_chain(c0, c1, *chunk, s0, s1, s1, p, seq![Step::Push(Datum::Text(literal@))]);
                }
            },
            StrPart::Hole(hole) => {
                proof {
                    lemma_code_len(**hole, col, base + p.len());
                    lemma_fold_nodes_nonempty(**hole);
                    if planned {
                        lemma_plan_split(nodes, start, parts_nodes(prefix), fold_nodes(**hole));
                    }
                }
                proof {
                    assert(decreases_to!(whole => parts@[i as int]));
                    assert(decreases_to!(parts@[i as int] => **hole));
                }
                lower(hole, chunk, slots, column, folds);
                proof {
                    lemma_lowered_chain(c0, c1, *chunk, s0, s1, *slots, p, code(**hole, col, base + p.len()));
                }
            },
        }
        i = i + 1;
    }
    proof {
        assert(ps.subrange(0, ps.len() as int) =~= ps);
    }
    let ghost c1 = *chunk;
    let ghost s1 = *slots;
    let count = parts.len() as u32;
    emit_op(chunk, slots, ExprOp::Concat(count), Ghost(Step::Concat(ps.len())));
    proof {
        lemma_lowered_chain(c0, c1, *chunk, s0, s1, s1, parts_code(ps, col, base), seq![Step::Concat(ps.len())]);
        assert(parts_code(ps, col, base) + seq![Step::Concat(ps.len())] =~= parts_code(ps, col, base).push(
            Step::Concat(ps.len()),
        ));
    }
}

/// The fold plan of an expression; empty when nothing in it may fold.
pub fn fold_plan(expression: &Expr, line: usize) -> (r: Vec<FoldNode>)
    requires
        shape(*expression).0 <= usize::MAX,
    ensures
        cursor_ok(r@, 0, *expression),
        !shape(*expression).2 ==> r@.len() == 0,
        shape(*expression).2 ==> holds_plan(r@, 0, fold_nodes(*expression)) && r@.len() == fold_nodes(*expression).len(),
{
    let shape = fold_shape(expression);
    if !shape.candidate {
        return Vec::new();
    }
    proof {
        lemma_plan_size(*expression);
    }
    let mut nodes: Vec<FoldNode> = Vec::with_capacity(shape.nodes);
    build_fold_plan(expression, line, &mut nodes);
    nodes
}

/// What compiling `expression` leaves in `chunk` and `slots`: the
/// instructions mean `code(expression, 1, 0)`; the pool holds each value
/// they push once, in order of first use; a table with names gains each name
/// they read (and the random-state name for a draw) that it lacked, in order
/// of first use. Since pool entries and names are distinct, this fixes every
/// instruction (see `compilation_is_determined`).
pub open spec fn compiled(
    expression: Expr,
    line: usize,
    chunk: ExprChunk,
    before: SlotTable,
    after: SlotTable,
) -> bool {
    &&& chunk.line == compact_position(line as nat)
    &&& chunk.ops@.len() == code(expression, 1, 0).len()
    &&& chunk.constants@.len() <= chunk.ops@.len()
    &&& after.wf()
    &&& after.width() <= before.width() + chunk.ops@.len()
    &&& after.named() == before.named()
    &&& before.named() ==> names_extend(before.slot_names(), after.slot_names())
    &&& after.named() ==> resolves_to(chunk.ops@, view_items(chunk.constants@), after.slot_names(), code(expression, 1, 0))
    &&& view_items(chunk.constants@) == pool_after(Seq::empty(), code(expression, 1, 0))
    &&& before.named() ==> after.slot_names() == names_after(before.slot_names(), code(expression, 1, 0))
}

proof fn lemma_pool_distinct(steps: Seq<Step>)
    ensures
        forall|i: int, j: int|
            0 <= i < j < pool_after(Seq::empty(), steps).len() ==> #[trigger] pool_after(Seq::empty(), steps)[i]
                != #[trigger] pool_after(Seq::empty(), steps)[j],
    decreases steps.len(),
{
    if steps.len() > 0 {
        lemma_pool_distinct(steps.drop_last());
        let prev = pool_after(Seq::empty(), steps.drop_last());
        if let Step::Push(v) = steps.last() {
            lemma_first_equal(prev, v);
        }
    }
}

/// A compiled instruction is fixed by its meaning when the pool and the
/// slot names hold each entry once.
proof fn lemma_resolve_injective(a: ExprOp, b: ExprOp, pool: Seq<Datum>, names: Seq<Seq<char>>)
    requires
        resolve(a, pool, names) is Some,
        resolve(a, pool, names) == resolve(b, pool, names),
        forall|i: int, j: int| 0 <= i < j < pool.len() ==> #[trigger] pool[i] != #[trigger] pool[j],
        forall|i: int, j: int| 0 <= i < j < names.len() ==> #[trigger] names[i] != #[trigger] names[j],
    ensures
        a == b,
{
    match (a, b) {
        (ExprOp::Const(i), ExprOp::Const(j)) => {
            if i < j {
                assert(pool[i as int] != pool[j as int]);
            } else if j < i {
                assert(pool[j as int] != pool[i as int]);
            }
        },
        (ExprOp::Load { slot: i, .. }, ExprOp::Load { slot: j, .. })
        | (ExprOp::Random { state_slot: i }, ExprOp::Random { state_slot: j })
        | (ExprOp::Chance { state_slot: i }, ExprOp::Chance { state_slot: j }) => {
            if i < j {
                assert(names[i as int] != names[j as int]);
            } else if j < i {
                assert(names[j as int] != names[i as int]);
            }
        },
        _ => {},
    }
}

/// Compilation is exact: compiling one expression on one named slot table
/// gives the same instructions, the same constant pool (each distinct value
/// once, in order of first use) and the same slot names (the table's names
/// followed by each newly read name in order of first use) every time.
pub proof fn compilation_is_determined(
    expression: Expr,
    line: usize,
    first: ExprChunk,
    second: ExprChunk,
    before: SlotTable,
    after_first: SlotTable,
    after_second: SlotTable,
)
    requires
        before.named(),
        compiled(expression, line, first, before, after_first),
        compiled(expression, line, second, before, after_second),
    ensures
        first.ops@ == second.ops@,
        view_items(first.constants@) == view_items(second.constants@),
        after_first.slot_names() == after_second.slot_names(),
        first.line == second.line,
{
    let steps = code(expression, 1, 0);
    let pool = view_items(first.constants@);
    let names = after_first.slot_names();
    lemma_pool_distinct(steps);
    consistent_tables_name_slots_once(after_first);
    assert forall|i: int| 0 <= i < first.ops@.len() implies first.ops@[i] == second.ops@[i] by {
        assert(resolve(first.ops@[i], pool, names) == Some(steps[i]));
        assert(resolve(second.ops@[i], pool, names) == Some(steps[i]));
        lemma_resolve_injective(first.ops@[i], second.ops@[i], pool, names);
    }
    assert(first.ops@ =~= second.ops@);
}

/// Compiles `expression` into `chunk`, replacing what it held, and interns
/// the variables it reads into `slots`.
pub fn compile_expression_into(expression: &Expr, slots: &mut SlotTable, line: usize, chunk: &mut ExprChunk)
    requires
        old(slots).wf(),
        shape(*expression).0 <= usize::MAX,
        old(slots).width() + code(*expression, 1, 0).len() < u32::MAX,
    ensures
        compiled(*expression, line, *final(chunk), *old(slots), *final(slots)),
{
    chunk.ops.clear();
    chunk.constants.clear();
    chunk.line = compact_source_position(line);
    let ghost c0 = *chunk;
    let plan = fold_plan(expression, line);
    let mut cursor = FoldCursor { nodes: plan.as_slice(), at: 0 };
    lower(expression, chunk, slots, 1, &mut cursor);
    proof {
        assert(chunk.ops@.subrange(0, 0) =~= Seq::<ExprOp>::empty());
        assert(chunk.ops@.subrange(0, chunk.ops@.len() as int) =~= chunk.ops@);
    }
}

/// Compiles `expression` into a new chunk for source line `line`,
/// interning the variables it reads into `slots`.
pub fn compile_expression(expression: &Expr, slots: &mut SlotTable, line: usize) -> (r: ExprChunk)
    requires
        old(slots).wf(),
        shape(*expression).0 <= usize::MAX,
        old(slots).width() + code(*expression, 1, 0).len() < u32::MAX,
    ensures
        compiled(*expression, line, r, *old(slots), *final(slots)),
{
    let mut chunk = ExprChunk::new(line);
    compile_expression_into(expression, slots, line, &mut chunk);
    chunk
}

/// `and`/`or` compile to a guard that skips exactly the right operand: the
/// left operand's code comes first, then a jump (on false for `and`, on true
/// for `or`) to the position just past the whole expression, then the right
/// operand's code, then the operator.
pub proof fn short_circuits_jump_past_the_right_operand(left: Expr, op: BinaryOp, right: Expr, column: nat, base: nat)
    requires
        op == BinaryOp::And || op == BinaryOp::Or,
        folded(Expr::Binary { left: Box::new(left), op, right: Box::new(right) }) is None,
    ensures
        ({
            let whole = code(Expr::Binary { left: Box::new(left), op, right: Box::new(right) }, column, base);
            let l = code(left, column, base);
            let r = code(right, column, base + l.len() + 1);
            &&& whole.len() == l.len() + r.len() + 2
            &&& whole.subrange(0, l.len() as int) == l
            &&& whole[l.len() as int] == (if op == BinaryOp::And {
                Step::JumpIfFalse(base + whole.len())
            } else {
                Step::JumpIfTrue(base + whole.len())
            })
            &&& whole.subrange(l.len() + 1int, l.len() + 1int + r.len()) == r
            &&& whole[whole.len() - 1] == Step::Binary(op)
        }),
{
    let whole = code(Expr::Binary { left: Box::new(left), op, right: Box::new(right) }, column, base);
    let l = code(left, column, base);
    let r = code(right, column, base + l.len() + 1);
    let guard = if op == BinaryOp::And {
        Step::JumpIfFalse(base + l.len() + r.len() + 2)
    } else {
        Step::JumpIfTrue(base + l.len() + r.len() + 2)
    };
    let e = Expr::Binary { left: Box::new(left), op, right: Box::new(right) };
    assert(whole == operation_code(e, column, base));
    assert(whole == l.push(guard) + r.push(Step::Binary(op)));
    assert(whole.subrange(0, l.len() as int) =~= l);
    assert(whole.subrange(l.len() + 1int, l.len() + 1int + r.len()) =~= r);
}

} // verus!
