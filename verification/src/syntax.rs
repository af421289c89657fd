//! Expression trees, source spans, runtime errors and variable environments.

use crate::text::{natural_digits, render_natural};
use crate::value::{BinaryOp, Builtin, Datum, UnaryOp, Value};
use vstd::prelude::*;
use vstd::string::*;

verus! {

/// A source location of an expression node.
#[derive(Debug, Clone, Copy, PartialEq, Eq, Structural)]
pub struct Span {
    pub line: usize,
    pub column: usize,
}

/// One piece of an interpolated string.
#[derive(Debug)]
pub enum StrPart {
    /// Literal text copied into the result.
    Literal(String),
    /// An expression whose display form is inserted.
    Hole(Box<Expr>),
}

/// An expression tree.
#[derive(Debug)]
pub enum Expr {
    /// A node annotated with its source location.
    Spanned { span: Span, expression: Box<Expr> },
    /// A literal value.
    Value(Value),
    /// A variable read.
    Variable(String),
    /// A unary operation.
    Unary { op: UnaryOp, value: Box<Expr> },
    /// A binary operation; `and`/`or` short-circuit.
    Binary { left: Box<Expr>, op: BinaryOp, right: Box<Expr> },
    /// A call of a built-in function.
    Invoke { function: Builtin, arguments: Vec<Expr> },
    /// An interpolated string.
    Interpolate { parts: Vec<StrPart> },
}

impl Expr {
    /// The innermost source span attached to this expression, if any.
    pub fn span(&self) -> (r: Option<Span>)
        ensures
            r == expr_span(*self),
    {
        match self {
            Expr::Spanned { span, .. } => Some(*span),
            _ => None,
        }
    }
}

/// The span an expression carries at its root.
pub open spec fn expr_span(e: Expr) -> Option<Span> {
    match e {
        Expr::Spanned { span, .. } => Some(span),
        _ => None,
    }
}

/// An error raised while evaluating an expression: the 1-based source line
/// and a human-readable message.
#[derive(Debug, PartialEq, Eq)]
pub struct EvalError {
    pub line: usize,
    pub message: String,
}

impl EvalError {
    pub fn new(line: usize, message: &str) -> (r: EvalError)
        ensures
            r.line == line,
            r.message@ == message@,
    {
        EvalError { line, message: String::from_str(message) }
    }

    /// Renders the error as `line N: message`.
    pub fn to_string(&self) -> (r: String)
        ensures
            r@ == "line "@ + natural_digits(self.line as nat) + ": "@ + self.message@,
    {
        let mut out = String::from_str("line ");
        let digits = render_natural(self.line as u64);
        out.append(digits.as_str());
        out.append(": ");
        out.append(self.message.as_str());
        out
    }
}

/// How serious a diagnostic is.
#[derive(Debug, Clone, Copy, PartialEq, Eq, Structural)]
pub enum Severity {
    Error,
    Warning,
}

/// A message anchored at a position of a source file.
#[derive(Debug, Clone, PartialEq, Eq)]
pub struct Diagnostic {
    pub file: String,
    pub line: usize,
    pub column: usize,
    pub message: String,
    pub severity: Severity,
}

/// A diagnostic as its file, line, column, message and severity.
pub type DiagnosticModel = (Seq<char>, nat, nat, Seq<char>, Severity);

impl Diagnostic {
    pub open spec fn model(&self) -> DiagnosticModel {
        (self.file@, self.line as nat, self.column as nat, self.message@, self.severity)
    }

    /// An error at `file:line:column`.
    pub fn new(file: &str, line: usize, column: usize, message: String) -> (r: Diagnostic)
        ensures
            r.model() == (file@, line as nat, column as nat, message@, Severity::Error),
    {
        Diagnostic { file: file.to_owned(), line, column, message, severity: Severity::Error }
    }

    /// Whether this diagnostic is an error rather than a warning.
    pub fn is_error(&self) -> (r: bool)
        ensures
            r == (self.severity == Severity::Error),
    {
        match self.severity {
            Severity::Error => true,
            Severity::Warning => false,
        }
    }
}

/// The diagnostics as models.
pub open spec fn diagnostic_models(s: Seq<Diagnostic>) -> Seq<DiagnosticModel> {
    Seq::new(s.len(), |i: int| s[i].model())
}

/// Variable bindings an expression is evaluated against.
pub struct Variables {
    entries: Vec<(String, Value)>,
}

/// First binding of `name` among `entries`.
pub open spec fn binding_of(entries: Seq<(String, Value)>, name: Seq<char>) -> Option<Datum>
    decreases entries.len(),
{
    if entries.len() == 0 {
        None
    } else if entries[0].0@ == name {
        Some(entries[0].1@)
    } else {
        binding_of(entries.subrange(1, entries.len() as int), name)
    }
}

impl Variables {
    /// The value bound to `name`, if any.
    pub closed spec fn lookup(&self, name: Seq<char>) -> Option<Datum> {
        binding_of(self.entries@, name)
    }

    pub fn new() -> (r: Variables)
        ensures
            forall|name: Seq<char>| r.lookup(name) is None,
    {
        Variables { entries: Vec::new() }
    }

    /// Binds `name` to `value`, replacing any previous binding.
    pub fn insert(&mut self, name: &str, value: Value)
        ensures
            final(self).lookup(name@) == Some(value@),
            forall|other: Seq<char>|
                other != name@ ==> final(self).lookup(other) == old(self).lookup(other),
    {
        let ghost prior = self.entries@;
        self.entries.insert(0, (String::from_str(name), value));
        proof {
            assert(self.entries@.subrange(1, self.entries@.len() as int) =~= prior);
        }
    }

    /// The value bound to `name`, if any.
    pub fn get(&self, name: &str) -> (r: Option<&Value>)
        ensures
            r matches Some(v) ==> self.lookup(name@) == Some(v@),
            r is None <==> self.lookup(name@) is None,
    {
        let key = String::from_str(name);
        let mut i: usize = 0;
        assert(self.entries@.subrange(0, self.entries@.len() as int) =~= self.entries@);
        while i < self.entries.len()
            invariant
                key@ == name@,
                i <= self.entries@.len(),
                binding_of(self.entries@, name@) == binding_of(
                    self.entries@.subrange(i as int, self.entries@.len() as int),
                    name@,
                ),
            decreases self.entries@.len() - i,
        {
            let ghost rest = self.entries@.subrange(i as int, self.entries@.len() as int);
            assert(rest[0] == self.entries@[i as int]);
            assert(rest.subrange(1, rest.len() as int) =~= self.entries@.subrange(
                i + 1,
                self.entries@.len() as int,
            ));
            if self.entries[i].0 == key {
                return Some(&self.entries[i].1);
            }
            i = i + 1;
        }
        None
    }
}

} // verus!
