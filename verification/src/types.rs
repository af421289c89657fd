//! Conservative static type inference for expressions.
//!
//! The checker is a safety net: `Unknown` is the top of a coarse lattice and
//! is compatible with every type, so uncertain values never produce a
//! diagnostic. The inferred type is sound for the evaluator: a successful
//! evaluation yields a value whose type the inferred type could be.

use crate::builtins::{builtin_result, edit_result, owned_result, random_result, readonly_result};
use crate::eval::{binary_result, eval_args, eval_expr, evaluation};
use crate::slots::SlotTable;
use crate::syntax::{Expr, Span, StrPart, Variables};
use crate::text::{natural_digits, render_natural};
use crate::value::{builtin_accepts, BinaryOp, Builtin, Datum, UnaryOp, Value};
use vstd::prelude::*;
use vstd::string::*;

verus! {

/// A coarse type lattice whose top element is `Unknown`.
#[derive(Debug, Clone, Copy, PartialEq, Eq, Structural)]
pub enum Type {
    Integer,
    Boolean,
    String,
    List,
    Record,
    Unknown,
}

pub open spec fn type_label(t: Type) -> Seq<char> {
    match t {
        Type::Integer => "integer"@,
        Type::Boolean => "boolean"@,
        Type::String => "string"@,
        Type::List => "list"@,
        Type::Record => "record"@,
        Type::Unknown => "unknown"@,
    }
}

/// Whether a value of type `actual` could satisfy `expected`.
pub open spec fn compatible(actual: Type, expected: Type) -> bool {
    actual == Type::Unknown || expected == Type::Unknown || actual == expected
}

/// The type of a value.
pub open spec fn type_of(d: Datum) -> Type {
    match d {
        Datum::Integer(_) => Type::Integer,
        Datum::Boolean(_) => Type::Boolean,
        Datum::Text(_) => Type::String,
        Datum::List(_) => Type::List,
        Datum::Record(_) => Type::Record,
    }
}

impl Type {
    /// Stable human-readable name used in diagnostics.
    pub fn name(self) -> (r: &'static str)
        ensures
            r@ == type_label(self),
    {
        match self {
            Type::Integer => "integer",
            Type::Boolean => "boolean",
            Type::String => "string",
            Type::List => "list",
            Type::Record => "record",
            Type::Unknown => "unknown",
        }
    }

    /// Whether this type could satisfy `expected` at runtime.
    pub fn could_be(self, expected: Type) -> (r: bool)
        ensures
            r == compatible(self, expected),
    {
        self == Type::Unknown || expected == Type::Unknown || self == expected
    }

    /// The type of a value.
    pub fn of(value: &Value) -> (r: Type)
        ensures
            r == type_of(value@),
    {
        match value {
            Value::Integer(_) => Type::Integer,
            Value::Boolean(_) => Type::Boolean,
            Value::String(_) => Type::String,
            Value::List(_) => Type::List,
            Value::Record(_) => Type::Record,
        }
    }
}

/// A provable type mismatch, with the span of the innermost annotated node.
#[derive(Debug, PartialEq, Eq)]
pub struct TypeError {
    pub message: String,
    pub span: Option<Span>,
}

/// The model of a type error.
pub struct TypeIssue {
    pub message: Seq<char>,
    pub span: Option<Span>,
}

pub open spec fn issue_of(e: TypeError) -> TypeIssue {
    TypeIssue { message: e.message@, span: e.span }
}

pub open spec fn issues_of(errors: Seq<TypeError>) -> Seq<TypeIssue> {
    Seq::new(errors.len(), |i: int| issue_of(errors[i]))
}

/// Known variable types by name.
pub struct Environment {
    entries: Vec<(String, Type)>,
}

pub open spec fn env_binding(entries: Seq<(String, Type)>, name: Seq<char>) -> Type
    decreases entries.len(),
{
    if entries.len() == 0 {
        Type::Unknown
    } else if entries[0].0@ == name {
        entries[0].1
    } else {
        env_binding(entries.subrange(1, entries.len() as int), name)
    }
}

impl Environment {
    /// The type recorded for `name`; `Unknown` when absent.
    pub closed spec fn type_for(&self, name: Seq<char>) -> Type {
        env_binding(self.entries@, name)
    }

    pub fn new() -> (r: Environment)
        ensures
            forall|name: Seq<char>| r.type_for(name) == Type::Unknown,
    {
        Environment { entries: Vec::new() }
    }

    /// Records the type of `name`, replacing any previous entry.
    pub fn insert(&mut self, name: &str, kind: Type)
        ensures
            final(self).type_for(name@) == kind,
            forall|other: Seq<char>|
                other != name@ ==> final(self).type_for(other) == old(self).type_for(other),
    {
        let ghost prior = self.entries@;
        self.entries.insert(0, (String::from_str(name), kind));
        proof {
            assert(self.entries@.subrange(1, self.entries@.len() as int) =~= prior);
        }
    }

    /// The type recorded for `name`; `Unknown` when absent.
    pub fn get(&self, name: &str) -> (r: Type)
        ensures
            r == self.type_for(name@),
    {
        let key = String::from_str(name);
        let mut i: usize = 0;
        assert(self.entries@.subrange(0, self.entries@.len() as int) =~= self.entries@);
        while i < self.entries.len()
            invariant
                key@ == name@,
                i <= self.entries@.len(),
                env_binding(self.entries@, name@) == env_binding(
                    self.entries@.subrange(i as int, self.entries@.len() as int),
                    name@,
                ),
            decreases self.entries@.len() - i,
        {
            let ghost rest = self.entries@.subrange(i as int, self.entries@.len() as int);
            assert(rest[0] == self.entries@[i as int]);
            assert(rest.subrange(1, rest.len() as int) =~= self.entries@.subrange(
                i + 1,
                self.entries@.len() as int,
            ));
            if self.entries[i].0 == key {
                return self.entries[i].1;
            }
            i = i + 1;
        }
        Type::Unknown
    }
}

/// Where variable types come from: a name environment, or the slot types of
/// a frame.
pub enum TypeLookup<'a> {
    Names(&'a Environment),
    Frame(&'a SlotTable, &'a [Type]),
}

/// The type a lookup gives `name`.
pub open spec fn lookup_type(lookup: TypeLookup, name: Seq<char>) -> Type {
    match lookup {
        TypeLookup::Names(env) => env.type_for(name),
        TypeLookup::Frame(slots, state) => match slots.slot_of(name) {
            Some(slot) => if slot < state@.len() {
                state@[slot as int]
            } else {
                Type::Unknown
            },
            None => Type::Unknown,
        },
    }
}

/// The types a lookup gives, as a function of the name.
pub open spec fn types_by(lookup: TypeLookup) -> spec_fn(Seq<char>) -> Type {
    |name: Seq<char>| lookup_type(lookup, name)
}

fn lookup_variable(lookup: &TypeLookup, name: &str) -> (r: Type)
    requires
        lookup matches TypeLookup::Frame(slots, _) ==> slots.wf(),
    ensures
        r == lookup_type(*lookup, name@),
{
    match lookup {
        TypeLookup::Names(env) => env.get(name),
        TypeLookup::Frame(slots, state) => match slots.get(name) {
            Some(slot) => {
                if (slot as usize) < state.len() {
                    state[slot as usize]
                } else {
                    Type::Unknown
                }
            },
            None => Type::Unknown,
        },
    }
}

// ---------------------------------------------------------------------------
// Inference model
// ---------------------------------------------------------------------------

pub open spec fn issue(message: Seq<char>) -> TypeIssue {
    TypeIssue { message, span: None }
}

/// The issue for `actual` where `expected` is needed, if they cannot match.
pub open spec fn expect_issues(actual: Type, expected: Type, operation: Seq<char>) -> Seq<TypeIssue> {
    if compatible(actual, expected) {
        Seq::empty()
    } else {
        seq![issue(operation + " expects "@ + type_label(expected) + ", found "@ + type_label(actual))]
    }
}

/// Refines the result type of `+`.
pub open spec fn add_result(l: Type, r: Type, nominal: Type) -> Type {
    if l == nominal || r == nominal {
        nominal
    } else {
        Type::Unknown
    }
}

/// Inference of a binary operator from operand types.
pub open spec fn infer_binary_model(op: BinaryOp, l: Type, r: Type) -> (Type, Seq<TypeIssue>) {
    match op {
        BinaryOp::Add => if compatible(l, Type::Integer) && compatible(r, Type::Integer) {
            (add_result(l, r, Type::Integer), Seq::empty())
        } else if compatible(l, Type::String) && compatible(r, Type::String) {
            (add_result(l, r, Type::String), Seq::empty())
        } else {
            (
                Type::Unknown,
                seq![issue("`+` cannot combine "@ + type_label(l) + " and "@ + type_label(r))],
            )
        },
        BinaryOp::Subtract | BinaryOp::Multiply | BinaryOp::Divide => (
            Type::Integer,
            expect_issues(l, Type::Integer, "arithmetic"@) + expect_issues(
                r,
                Type::Integer,
                "arithmetic"@,
            ),
        ),
        BinaryOp::Equal | BinaryOp::NotEqual => (Type::Boolean, Seq::empty()),
        BinaryOp::Less | BinaryOp::LessEqual | BinaryOp::Greater | BinaryOp::GreaterEqual => {
            let both_int = compatible(l, Type::Integer) && compatible(r, Type::Integer);
            let both_str = compatible(l, Type::String) && compatible(r, Type::String);
            (
                Type::Boolean,
                if both_int || both_str {
                    Seq::empty()
                } else {
                    seq![issue("comparison cannot combine "@ + type_label(l) + " and "@ + type_label(r))]
                },
            )
        },
        BinaryOp::And | BinaryOp::Or => (
            Type::Boolean,
            expect_issues(l, Type::Boolean, "boolean operation"@) + expect_issues(
                r,
                Type::Boolean,
                "boolean operation"@,
            ),
        ),
    }
}

pub open spec fn builtin_label(f: Builtin) -> Seq<char> {
    match f {
        Builtin::List => "list"@,
        Builtin::Record => "record"@,
        Builtin::Get => "get"@,
        Builtin::Put => "put"@,
        Builtin::Push => "push"@,
        Builtin::Remove => "remove"@,
        Builtin::Len => "len"@,
        Builtin::Contains => "contains"@,
        Builtin::Random => "random"@,
        Builtin::Chance => "chance"@,
    }
}

/// Issues for the record keys (every other argument from the first).
pub open spec fn record_key_issues(args: Seq<Type>) -> Seq<TypeIssue>
    decreases args.len(),
{
    if args.len() == 0 {
        Seq::empty()
    } else {
        expect_issues(args[0], Type::String, "record key"@) + record_key_issues(
            if args.len() >= 2 {
                args.subrange(2, args.len() as int)
            } else {
                Seq::empty()
            },
        )
    }
}

/// Issues for `random` arguments, each of which must be an integer.
pub open spec fn random_issues(args: Seq<Type>) -> Seq<TypeIssue>
    decreases args.len(),
{
    if args.len() == 0 {
        Seq::empty()
    } else {
        expect_issues(args[0], Type::Integer, "random"@) + random_issues(args.subrange(1, args.len() as int))
    }
}

pub open spec fn container_issues(actual: Type, operation: Seq<char>) -> Seq<TypeIssue> {
    if compatible(actual, Type::List) || compatible(actual, Type::Record) || compatible(actual, Type::String) {
        Seq::empty()
    } else {
        seq![issue(operation + " expects a list, record or string, found "@ + type_label(actual))]
    }
}

pub open spec fn indexable_issues(args: Seq<Type>, operation: Seq<char>) -> Seq<TypeIssue> {
    if args.len() < 2 {
        Seq::empty()
    } else {
        let collection = args[0];
        let key = args[1];
        let list_ok = compatible(collection, Type::List) && compatible(key, Type::Integer);
        let record_ok = compatible(collection, Type::Record) && compatible(key, Type::String);
        if list_ok || record_ok {
            Seq::empty()
        } else {
            seq![issue(operation + " expects a list and integer index, or a record and string key, found "@
                + type_label(collection) + " and "@ + type_label(key))]
        }
    }
}

/// Inference of a built-in call from argument types.
pub open spec fn infer_builtin_model(f: Builtin, args: Seq<Type>) -> (Type, Seq<TypeIssue>) {
    let arity: Seq<TypeIssue> = if builtin_accepts(f, args.len()) {
        Seq::empty()
    } else {
        seq![issue(builtin_label(f) + " does not accept "@ + natural_digits(args.len()) + " argument(s)"@)]
    };
    let first = if args.len() > 0 { Some(args[0]) } else { None::<Type> };
    let (result, rest): (Type, Seq<TypeIssue>) = match f {
        Builtin::List => (Type::List, Seq::empty()),
        Builtin::Record => (Type::Record, record_key_issues(args)),
        Builtin::Len => (Type::Integer, match first {
            Some(t) => container_issues(t, "len"@),
            None => Seq::empty(),
        }),
        Builtin::Contains => (Type::Boolean, match first {
            Some(t) => container_issues(t, "contains"@) + if (t == Type::Record || t == Type::String) && args.len() > 1 {
                expect_issues(args[1], Type::String, "contains key"@)
            } else {
                Seq::empty()
            },
            None => Seq::empty(),
        }),
        Builtin::Get => (Type::Unknown, indexable_issues(args, "get"@)),
        Builtin::Put => (match first { Some(t) => t, None => Type::Unknown }, indexable_issues(args, "put"@)),
        Builtin::Push => (Type::List, match first {
            Some(t) => expect_issues(t, Type::List, "push"@),
            None => Seq::empty(),
        }),
        Builtin::Remove => (match first { Some(t) => t, None => Type::Unknown }, indexable_issues(args, "remove"@)),
        Builtin::Random => (Type::Integer, random_issues(args)),
        Builtin::Chance => (Type::Boolean, match first {
            Some(t) => expect_issues(t, Type::Integer, "chance"@),
            None => Seq::empty(),
        }),
    };
    (result, arity + rest)
}

/// A boolean literal at the root of `e`, looking through spans.
pub open spec fn constant_boolean(e: Expr) -> Option<bool>
    decreases e,
{
    match e {
        Expr::Spanned { expression, .. } => constant_boolean(*expression),
        Expr::Value(Value::Boolean(b)) => Some(b),
        _ => None,
    }
}

/// Gives issues without a span the span `span`.
pub open spec fn attach_span(issues: Seq<TypeIssue>, span: Span) -> Seq<TypeIssue> {
    Seq::new(
        issues.len(),
        |i: int|
            if issues[i].span is None {
                TypeIssue { message: issues[i].message, span: Some(span) }
            } else {
                issues[i]
            },
    )
}

/// The inferred type of `e` and the issues found, in the order the checker
/// reports them.
pub open spec fn infer_model(e: Expr, lookup: spec_fn(Seq<char>) -> Type) -> (Type, Seq<TypeIssue>)
    decreases e, 2int,
{
    match e {
        Expr::Spanned { span, expression } => {
            let (t, issues) = infer_model(*expression, lookup);
            (t, attach_span(issues, span))
        },
        Expr::Value(v) => (type_of(v@), Seq::empty()),
        Expr::Variable(name) => (lookup(name@), Seq::empty()),
        Expr::Unary { op, value } => {
            let (inner, issues) = infer_model(*value, lookup);
            match op {
                UnaryOp::Negate => (Type::Integer, issues + expect_issues(inner, Type::Integer, "unary `-`"@)),
                UnaryOp::Not => (Type::Boolean, issues + expect_issues(inner, Type::Boolean, "`not`"@)),
            }
        },
        Expr::Binary { left, op, right } => {
            let (l, left_issues) = infer_model(*left, lookup);
            let short = (op == BinaryOp::And && constant_boolean(*left) == Some(false)) || (op
                == BinaryOp::Or && constant_boolean(*left) == Some(true));
            let (r, right_issues) = if short {
                (Type::Boolean, Seq::empty())
            } else {
                infer_model(*right, lookup)
            };
            let (t, op_issues) = infer_binary_model(op, l, r);
            (t, left_issues + right_issues + op_issues)
        },
        Expr::Invoke { function, arguments } => {
            let (types, issues) = infer_arguments(arguments@, lookup);
            let (t, call_issues) = infer_builtin_model(function, types);
            (t, issues + call_issues)
        },
        Expr::Interpolate { parts } => (Type::String, infer_holes(parts@, lookup)),
    }
}

pub open spec fn infer_arguments(args: Seq<Expr>, lookup: spec_fn(Seq<char>) -> Type) -> (Seq<Type>, Seq<TypeIssue>)
    decreases args, 1int,
{
    if args.len() == 0 {
        (Seq::empty(), Seq::empty())
    } else {
        let (types, issues) = infer_arguments(args.subrange(0, args.len() - 1), lookup);
        let (t, more) = infer_model(args[args.len() - 1], lookup);
        (types.push(t), issues + more)
    }
}

pub open spec fn infer_holes(parts: Seq<StrPart>, lookup: spec_fn(Seq<char>) -> Type) -> Seq<TypeIssue>
    decreases parts, 1int,
{
    if parts.len() == 0 {
        Seq::empty()
    } else {
        let issues = infer_holes(parts.subrange(0, parts.len() - 1), lookup);
        match parts[parts.len() - 1] {
            StrPart::Hole(expr) => issues + infer_model(*expr, lookup).1,
            StrPart::Literal(_) => issues,
        }
    }
}


// ---------------------------------------------------------------------------
// Soundness of inference against evaluation
// ---------------------------------------------------------------------------

/// Every bound variable holds a value its looked-up type could be.
pub open spec fn bindings_typed(vars: Variables, lookup: spec_fn(Seq<char>) -> Type) -> bool {
    forall|name: Seq<char>, d: Datum|
        #![trigger vars.lookup(name), type_of(d)]
        vars.lookup(name) == Some(d) ==> compatible(type_of(d), lookup(name))
}

proof fn lemma_builtin_sound(f: Builtin, ds: Seq<Datum>, types: Seq<Type>)
    requires
        ds.len() == types.len(),
        forall|i: int| 0 <= i < ds.len() ==> compatible(type_of(#[trigger] ds[i]), types[i]),
    ensures
        builtin_result(f, ds) matches Ok(d) ==> compatible(type_of(d), infer_builtin_model(f, types).0),
{
    if builtin_accepts(f, ds.len()) {
        match owned_result(f, ds) {
            Ok(d) => {
                match f {
                    Builtin::Put => {
                        assert(compatible(type_of(ds[0]), types[0]));
                    },
                    Builtin::Remove => {
                        assert(compatible(type_of(ds[0]), types[0]));
                    },
                    _ => {},
                }
            },
            Err(_) => {},
        }
    }
}

proof fn lemma_random_sound(f: Builtin, ds: Seq<Datum>, types: Seq<Type>, state: i64)
    requires
        f == Builtin::Random || f == Builtin::Chance,
        ds.len() == types.len(),
    ensures
        random_result(f, ds, state).0 matches Ok(d) ==> compatible(type_of(d), infer_builtin_model(f, types).0),
{
}

proof fn lemma_binary_sound(op: BinaryOp, ld: Datum, rd: Datum, l: Type, r: Type)
    requires
        compatible(type_of(ld), l),
        compatible(type_of(rd), r),
    ensures
        binary_result(ld, op, rd) matches Ok(d) ==> compatible(type_of(d), infer_binary_model(op, l, r).0),
{
}

/// Type inference is sound for evaluation: when every bound variable holds
/// a value of a type compatible with the one the lookup gives it, a
/// successful evaluation of `e` (with or without random state) yields a
/// value whose type is compatible with the type inferred for `e`.
pub proof fn inference_is_sound(e: Expr, vars: Variables, rng: Option<i64>, lookup: spec_fn(Seq<char>) -> Type)
    requires
        bindings_typed(vars, lookup),
    ensures
        eval_expr(e, vars, rng).0 matches Ok(d) ==> compatible(type_of(d), infer_model(e, lookup).0),
    decreases e, 2int,
{
    match e {
        Expr::Spanned { expression, .. } => {
            inference_is_sound(*expression, vars, rng, lookup);
        },
        Expr::Value(_) => {},
        Expr::Variable(name) => {
            if let Some(d) = vars.lookup(name@) {
                assert(compatible(type_of(d), lookup(name@)));
            }
        },
        Expr::Unary { value, .. } => {
            inference_is_sound(*value, vars, rng, lookup);
        },
        Expr::Binary { left, op, right } => {
            inference_is_sound(*left, vars, rng, lookup);
            let (lr, s1) = eval_expr(*left, vars, rng);
            inference_is_sound(*right, vars, s1, lookup);
            if let Ok(ld) = lr {
                let (rr, _) = eval_expr(*right, vars, s1);
                if let Ok(rd) = rr {
                    let l = infer_model(*left, lookup).0;
                    let short = (op == BinaryOp::And && constant_boolean(*left) == Some(false)) || (op
                        == BinaryOp::Or && constant_boolean(*left) == Some(true));
                    let r = if short { Type::Boolean } else { infer_model(*right, lookup).0 };
                    if !short {
                        lemma_binary_sound(op, ld, rd, l, r);
                    } else {
                        lemma_binary_boolean_ops(op, ld, rd, l, r);
                    }
                }
            }
        },
        Expr::Invoke { function, arguments } => {
            arguments_are_sound(arguments@, vars, rng, lookup);
            let (a, s) = eval_args(arguments@, vars, rng);
            let types = infer_arguments(arguments@, lookup).0;
            if let Ok(ds) = a {
                if function == Builtin::Random || function == Builtin::Chance {
                    if let Some(state) = s {
                        lemma_random_sound(function, ds, types, state);
                    }
                } else {
                    lemma_builtin_sound(function, ds, types);
                }
            }
        },
        Expr::Interpolate { .. } => {},
    }
}

proof fn lemma_binary_boolean_ops(op: BinaryOp, ld: Datum, rd: Datum, l: Type, r: Type)
    requires
        op == BinaryOp::And || op == BinaryOp::Or,
    ensures
        binary_result(ld, op, rd) matches Ok(d) ==> compatible(type_of(d), infer_binary_model(op, l, r).0),
{
}

/// Argument-wise soundness: evaluated arguments line up with inferred
/// argument types.
pub proof fn arguments_are_sound(args: Seq<Expr>, vars: Variables, rng: Option<i64>, lookup: spec_fn(Seq<char>) -> Type)
    requires
        bindings_typed(vars, lookup),
    ensures
        infer_arguments(args, lookup).0.len() == args.len(),
        eval_args(args, vars, rng).0 matches Ok(ds) ==> {
            &&& ds.len() == args.len()
            &&& forall|i: int|
                0 <= i < ds.len() ==> compatible(type_of(#[trigger] ds[i]), infer_arguments(args, lookup).0[i])
        },
    decreases args, 1int,
{
    if args.len() > 0 {
        let front = args.subrange(0, args.len() - 1);
        arguments_are_sound(front, vars, rng, lookup);
        let (p, s) = eval_args(front, vars, rng);
        inference_is_sound(args[args.len() - 1], vars, s, lookup);
        let types = infer_arguments(args, lookup).0;
        let front_types = infer_arguments(front, lookup).0;
        if let Ok(ds) = p {
            let (r, _) = eval_expr(args[args.len() - 1], vars, s);
            if let Ok(d) = r {
                let all = ds.push(d);
                assert forall|i: int| 0 <= i < all.len() implies compatible(
                    type_of(#[trigger] all[i]),
                    types[i],
                ) by {
                    if i < ds.len() {
                        assert(all[i] == ds[i]);
                        assert(types[i] == front_types[i]);
                    }
                }
            }
        }
    }
}

/// What `evaluate` returns is compatible with the type `infer` reports.
pub proof fn evaluation_matches_inference(e: Expr, vars: Variables, env: &Environment)
    requires
        bindings_typed(vars, types_by(TypeLookup::Names(env))),
    ensures
        evaluation(e, vars) matches Ok(d) ==> compatible(type_of(d), infer_model(e, types_by(TypeLookup::Names(env))).0),
{
    inference_is_sound(e, vars, None, types_by(TypeLookup::Names(env)));
}

// ---------------------------------------------------------------------------
// Executable inference
// ---------------------------------------------------------------------------

fn append_str(out: &mut String, piece: &str)
    ensures
        final(out)@ == old(out)@ + piece@,
{
    out.append(piece);
}

fn push_issue(errors: &mut Vec<TypeError>, message: String)
    ensures
        issues_of(final(errors)@) == issues_of(old(errors)@).push(issue(message@)),
{
    errors.push(TypeError { message, span: None });
    assert(issues_of(errors@) =~= issues_of(old(errors)@).push(issue(errors@.last().message@)));
}

/// Reports `actual` where `expected` is needed, unless they could match.
fn expect(actual: Type, expected: Type, operation: &str, errors: &mut Vec<TypeError>)
    ensures
        issues_of(final(errors)@) == issues_of(old(errors)@) + expect_issues(actual, expected, operation@),
{
    if !actual.could_be(expected) {
        let mut message = String::from_str(operation);
        append_str(&mut message, " expects ");
        append_str(&mut message, expected.name());
        append_str(&mut message, ", found ");
        append_str(&mut message, actual.name());
        push_issue(errors, message);
    } else {
        assert(issues_of(errors@) =~= issues_of(old(errors)@) + Seq::<TypeIssue>::empty());
    }
}

fn pair_message(prefix: &str, l: Type, r: Type) -> (m: String)
    ensures
        m@ == prefix@ + type_label(l) + " and "@ + type_label(r),
{
    let mut message = String::from_str(prefix);
    append_str(&mut message, l.name());
    append_str(&mut message, " and ");
    append_str(&mut message, r.name());
    message
}

fn infer_binary(op: BinaryOp, l: Type, r: Type, errors: &mut Vec<TypeError>) -> (t: Type)
    ensures
        t == infer_binary_model(op, l, r).0,
        issues_of(final(errors)@) == issues_of(old(errors)@) + infer_binary_model(op, l, r).1,
{
    match op {
        BinaryOp::Add => {
            if l.could_be(Type::Integer) && r.could_be(Type::Integer) {
                assert(issues_of(errors@) =~= issues_of(old(errors)@) + Seq::<TypeIssue>::empty());
                if l == Type::Integer || r == Type::Integer { Type::Integer } else { Type::Unknown }
            } else if l.could_be(Type::String) && r.could_be(Type::String) {
                assert(issues_of(errors@) =~= issues_of(old(errors)@) + Seq::<TypeIssue>::empty());
                if l == Type::String || r == Type::String { Type::String } else { Type::Unknown }
            } else {
                push_issue(errors, pair_message("`+` cannot combine ", l, r));
                assert(issues_of(errors@) =~= issues_of(old(errors)@) + infer_binary_model(op, l, r).1);
                Type::Unknown
            }
        },
        BinaryOp::Subtract | BinaryOp::Multiply | BinaryOp::Divide => {
            expect(l, Type::Integer, "arithmetic", errors);
            expect(r, Type::Integer, "arithmetic", errors);
            assert(issues_of(errors@) =~= issues_of(old(errors)@) + infer_binary_model(op, l, r).1);
            Type::Integer
        },
        BinaryOp::Equal | BinaryOp::NotEqual => {
            assert(issues_of(errors@) =~= issues_of(old(errors)@) + Seq::<TypeIssue>::empty());
            Type::Boolean
        },
        BinaryOp::Less | BinaryOp::LessEqual | BinaryOp::Greater | BinaryOp::GreaterEqual => {
            let both_int = l.could_be(Type::Integer) && r.could_be(Type::Integer);
            let both_str = l.could_be(Type::String) && r.could_be(Type::String);
            if !(both_int || both_str) {
                push_issue(errors, pair_message("comparison cannot combine ", l, r));
                assert(issues_of(errors@) =~= issues_of(old(errors)@) + infer_binary_model(op, l, r).1);
            } else {
                assert(issues_of(errors@) =~= issues_of(old(errors)@) + Seq::<TypeIssue>::empty());
            }
            Type::Boolean
        },
        BinaryOp::And | BinaryOp::Or => {
            expect(l, Type::Boolean, "boolean operation", errors);
            expect(r, Type::Boolean, "boolean operation", errors);
            assert(issues_of(errors@) =~= issues_of(old(errors)@) + infer_binary_model(op, l, r).1);
            Type::Boolean
        },
    }
}

fn builtin_name(function: Builtin) -> (r: &'static str)
    ensures
        r@ == builtin_label(function),
{
    match function {
        Builtin::List => "list",
        Builtin::Record => "record",
        Builtin::Get => "get",
        Builtin::Put => "put",
        Builtin::Push => "push",
        Builtin::Remove => "remove",
        Builtin::Len => "len",
        Builtin::Contains => "contains",
        Builtin::Random => "random",
        Builtin::Chance => "chance",
    }
}

fn expect_container_or_string(actual: Type, operation: &str, errors: &mut Vec<TypeError>)
    ensures
        issues_of(final(errors)@) == issues_of(old(errors)@) + container_issues(actual, operation@),
{
    if !(actual.could_be(Type::List) || actual.could_be(Type::Record) || actual.could_be(Type::String)) {
        let mut message = String::from_str(operation);
        append_str(&mut message, " expects a list, record or string, found ");
        append_str(&mut message, actual.name());
        push_issue(errors, message);
    } else {
        assert(issues_of(errors@) =~= issues_of(old(errors)@) + Seq::<TypeIssue>::empty());
    }
}

fn check_indexable(args: &Vec<Type>, operation: &str, errors: &mut Vec<TypeError>)
    ensures
        issues_of(final(errors)@) == issues_of(old(errors)@) + indexable_issues(args@, operation@),
{
    if args.len() < 2 {
        assert(issues_of(errors@) =~= issues_of(old(errors)@) + Seq::<TypeIssue>::empty());
        return;
    }
    let collection = args[0];
    let key = args[1];
    let list_ok = collection.could_be(Type::List) && key.could_be(Type::Integer);
    let record_ok = collection.could_be(Type::Record) && key.could_be(Type::String);
    if !(list_ok || record_ok) {
        let mut message = String::from_str(operation);
        append_str(&mut message, " expects a list and integer index, or a record and string key, found ");
        let tail = pair_message("", collection, key);
        append_str(&mut message, tail.as_str());
        push_issue(errors, message);
        assert(message@ =~= operation@ + " expects a list and integer index, or a record and string key, found "@
                + type_label(collection) + " and "@ + type_label(key)) by {
            reveal_strlit("");
        }
    } else {
        assert(issues_of(errors@) =~= issues_of(old(errors)@) + Seq::<TypeIssue>::empty());
    }
}

fn infer_builtin(function: Builtin, args: &Vec<Type>, errors: &mut Vec<TypeError>) -> (t: Type)
    ensures
        t == infer_builtin_model(function, args@).0,
        issues_of(final(errors)@) == issues_of(old(errors)@) + infer_builtin_model(function, args@).1,
{
    let ghost start = issues_of(errors@);
    if !function.accepts(args.len()) {
        let mut message = String::from_str(builtin_name(function));
        append_str(&mut message, " does not accept ");
        let count = render_natural(args.len() as u64);
        append_str(&mut message, count.as_str());
        append_str(&mut message, " argument(s)");
        push_issue(errors, message);
    }
    let ghost after_arity = issues_of(errors@);
    let ghost arity = after_arity.subrange(start.len() as int, after_arity.len() as int);
    assert(after_arity =~= start + arity);
    assert(args@.subrange(0, args@.len() as int) =~= args@);
    let result = match function {
        Builtin::List => Type::List,
        Builtin::Record => {
            let mut k: usize = 0;
            while k < args.len()
                invariant
                    k <= args@.len(),
                    issues_of(errors@) + record_key_issues(args@.subrange(k as int, args@.len() as int)) == after_arity
                        + record_key_issues(args@),
                decreases args@.len() - k,
            {
                let ghost rest = args@.subrange(k as int, args@.len() as int);
                expect(args[k], Type::String, "record key", errors);
                if args.len() - k >= 2 {
                    assert(rest.subrange(2, rest.len() as int) =~= args@.subrange(k + 2, args@.len() as int));
                    k = k + 2;
                } else {
                    assert(args@.subrange(args@.len() as int, args@.len() as int) =~= Seq::<Type>::empty());
                    k = args.len();
                }
            }
            Type::Record
        },
        Builtin::Len => {
            if args.len() > 0 {
                expect_container_or_string(args[0], "len", errors);
            }
            Type::Integer
        },
        Builtin::Contains => {
            if args.len() > 0 {
                let first = args[0];
                expect_container_or_string(first, "contains", errors);
                if (first == Type::Record || first == Type::String) && args.len() > 1 {
                    expect(args[1], Type::String, "contains key", errors);
                }
            }
            Type::Boolean
        },
        Builtin::Get => {
            check_indexable(args, "get", errors);
            Type::Unknown
        },
        Builtin::Put => {
            check_indexable(args, "put", errors);
            if args.len() > 0 { args[0] } else { Type::Unknown }
        },
        Builtin::Push => {
            if args.len() > 0 {
                expect(args[0], Type::List, "push", errors);
            }
            Type::List
        },
        Builtin::Remove => {
            check_indexable(args, "remove", errors);
            if args.len() > 0 { args[0] } else { Type::Unknown }
        },
        Builtin::Random => {
            let mut k: usize = 0;
            while k < args.len()
                invariant
                    k <= args@.len(),
                    issues_of(errors@) + random_issues(args@.subrange(k as int, args@.len() as int)) == after_arity
                        + random_issues(args@),
                decreases args@.len() - k,
            {
                let ghost rest = args@.subrange(k as int, args@.len() as int);
                assert(rest.subrange(1, rest.len() as int) =~= args@.subrange(k + 1, args@.len() as int));
                expect(args[k], Type::Integer, "random", errors);
                k = k + 1;
            }
            Type::Integer
        },
        Builtin::Chance => {
            if args.len() > 0 {
                expect(args[0], Type::Integer, "chance", errors);
            }
            Type::Boolean
        },
    };
    proof {
        let model = infer_builtin_model(function, args@);
        assert(issues_of(errors@) =~= start + model.1);
    }
    result
}


fn constant_boolean_of(expression: &Expr) -> (r: Option<bool>)
    ensures
        r == constant_boolean(*expression),
    decreases expression,
{
    match expression {
        Expr::Spanned { expression, .. } => constant_boolean_of(expression),
        Expr::Value(Value::Boolean(b)) => Some(*b),
        _ => None,
    }
}

fn infer_spanned(span: Span, inner: &Expr, lookup: &TypeLookup, errors: &mut Vec<TypeError>) -> (r: Type)
    requires
        lookup matches TypeLookup::Frame(slots, _) ==> slots.wf(),
    ensures
        r == infer_model(*inner, types_by(*lookup)).0,
        issues_of(final(errors)@) == issues_of(old(errors)@) + attach_span(infer_model(*inner, types_by(*lookup)).1, span),
    decreases inner, 2int,
{
    let ghost start = issues_of(errors@);
    let mut local: Vec<TypeError> = Vec::new();
    let inferred = infer_with(inner, lookup, &mut local);
    let ghost found = infer_model(*inner, types_by(*lookup)).1;
    assert(issues_of(local@) =~= found);
    let mut j: usize = 0;
    while j < local.len()
        invariant
            j <= local@.len(),
            issues_of(local@) == found,
            issues_of(errors@) == start + attach_span(found, span).subrange(0, j as int),
        decreases local@.len() - j,
    {
        let entry_span = if local[j].span.is_none() { Some(span) } else { local[j].span };
        let message = local[j].message.clone();
        errors.push(TypeError { message, span: entry_span });
        proof {
            let ghost before = start + attach_span(found, span).subrange(0, j as int);
            assert(issues_of(local@)[j as int] == issue_of(local@[j as int]));
            assert(found[j as int] == issue_of(local@[j as int]));
            assert(issues_of(errors@) =~= before.push(issue_of(errors@.last())));
            assert(issue_of(errors@.last()) == attach_span(found, span)[j as int]);
            assert(start + attach_span(found, span).subrange(0, j + 1) =~= before.push(
                attach_span(found, span)[j as int],
            ));
        }
        j = j + 1;
    }
    assert(attach_span(found, span).subrange(0, j as int) =~= attach_span(found, span));
    inferred
}

fn infer_arguments_of(arguments: &Vec<Expr>, lookup: &TypeLookup, errors: &mut Vec<TypeError>) -> (r: Vec<Type>)
    requires
        lookup matches TypeLookup::Frame(slots, _) ==> slots.wf(),
    ensures
        r@ == infer_arguments(arguments@, types_by(*lookup)).0,
        issues_of(final(errors)@) == issues_of(old(errors)@) + infer_arguments(arguments@, types_by(*lookup)).1,
    decreases arguments, 0int,
{
    let ghost start = issues_of(errors@);
    let mut types: Vec<Type> = Vec::new();
    let mut i: usize = 0;
    assert(issues_of(errors@) =~= start + Seq::<TypeIssue>::empty());
    while i < arguments.len()
        invariant
            lookup matches TypeLookup::Frame(slots, _) ==> slots.wf(),
            i <= arguments@.len(),
            types@ == infer_arguments(arguments@.subrange(0, i as int), types_by(*lookup)).0,
            issues_of(errors@) == start + infer_arguments(arguments@.subrange(0, i as int), types_by(*lookup)).1,
        decreases arguments@.len() - i,
    {
        proof {
            assert(arguments@.subrange(0, i + 1).subrange(0, i as int) =~= arguments@.subrange(0, i as int));
            assert(arguments@.subrange(0, i + 1)[i as int] == arguments@[i as int]);
        }
        let t = infer_with(&arguments[i], lookup, errors);
        types.push(t);
        proof {
            assert(issues_of(errors@) =~= start + infer_arguments(arguments@.subrange(0, i + 1), types_by(*lookup)).1);
        }
        i = i + 1;
    }
    proof {
        assert(arguments@.subrange(0, arguments@.len() as int) =~= arguments@);
    }
    types
}

fn infer_holes_of(parts: &Vec<StrPart>, lookup: &TypeLookup, errors: &mut Vec<TypeError>)
    requires
        lookup matches TypeLookup::Frame(slots, _) ==> slots.wf(),
    ensures
        issues_of(final(errors)@) == issues_of(old(errors)@) + infer_holes(parts@, types_by(*lookup)),
    decreases parts, 0int,
{
    let ghost start = issues_of(errors@);
    let mut i: usize = 0;
    assert(issues_of(errors@) =~= start + Seq::<TypeIssue>::empty());
    while i < parts.len()
        invariant
            lookup matches TypeLookup::Frame(slots, _) ==> slots.wf(),
            i <= parts@.len(),
            issues_of(errors@) == start + infer_holes(parts@.subrange(0, i as int), types_by(*lookup)),
        decreases parts@.len() - i,
    {
        proof {
            assert(parts@.subrange(0, i + 1).subrange(0, i as int) =~= parts@.subrange(0, i as int));
            assert(parts@.subrange(0, i + 1)[i as int] == parts@[i as int]);
        }
        match &parts[i] {
            StrPart::Hole(expr) => {
                let _ = infer_with(expr, lookup, errors);
                assert(issues_of(errors@) =~= start + infer_holes(parts@.subrange(0, i + 1), types_by(*lookup)));
            },
            StrPart::Literal(_) => {},
        }
        i = i + 1;
    }
    proof {
        assert(parts@.subrange(0, parts@.len() as int) =~= parts@);
    }
}

/// Infers the type of `expression`, appending every provable type error to
/// `errors`.
#[verifier::rlimit(40)]
pub fn infer_with(expression: &Expr, lookup: &TypeLookup, errors: &mut Vec<TypeError>) -> (r: Type)
    requires
        lookup matches TypeLookup::Frame(slots, _) ==> slots.wf(),
    ensures
        r == infer_model(*expression, types_by(*lookup)).0,
        issues_of(final(errors)@) == issues_of(old(errors)@) + infer_model(*expression, types_by(*lookup)).1,
    decreases expression, 1int,
{
    let ghost start = issues_of(errors@);
    match expression {
        Expr::Spanned { span, expression: inner } => infer_spanned(*span, inner, lookup, errors),
        Expr::Value(value) => {
            assert(issues_of(errors@) =~= start + Seq::<TypeIssue>::empty());
            Type::of(value)
        },
        Expr::Variable(name) => {
            assert(issues_of(errors@) =~= start + Seq::<TypeIssue>::empty());
            lookup_variable(lookup, name.as_str())
        },
        Expr::Unary { op, value } => {
            let inner = infer_with(value, lookup, errors);
            match op {
                UnaryOp::Negate => {
                    expect(inner, Type::Integer, "unary `-`", errors);
                    assert(issues_of(errors@) =~= start + infer_model(*expression, types_by(*lookup)).1);
                    Type::Integer
                },
                UnaryOp::Not => {
                    expect(inner, Type::Boolean, "`not`", errors);
                    assert(issues_of(errors@) =~= start + infer_model(*expression, types_by(*lookup)).1);
                    Type::Boolean
                },
            }
        },
        Expr::Binary { left, op, right } => {
            let l = infer_with(left, lookup, errors);
            let constant = constant_boolean_of(left);
            let short = (*op == BinaryOp::And && constant == Some(false)) || (*op == BinaryOp::Or
                && constant == Some(true));
            let ghost after_left = issues_of(errors@);
            let r = if short {
                assert(issues_of(errors@) =~= after_left + Seq::<TypeIssue>::empty());
                Type::Boolean
            } else {
                infer_with(right, lookup, errors)
            };
            let t = infer_binary(*op, l, r, errors);
            assert(issues_of(errors@) =~= start + infer_model(*expression, types_by(*lookup)).1);
            t
        },
        Expr::Invoke { function, arguments } => {
            let types = infer_arguments_of(arguments, lookup, errors);
            let t = infer_builtin(*function, &types, errors);
            assert(issues_of(errors@) =~= start + infer_model(*expression, types_by(*lookup)).1);
            t
        },
        Expr::Interpolate { parts } => {
            infer_holes_of(parts, lookup, errors);
            Type::String
        },
    }
}

/// Infers the type of `expression` in `env`, appending provable type errors
/// to `errors`. Always returns a best-effort type so checking continues past
/// an error.
pub fn infer(expression: &Expr, env: &Environment, errors: &mut Vec<TypeError>) -> (r: Type)
    ensures
        r == infer_model(*expression, types_by(TypeLookup::Names(env))).0,
        issues_of(final(errors)@) == issues_of(old(errors)@) + infer_model(*expression, types_by(TypeLookup::Names(env))).1,
{
    infer_with(expression, &TypeLookup::Names(env), errors)
}

/// Inference reports a problem with a binary operator only when the operator
/// cannot succeed: whenever some operands whose types fit the inferred
/// operand types combine without error (two integers or two strings
/// compared, two integers added, two booleans joined, ...), inference
/// reports nothing for the operator.
pub proof fn binary_inference_rejects_only_failing_operands(op: BinaryOp, l: Type, r: Type, a: Datum, b: Datum)
    requires
        compatible(type_of(a), l),
        compatible(type_of(b), r),
        binary_result(a, op, b) is Ok,
    ensures
        infer_binary_model(op, l, r).1.len() == 0,
{
}

/// Inference reports a problem with a unary operator only when the operator
/// cannot succeed on any operand whose type fits.
pub proof fn unary_inference_rejects_only_failing_operands(op: UnaryOp, t: Type, a: Datum)
    requires
        compatible(type_of(a), t),
        crate::eval::unary_result(op, a) is Ok,
    ensures
        match op {
            UnaryOp::Negate => expect_issues(t, Type::Integer, "unary `-`"@).len() == 0,
            UnaryOp::Not => expect_issues(t, Type::Boolean, "`not`"@).len() == 0,
        },
{
}

/// A comparison of two values of one orderable type, integers or strings,
/// always type-checks, whatever the comparison.
pub proof fn comparisons_of_like_orderable_types_check(op: BinaryOp, t: Type)
    requires
        op == BinaryOp::Less || op == BinaryOp::LessEqual || op == BinaryOp::Greater || op == BinaryOp::GreaterEqual,
        t == Type::Integer || t == Type::String || t == Type::Unknown,
    ensures
        infer_binary_model(op, t, t) == (Type::Boolean, Seq::<TypeIssue>::empty()),
{
}

} // verus!
