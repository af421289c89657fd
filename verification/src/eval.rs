//! The tree-walking expression evaluator: the reference semantics of Velin
//! expressions.

use crate::builtins::{
    builtin_result, invoke, invoke_random, needs_rng_message, random_result, slice_views,
};
use crate::syntax::{EvalError, Expr, StrPart, Variables};
use crate::text::{lemma_utf8_len_concat, text_is_less, text_less, utf8_len};
use crate::value::{
    budget_error, display, kind_name, lemma_view_items, text_budget_message, values_equal,
    view_items, within_budget, BinaryOp, Builtin, Datum, UnaryOp, Value, MAX_DATA_TEXT_BYTES,
};
use vstd::prelude::*;
use vstd::string::*;

verus! {

/// `operation expects expected, found <type>`.
pub open spec fn expects_message(operation: Seq<char>, expected: Seq<char>, found: Datum) -> Seq<char> {
    operation + " expects "@ + expected + ", found "@ + kind_name(found)
}

/// `operation cannot combine <type> and <type>`.
pub open spec fn combine_message(operation: Seq<char>, left: Datum, right: Datum) -> Seq<char> {
    operation + " cannot combine "@ + kind_name(left) + " and "@ + kind_name(right)
}

pub open spec fn overflow_message() -> Seq<char> {
    "integer overflow"@
}

pub open spec fn division_by_zero_message() -> Seq<char> {
    "division by zero"@
}

/// The message for reading a variable that has no binding.
pub open spec fn unassigned_message(name: Seq<char>) -> Seq<char> {
    "variable `"@ + name + "` has not been assigned on this path"@
}

/// Integer quotient rounded toward zero.
pub open spec fn truncated_quotient(x: int, d: int) -> int {
    if x == 0 {
        0
    } else if x > 0 && d > 0 {
        x / d
    } else if x < 0 && d < 0 {
        (x * -1) / (d * -1)
    } else if x < 0 {
        ((x * -1) / d) * -1
    } else {
        (x / (d * -1)) * -1
    }
}

pub open spec fn in_i64(n: int) -> bool {
    i64::MIN <= n <= i64::MAX
}

/// An integer result, or overflow.
pub open spec fn checked_integer(n: int) -> Result<Datum, Seq<char>> {
    if in_i64(n) {
        Ok(Datum::Integer(n))
    } else {
        Err(overflow_message())
    }
}

/// What a unary operator gives for an evaluated operand.
pub open spec fn unary_result(op: UnaryOp, operand: Datum) -> Result<Datum, Seq<char>> {
    match (op, operand) {
        (UnaryOp::Negate, Datum::Integer(n)) => checked_integer(-n),
        (UnaryOp::Not, Datum::Boolean(b)) => Ok(Datum::Boolean(!b)),
        (UnaryOp::Negate, _) => Err(expects_message("unary `-`"@, "integer"@, operand)),
        (UnaryOp::Not, _) => Err(expects_message("`not`"@, "boolean"@, operand)),
    }
}

/// What a binary operator gives for evaluated operands (without the
/// short-circuit of `and`/`or`, which the evaluator applies first).
pub open spec fn binary_result(left: Datum, op: BinaryOp, right: Datum) -> Result<Datum, Seq<char>> {
    match op {
        BinaryOp::Add => match (left, right) {
            (Datum::Integer(a), Datum::Integer(b)) => checked_integer(a + b),
            (Datum::Text(a), Datum::Text(b)) => if utf8_len(a) + utf8_len(b) > MAX_DATA_TEXT_BYTES {
                Err(text_budget_message())
            } else {
                Ok(Datum::Text(a + b))
            },
            _ => Err(combine_message("`+`"@, left, right)),
        },
        BinaryOp::Subtract | BinaryOp::Multiply | BinaryOp::Divide => match (left, right) {
            (Datum::Integer(a), Datum::Integer(b)) => match op {
                BinaryOp::Subtract => checked_integer(a - b),
                BinaryOp::Multiply => checked_integer(a * b),
                _ => if b == 0 {
                    Err(division_by_zero_message())
                } else {
                    checked_integer(truncated_quotient(a, b))
                },
            },
            _ => Err(combine_message("arithmetic"@, left, right)),
        },
        BinaryOp::Equal => Ok(Datum::Boolean(left == right)),
        BinaryOp::NotEqual => Ok(Datum::Boolean(left != right)),
        BinaryOp::Less | BinaryOp::LessEqual | BinaryOp::Greater | BinaryOp::GreaterEqual => {
            let ordering: Option<(bool, bool)> = match (left, right) {
                (Datum::Integer(a), Datum::Integer(b)) => Some((a < b, a == b)),
                (Datum::Text(a), Datum::Text(b)) => Some((text_less(a, b), a == b)),
                _ => None,
            };
            match ordering {
                None => Err(combine_message("comparison"@, left, right)),
                Some((less, equal)) => Ok(
                    Datum::Boolean(
                        match op {
                            BinaryOp::Less => less,
                            BinaryOp::LessEqual => less || equal,
                            BinaryOp::Greater => !less && !equal,
                            _ => !less,
                        },
                    ),
                ),
            }
        },
        BinaryOp::And | BinaryOp::Or => match (left, right) {
            (Datum::Boolean(a), Datum::Boolean(b)) => Ok(
                Datum::Boolean(
                    if op == BinaryOp::And {
                        a && b
                    } else {
                        a || b
                    },
                ),
            ),
            _ => Err(combine_message("boolean operation"@, left, right)),
        },
    }
}

/// Appends `piece` to `text` unless the result exceeds the text budget.
pub open spec fn append_checked(text: Seq<char>, piece: Seq<char>) -> Result<Seq<char>, Seq<char>> {
    if utf8_len(text) + utf8_len(piece) > MAX_DATA_TEXT_BYTES {
        Err(text_budget_message())
    } else {
        Ok(text + piece)
    }
}

/// Evaluation of an expression: the result and the random state left
/// behind. `rng` is `None` when no random state is threaded.
pub open spec fn eval_expr(e: Expr, vars: Variables, rng: Option<i64>) -> (Result<Datum, Seq<char>>, Option<i64>)
    decreases e, 2int,
{
    match e {
        Expr::Spanned { expression, .. } => eval_expr(*expression, vars, rng),
        Expr::Value(v) => (Ok(v@), rng),
        Expr::Variable(name) => match vars.lookup(name@) {
            Some(d) => (Ok(d), rng),
            None => (Err(unassigned_message(name@)), rng),
        },
        Expr::Unary { op, value } => {
            let (r, s) = eval_expr(*value, vars, rng);
            match r {
                Ok(d) => (unary_result(op, d), s),
                Err(m) => (Err(m), s),
            }
        },
        Expr::Binary { left, op, right } => {
            let (l, s1) = eval_expr(*left, vars, rng);
            match l {
                Err(m) => (Err(m), s1),
                Ok(ld) => if op == BinaryOp::And && ld == Datum::Boolean(false) {
                    (Ok(Datum::Boolean(false)), s1)
                } else if op == BinaryOp::Or && ld == Datum::Boolean(true) {
                    (Ok(Datum::Boolean(true)), s1)
                } else {
                    let (r, s2) = eval_expr(*right, vars, s1);
                    match r {
                        Err(m) => (Err(m), s2),
                        Ok(rd) => (binary_result(ld, op, rd), s2),
                    }
                },
            }
        },
        Expr::Invoke { function, arguments } => {
            let (a, s) = eval_args(arguments@, vars, rng);
            match a {
                Err(m) => (Err(m), s),
                Ok(ds) => if function == Builtin::Random || function == Builtin::Chance {
                    match s {
                        None => (Err(needs_rng_message()), s),
                        Some(state) => {
                            let (r, next) = random_result(function, ds, state);
                            (r, Some(next))
                        },
                    }
                } else {
                    (builtin_result(function, ds), s)
                },
            }
        },
        Expr::Interpolate { parts } => {
            let (t, s) = eval_parts(parts@, vars, rng);
            match t {
                Ok(text) => (Ok(Datum::Text(text)), s),
                Err(m) => (Err(m), s),
            }
        },
    }
}

/// Left-to-right evaluation of call arguments.
pub open spec fn eval_args(args: Seq<Expr>, vars: Variables, rng: Option<i64>) -> (Result<Seq<Datum>, Seq<char>>, Option<i64>)
    decreases args, 1int,
{
    if args.len() == 0 {
        (Ok(Seq::empty()), rng)
    } else {
        let (p, s) = eval_args(args.subrange(0, args.len() - 1), vars, rng);
        match p {
            Err(m) => (Err(m), s),
            Ok(ds) => {
                let (r, s2) = eval_expr(args[args.len() - 1], vars, s);
                match r {
                    Err(m) => (Err(m), s2),
                    Ok(d) => (Ok(ds.push(d)), s2),
                }
            },
        }
    }
}

/// Left-to-right rendering of interpolation parts.
pub open spec fn eval_parts(parts: Seq<StrPart>, vars: Variables, rng: Option<i64>) -> (Result<Seq<char>, Seq<char>>, Option<i64>)
    decreases parts, 1int,
{
    if parts.len() == 0 {
        (Ok(Seq::empty()), rng)
    } else {
        let (p, s) = eval_parts(parts.subrange(0, parts.len() - 1), vars, rng);
        match p {
            Err(m) => (Err(m), s),
            Ok(text) => match parts[parts.len() - 1] {
                StrPart::Literal(literal) => (append_checked(text, literal@), s),
                StrPart::Hole(expr) => {
                    let (r, s2) = eval_expr(*expr, vars, s);
                    match r {
                        Err(m) => (Err(m), s2),
                        Ok(d) => if utf8_len(display(d)) > MAX_DATA_TEXT_BYTES {
                            (Err(text_budget_message()), s2)
                        } else {
                            (append_checked(text, display(d)), s2)
                        },
                    }
                },
            },
        }
    }
}

/// The final result check: a value over the data budget is an error.
pub open spec fn checked_result(r: Result<Datum, Seq<char>>) -> Result<Datum, Seq<char>> {
    match r {
        Ok(d) => if within_budget(d) {
            Ok(d)
        } else {
            Err(budget_error(d))
        },
        Err(m) => Err(m),
    }
}

/// What `evaluate` returns for `e` against `vars`.
pub open spec fn evaluation(e: Expr, vars: Variables) -> Result<Datum, Seq<char>> {
    checked_result(eval_expr(e, vars, None).0)
}

// ---------------------------------------------------------------------------
// Executable evaluator
// ---------------------------------------------------------------------------

fn append_str(out: &mut String, piece: &str)
    ensures
        final(out)@ == old(out)@ + piece@,
{
    out.append(piece);
}

fn expects_error(line: usize, operation: &str, expected: &str, found: &Value) -> (r: EvalError)
    ensures
        r.line == line,
        r.message@ == expects_message(operation@, expected@, found@),
{
    let mut message = String::from_str(operation);
    append_str(&mut message, " expects ");
    append_str(&mut message, expected);
    append_str(&mut message, ", found ");
    append_str(&mut message, found.kind_name());
    EvalError { line, message }
}

fn combine_error(line: usize, operation: &str, left: &Value, right: &Value) -> (r: EvalError)
    ensures
        r.line == line,
        r.message@ == combine_message(operation@, left@, right@),
{
    let mut message = String::from_str(operation);
    append_str(&mut message, " cannot combine ");
    append_str(&mut message, left.kind_name());
    append_str(&mut message, " and ");
    append_str(&mut message, right.kind_name());
    EvalError { line, message }
}

/// The error for reading a variable that was never assigned on the current
/// path.
pub fn unassigned(line: usize, name: &str) -> (r: EvalError)
    ensures
        r.line == line,
        r.message@ == unassigned_message(name@),
{
    let mut message = String::from_str("variable `");
    append_str(&mut message, name);
    append_str(&mut message, "` has not been assigned on this path");
    EvalError { line, message }
}

/// Applies a unary operator to an evaluated operand.
pub fn apply_unary(op: UnaryOp, value: Value, line: usize) -> (r: Result<Value, EvalError>)
    ensures
        r matches Ok(v) ==> unary_result(op, value@) == Ok::<Datum, Seq<char>>(v@),
        r matches Err(e) ==> e.line == line && unary_result(op, value@) == Err::<Datum, Seq<char>>(
            e.message@,
        ),
{
    match (op, &value) {
        (UnaryOp::Negate, Value::Integer(n)) => {
            if *n == i64::MIN {
                Err(EvalError::new(line, "integer overflow"))
            } else {
                Ok(Value::Integer(-*n))
            }
        },
        (UnaryOp::Not, Value::Boolean(b)) => Ok(Value::Boolean(!*b)),
        (UnaryOp::Negate, _) => Err(expects_error(line, "unary `-`", "integer", &value)),
        (UnaryOp::Not, _) => Err(expects_error(line, "`not`", "boolean", &value)),
    }
}

fn integer_result(n: Option<i64>, exact: Ghost<int>, line: usize) -> (r: Result<Value, EvalError>)
    requires
        n matches Some(v) ==> v == exact@,
        n is None ==> !in_i64(exact@),
    ensures
        r matches Ok(v) ==> checked_integer(exact@) == Ok::<Datum, Seq<char>>(v@),
        r matches Err(e) ==> e.line == line && checked_integer(exact@) == Err::<Datum, Seq<char>>(
            e.message@,
        ),
{
    match n {
        Some(v) => Ok(Value::Integer(v)),
        None => Err(EvalError::new(line, "integer overflow")),
    }
}

/// Applies a binary operator to evaluated operands. Callers apply the
/// short-circuit of `and`/`or` before calling this.
pub fn apply_binary(left: Value, op: BinaryOp, right: Value, line: usize) -> (r: Result<Value, EvalError>)
    ensures
        r matches Ok(v) ==> binary_result(left@, op, right@) == Ok::<Datum, Seq<char>>(v@),
        r matches Err(e) ==> e.line == line && binary_result(left@, op, right@) == Err::<
            Datum,
            Seq<char>,
        >(e.message@),
{
    match op {
        BinaryOp::Add => match (&left, &right) {
            (Value::Integer(a), Value::Integer(b)) => integer_result(
                a.checked_add(*b),
                Ghost(*a as int + *b as int),
                line,
            ),
            (Value::String(a), Value::String(b)) => {
                let used = a.as_str().as_bytes().len();
                let extra = b.as_str().as_bytes().len();
                if used > MAX_DATA_TEXT_BYTES || extra > MAX_DATA_TEXT_BYTES - used {
                    return Err(EvalError::new(line, "data text exceeds 1 MiB"));
                }
                let mut joined = a.clone();
                append_str(&mut joined, b.as_str());
                Ok(Value::String(joined))
            },
            _ => Err(combine_error(line, "`+`", &left, &right)),
        },
        BinaryOp::Subtract | BinaryOp::Multiply | BinaryOp::Divide => match (&left, &right) {
            (Value::Integer(a), Value::Integer(b)) => match op {
                BinaryOp::Subtract => integer_result(
                    a.checked_sub(*b),
                    Ghost(*a as int - *b as int),
                    line,
                ),
                BinaryOp::Multiply => integer_result(
                    a.checked_mul(*b),
                    Ghost(*a as int * *b as int),
                    line,
                ),
                _ => {
                    if *b == 0 {
                        return Err(EvalError::new(line, "division by zero"));
                    }
                    integer_result(
                        a.checked_div(*b),
                        Ghost(truncated_quotient(*a as int, *b as int)),
                        line,
                    )
                },
            },
            _ => Err(combine_error(line, "arithmetic", &left, &right)),
        },
        BinaryOp::Equal => Ok(Value::Boolean(values_equal(&left, &right))),
        BinaryOp::NotEqual => Ok(Value::Boolean(!values_equal(&left, &right))),
        BinaryOp::Less | BinaryOp::LessEqual | BinaryOp::Greater | BinaryOp::GreaterEqual => {
            let (less, equal) = match (&left, &right) {
                (Value::Integer(a), Value::Integer(b)) => (*a < *b, *a == *b),
                (Value::String(a), Value::String(b)) => (
                    text_is_less(a.as_str(), b.as_str()),
                    *a == *b,
                ),
                _ => return Err(combine_error(line, "comparison", &left, &right)),
            };
            let result = match op {
                BinaryOp::Less => less,
                BinaryOp::LessEqual => less || equal,
                BinaryOp::Greater => !less && !equal,
                _ => !less,
            };
            Ok(Value::Boolean(result))
        },
        BinaryOp::And | BinaryOp::Or => match (&left, &right) {
            (Value::Boolean(a), Value::Boolean(b)) => {
                Ok(
                    Value::Boolean(
                        if op == BinaryOp::And {
                            *a && *b
                        } else {
                            *a || *b
                        },
                    ),
                )
            },
            _ => Err(combine_error(line, "boolean operation", &left, &right)),
        },
    }
}

/// Appends `text` to `output` unless the result exceeds the text budget.
fn append_text(output: &mut String, text: &str, line: usize) -> (r: Result<(), EvalError>)
    ensures
        r is Ok ==> append_checked(old(output)@, text@) == Ok::<Seq<char>, Seq<char>>(final(output)@),
        r matches Err(e) ==> e.line == line && append_checked(old(output)@, text@) == Err::<
            Seq<char>,
            Seq<char>,
        >(e.message@),
{
    let used = output.as_str().as_bytes().len();
    let extra = text.as_bytes().len();
    if used > MAX_DATA_TEXT_BYTES || extra > MAX_DATA_TEXT_BYTES - used {
        return Err(EvalError::new(line, "data text exceeds 1 MiB"));
    }
    append_str(output, text);
    Ok(())
}

#[verifier::loop_isolation(false)]
fn evaluate_inner(expression: &Expr, variables: &Variables, rng: &mut Option<i64>, line: usize) -> (r: Result<Value, EvalError>)
    ensures
        ({
            let (expected, next) = eval_expr(*expression, *variables, *old(rng));
            &&& *final(rng) == next
            &&& r matches Ok(v) ==> expected == Ok::<Datum, Seq<char>>(v@)
            &&& r matches Err(e) ==> e.line == line && expected == Err::<Datum, Seq<char>>(e.message@)
        }),
    decreases expression,
{
    match expression {
        Expr::Spanned { expression, .. } => evaluate_inner(expression, variables, rng, line),
        Expr::Invoke { function, arguments } => {
            let mut values: Vec<Value> = Vec::new();
            let mut i: usize = 0;
            while i < arguments.len()
                invariant
                    i <= arguments@.len(),
                    ({
                        let (expected, next) = eval_args(arguments@.subrange(0, i as int), *variables, *old(rng));
                        &&& *rng == next
                        &&& expected == Ok::<Seq<Datum>, Seq<char>>(view_items(values@))
                    }),
                decreases arguments@.len() - i,
            {
                proof {
                    assert(arguments@.subrange(0, i + 1).subrange(0, i as int) =~= arguments@.subrange(0, i as int));
                    assert(arguments@.subrange(0, i + 1)[i as int] == arguments@[i as int]);
                }
                let value = evaluate_inner(&arguments[i], variables, rng, line);
                match value {
                    Ok(v) => {
                        let ghost before = values@;
                        values.push(v);
                        assert(values@.subrange(0, values@.len() - 1) =~= before);
                    },
                    Err(e) => {
                        proof {
                            lemma_eval_args_error(arguments@, i as nat, *variables, *old(rng));
                        }
                        return Err(e);
                    },
                }
                i = i + 1;
            }
            proof {
                assert(arguments@.subrange(0, arguments@.len() as int) =~= arguments@);
                lemma_view_items(values@);
                assert(slice_views(values@) =~= view_items(values@));
            }
            if *function == Builtin::Random || *function == Builtin::Chance {
                match rng {
                    Some(state) => invoke_random(*function, values.as_slice(), state, line),
                    None => Err(EvalError::new(line, "random functions require a threaded RNG state")),
                }
            } else {
                invoke(*function, values, line)
            }
        },
        Expr::Value(value) => Ok(value.duplicate()),
        Expr::Variable(name) => match variables.get(name.as_str()) {
            Some(value) => Ok(value.duplicate()),
            None => Err(unassigned(line, name.as_str())),
        },
        Expr::Unary { op, value } => {
            let operand = evaluate_inner(value, variables, rng, line)?;
            apply_unary(*op, operand, line)
        },
        Expr::Binary { left, op, right } => {
            let left_value = evaluate_inner(left, variables, rng, line)?;
            if *op == BinaryOp::And {
                if let Value::Boolean(false) = left_value {
                    return Ok(Value::Boolean(false));
                }
            }
            if *op == BinaryOp::Or {
                if let Value::Boolean(true) = left_value {
                    return Ok(Value::Boolean(true));
                }
            }
            let right_value = evaluate_inner(right, variables, rng, line)?;
            apply_binary(left_value, *op, right_value, line)
        },
        Expr::Interpolate { parts } => {
            let mut text = String::new();
            let mut i: usize = 0;
            while i < parts.len()
                invariant
                    i <= parts@.len(),
                    ({
                        let (expected, next) = eval_parts(parts@.subrange(0, i as int), *variables, *old(rng));
                        &&& *rng == next
                        &&& expected == Ok::<Seq<char>, Seq<char>>(text@)
                    }),
                decreases parts@.len() - i,
            {
                proof {
                    assert(parts@.subrange(0, i + 1).subrange(0, i as int) =~= parts@.subrange(0, i as int));
                    assert(parts@.subrange(0, i + 1)[i as int] == parts@[i as int]);
                }
                match &parts[i] {
                    StrPart::Literal(literal) => {
                        let appended = append_text(&mut text, literal.as_str(), line);
                        if let Err(e) = appended {
                            proof {
                                lemma_eval_parts_error(parts@, i as nat, *variables, *old(rng));
                            }
                            return Err(e);
                        }
                    },
                    StrPart::Hole(expr) => {
                        let value = match evaluate_inner(expr, variables, rng, line) {
                            Ok(v) => v,
                            Err(e) => {
                                proof {
                                    lemma_eval_parts_error(parts@, i as nat, *variables, *old(rng));
                                }
                                return Err(e);
                            },
                        };
                        let rendered = match value.try_to_display() {
                            Ok(s) => s,
                            Err(message) => {
                                proof {
                                    lemma_eval_parts_error(parts@, i as nat, *variables, *old(rng));
                                }
                                return Err(EvalError::new(line, message));
                            },
                        };
                        let appended = append_text(&mut text, rendered.as_str(), line);
                        if let Err(e) = appended {
                            proof {
                                lemma_eval_parts_error(parts@, i as nat, *variables, *old(rng));
                            }
                            return Err(e);
                        }
                    },
                }
                i = i + 1;
            }
            proof {
                assert(parts@.subrange(0, parts@.len() as int) =~= parts@);
            }
            Ok(Value::String(text))
        },
    }
}

/// An error in an argument is the error of the whole argument list.
proof fn lemma_eval_args_error(args: Seq<Expr>, i: nat, vars: Variables, rng: Option<i64>)
    requires
        i < args.len(),
        eval_args(args.subrange(0, i as int + 1), vars, rng).0 is Err,
    ensures
        eval_args(args, vars, rng) == eval_args(args.subrange(0, i as int + 1), vars, rng),
    decreases args.len() - i,
{
    if i + 1 < args.len() {
        let next = args.subrange(0, i as int + 2);
        assert(next.subrange(0, next.len() - 1) =~= args.subrange(0, i as int + 1));
        assert(eval_args(next, vars, rng) == eval_args(args.subrange(0, i as int + 1), vars, rng));
        lemma_eval_args_error(args, i + 1, vars, rng);
    } else {
        assert(args.subrange(0, i as int + 1) =~= args);
    }
}

/// An error in a part is the error of the whole interpolation.
proof fn lemma_eval_parts_error(parts: Seq<StrPart>, i: nat, vars: Variables, rng: Option<i64>)
    requires
        i < parts.len(),
        eval_parts(parts.subrange(0, i as int + 1), vars, rng).0 is Err,
    ensures
        eval_parts(parts, vars, rng) == eval_parts(parts.subrange(0, i as int + 1), vars, rng),
    decreases parts.len() - i,
{
    if i + 1 < parts.len() {
        let next = parts.subrange(0, i as int + 2);
        assert(next.subrange(0, next.len() - 1) =~= parts.subrange(0, i as int + 1));
        assert(eval_parts(next, vars, rng) == eval_parts(parts.subrange(0, i as int + 1), vars, rng));
        lemma_eval_parts_error(parts, i + 1, vars, rng);
    } else {
        assert(parts.subrange(0, i as int + 1) =~= parts);
    }
}

fn validate_result(value: Value, line: usize) -> (r: Result<Value, EvalError>)
    ensures
        r matches Ok(v) ==> v@ == value@ && within_budget(value@),
        r matches Err(e) ==> e.line == line && !within_budget(value@) && e.message@ == budget_error(
            value@,
        ),
{
    match value.validate_data() {
        Ok(()) => Ok(value),
        Err(message) => Err(EvalError::new(line, message)),
    }
}

/// Evaluates `expression` against `variables`. `line` is used for error
/// reports only.
pub fn evaluate(expression: &Expr, variables: &Variables, line: usize) -> (r: Result<Value, EvalError>)
    ensures
        r matches Ok(v) ==> evaluation(*expression, *variables) == Ok::<Datum, Seq<char>>(v@),
        r matches Err(e) ==> e.line == line && evaluation(*expression, *variables) == Err::<
            Datum,
            Seq<char>,
        >(e.message@),
{
    let mut rng: Option<i64> = None;
    let value = evaluate_inner(expression, variables, &mut rng, line)?;
    validate_result(value, line)
}

/// Evaluates `expression` while threading the deterministic random state:
/// replaying from the same state gives the same value and final state.
pub fn evaluate_with_rng(expression: &Expr, variables: &Variables, state: &mut i64, line: usize) -> (r: Result<Value, EvalError>)
    ensures
        ({
            let (expected, next) = eval_expr(*expression, *variables, Some(*old(state)));
            &&& next == Some(*final(state))
            &&& r matches Ok(v) ==> checked_result(expected) == Ok::<Datum, Seq<char>>(v@)
            &&& r matches Err(e) ==> e.line == line && checked_result(expected) == Err::<Datum, Seq<char>>(
                e.message@,
            )
        }),
{
    let mut rng: Option<i64> = Some(*state);
    let outcome = evaluate_inner(expression, variables, &mut rng, line);
    proof {
        lemma_eval_keeps_state(*expression, *variables, *old(state));
    }
    match rng {
        Some(s) => {
            *state = s;
        },
        None => {},
    }
    let value = outcome?;
    validate_result(value, line)
}

/// Evaluation with a threaded state always leaves a state behind.
pub proof fn lemma_eval_keeps_state(e: Expr, vars: Variables, state: i64)
    ensures
        eval_expr(e, vars, Some(state)).1 is Some,
{
    lemma_expr_keeps_state(e, vars, Some(state));
}

proof fn lemma_expr_keeps_state(e: Expr, vars: Variables, rng: Option<i64>)
    ensures
        rng is Some ==> eval_expr(e, vars, rng).1 is Some,
    decreases e, 2int,
{
    match e {
        Expr::Spanned { expression, .. } => lemma_expr_keeps_state(*expression, vars, rng),
        Expr::Unary { value, .. } => lemma_expr_keeps_state(*value, vars, rng),
        Expr::Binary { left, right, .. } => {
            lemma_expr_keeps_state(*left, vars, rng);
            let s1 = eval_expr(*left, vars, rng).1;
            lemma_expr_keeps_state(*right, vars, s1);
        },
        Expr::Invoke { arguments, .. } => lemma_args_keep_state(arguments@, vars, rng),
        Expr::Interpolate { parts } => lemma_parts_keep_state(parts@, vars, rng),
        _ => {},
    }
}

proof fn lemma_args_keep_state(args: Seq<Expr>, vars: Variables, rng: Option<i64>)
    ensures
        rng is Some ==> eval_args(args, vars, rng).1 is Some,
    decreases args, 1int,
{
    if args.len() > 0 {
        let prefix = args.subrange(0, args.len() - 1);
        lemma_args_keep_state(prefix, vars, rng);
        let s = eval_args(prefix, vars, rng).1;
        lemma_expr_keeps_state(args[args.len() - 1], vars, s);
    }
}

proof fn lemma_parts_keep_state(parts: Seq<StrPart>, vars: Variables, rng: Option<i64>)
    ensures
        rng is Some ==> eval_parts(parts, vars, rng).1 is Some,
    decreases parts, 1int,
{
    if parts.len() > 0 {
        let prefix = parts.subrange(0, parts.len() - 1);
        lemma_parts_keep_state(prefix, vars, rng);
        let s = eval_parts(prefix, vars, rng).1;
        match parts[parts.len() - 1] {
            StrPart::Hole(expr) => lemma_expr_keeps_state(*expr, vars, s),
            _ => {},
        }
    }
}

/// Whether comparing `a` with `b` by `op` gives the boolean `answer`.
pub open spec fn compares(a: Datum, op: BinaryOp, b: Datum, answer: bool) -> bool {
    binary_result(a, op, b) == Ok::<Datum, Seq<char>>(Datum::Boolean(answer))
}

/// Comparisons follow the order of the numbers: for integers `x` and `y`,
/// `x < y`, `x <= y`, `x > y` and `x >= y` give exactly the mathematical
/// answers, so in particular `x <= x` and `x >= x` hold and `x < x` does not.
pub proof fn integer_comparisons_follow_the_number_order(x: int, y: int)
    ensures
        compares(Datum::Integer(x), BinaryOp::Less, Datum::Integer(y), x < y),
        compares(Datum::Integer(x), BinaryOp::LessEqual, Datum::Integer(y), x <= y),
        compares(Datum::Integer(x), BinaryOp::Greater, Datum::Integer(y), x > y),
        compares(Datum::Integer(x), BinaryOp::GreaterEqual, Datum::Integer(y), x >= y),
        compares(Datum::Integer(x), BinaryOp::Equal, Datum::Integer(y), x == y),
        compares(Datum::Integer(x), BinaryOp::NotEqual, Datum::Integer(y), x != y),
{
}

/// Text comparison is a total order: exactly one of `a < b`, `a == b` and
/// `b < a` holds; `<` is transitive; `a <= b` holds exactly when `a < b` or
/// the texts are equal; `a > b` is `b < a` and `a >= b` is `b <= a`.
pub proof fn text_comparisons_form_a_total_order(a: Seq<char>, b: Seq<char>, c: Seq<char>)
    ensures
        ({
            let lt = binary_result(Datum::Text(a), BinaryOp::Less, Datum::Text(b));
            let rev = binary_result(Datum::Text(b), BinaryOp::Less, Datum::Text(a));
            &&& lt is Ok && rev is Ok
            &&& (lt == Ok::<Datum, Seq<char>>(Datum::Boolean(true))) as int + (a == b) as int + (rev == Ok::<
                Datum,
                Seq<char>,
            >(Datum::Boolean(true))) as int == 1
            &&& compares(Datum::Text(a), BinaryOp::LessEqual, Datum::Text(b), lt == Ok::<Datum, Seq<char>>(Datum::Boolean(true)) || a == b)
            &&& binary_result(Datum::Text(a), BinaryOp::Greater, Datum::Text(b)) == rev
            &&& binary_result(Datum::Text(a), BinaryOp::GreaterEqual, Datum::Text(b)) == binary_result(
                Datum::Text(b),
                BinaryOp::LessEqual,
                Datum::Text(a),
            )
        }),
        compares(Datum::Text(a), BinaryOp::LessEqual, Datum::Text(a), true),
        compares(Datum::Text(a), BinaryOp::Less, Datum::Text(a), false),
        compares(Datum::Text(a), BinaryOp::Less, Datum::Text(b), true) && compares(
            Datum::Text(b),
            BinaryOp::Less,
            Datum::Text(c),
            true,
        ) ==> compares(Datum::Text(a), BinaryOp::Less, Datum::Text(c), true),
{
    crate::text::lemma_text_less_irreflexive(a);
    crate::text::lemma_text_less_asymmetric(a, b);
    crate::text::lemma_text_less_total(a, b);
    crate::text::lemma_text_less_transitive(a, b, c);
}

/// Text order is dictionary order by character code: a proper prefix comes
/// before the longer text, and after a common prefix the first differing
/// character decides.
pub proof fn text_order_is_dictionary_order(prefix: Seq<char>, x: char, y: char, s: Seq<char>, t: Seq<char>)
    ensures
        t.len() > 0 ==> compares(Datum::Text(prefix), BinaryOp::Less, Datum::Text(prefix + t), true),
        (x as u32) < (y as u32) ==> compares(
            Datum::Text(prefix + seq![x] + s),
            BinaryOp::Less,
            Datum::Text(prefix + seq![y] + t),
            true,
        ),
    decreases prefix.len(),
{
    if prefix.len() > 0 {
        text_order_is_dictionary_order(prefix.drop_first(), x, y, s, t);
        assert((prefix + t).drop_first() =~= prefix.drop_first() + t);
        assert((prefix + seq![x] + s).drop_first() =~= prefix.drop_first() + seq![x] + s);
        assert((prefix + seq![y] + t).drop_first() =~= prefix.drop_first() + seq![y] + t);
        if t.len() > 0 {
            crate::text::lemma_text_less_irreflexive(prefix.drop_first());
        }
    } else {
        assert(prefix + t =~= t);
        assert(prefix + seq![x] + s =~= seq![x] + s);
        assert(prefix + seq![y] + t =~= seq![y] + t);
        if (x as u32) < (y as u32) {
            assert(x != y);
        }
    }
}

/// Integer arithmetic is exact or fails: `+`, `-` and `*` give the
/// mathematical result when it fits in 64 bits and an error otherwise;
/// division by zero fails; otherwise the quotient `q` rounds toward zero, so
/// `x = q * y + r` with `|r| < |y|` and `r` zero or of the sign of `x`.
pub proof fn integer_arithmetic_is_exact(x: int, y: int)
    ensures
        binary_result(Datum::Integer(x), BinaryOp::Add, Datum::Integer(y)) == (if in_i64(x + y) {
            Ok::<Datum, Seq<char>>(Datum::Integer(x + y))
        } else {
            Err(overflow_message())
        }),
        binary_result(Datum::Integer(x), BinaryOp::Subtract, Datum::Integer(y)) == (if in_i64(x - y) {
            Ok::<Datum, Seq<char>>(Datum::Integer(x - y))
        } else {
            Err(overflow_message())
        }),
        binary_result(Datum::Integer(x), BinaryOp::Multiply, Datum::Integer(y)) == (if in_i64(x * y) {
            Ok::<Datum, Seq<char>>(Datum::Integer(x * y))
        } else {
            Err(overflow_message())
        }),
        y == 0 ==> binary_result(Datum::Integer(x), BinaryOp::Divide, Datum::Integer(y)) is Err,
        y != 0 ==> ({
            let q = truncated_quotient(x, y);
            let r = x - q * y;
            &&& (if y > 0 { r < y && -y < r } else { r < -y && y < r })
            &&& (x >= 0 ==> r >= 0)
            &&& (x <= 0 ==> r <= 0)
            &&& binary_result(Datum::Integer(x), BinaryOp::Divide, Datum::Integer(y)) == (if in_i64(q) {
                Ok::<Datum, Seq<char>>(Datum::Integer(q))
            } else {
                Err(overflow_message())
            })
        }),
{
    if y != 0 {
        let q = truncated_quotient(x, y);
        if x == 0 {
        } else if x > 0 && y > 0 {
            assert(x == (x / y) * y + x % y) by (nonlinear_arith)
                requires
                    y > 0,
            ;
            assert(0 <= x % y < y) by (nonlinear_arith)
                requires
                    y > 0,
            ;
        } else if x < 0 && y < 0 {
            let a = x * -1;
            let b = y * -1;
            assert(a == (a / b) * b + a % b && 0 <= a % b < b) by (nonlinear_arith)
                requires
                    b > 0,
            ;
            assert(x - (a / b) * y == -(a % b)) by (nonlinear_arith)
                requires
                    a == x * -1,
                    b == y * -1,
                    a == (a / b) * b + a % b,
            ;
        } else if x < 0 {
            let a = x * -1;
            assert(a == (a / y) * y + a % y && 0 <= a % y < y) by (nonlinear_arith)
                requires
                    y > 0,
            ;
            assert(x - ((a / y) * -1) * y == -(a % y)) by (nonlinear_arith)
                requires
                    a == x * -1,
                    a == (a / y) * y + a % y,
            ;
        } else {
            let b = y * -1;
            assert(x == (x / b) * b + x % b && 0 <= x % b < b) by (nonlinear_arith)
                requires
                    b > 0,
            ;
            assert(x - ((x / b) * -1) * y == x % b) by (nonlinear_arith)
                requires
                    b == y * -1,
                    x == (x / b) * b + x % b,
            ;
        }
    }
}

/// Equality compares whole values, `and`/`or` follow boolean logic on two
/// booleans, `+` on two texts concatenates them within the text budget, and
/// `-`/`not` negate.
pub proof fn other_operators_follow_their_meaning(a: Datum, b: Datum, p: bool, q: bool, s: Seq<char>, t: Seq<char>, n: int)
    ensures
        compares(a, BinaryOp::Equal, b, a == b),
        compares(a, BinaryOp::NotEqual, b, a != b),
        compares(Datum::Boolean(p), BinaryOp::And, Datum::Boolean(q), p && q),
        compares(Datum::Boolean(p), BinaryOp::Or, Datum::Boolean(q), p || q),
        utf8_len(s) + utf8_len(t) <= MAX_DATA_TEXT_BYTES ==> binary_result(Datum::Text(s), BinaryOp::Add, Datum::Text(t))
            == Ok::<Datum, Seq<char>>(Datum::Text(s + t)),
        unary_result(UnaryOp::Not, Datum::Boolean(p)) == Ok::<Datum, Seq<char>>(Datum::Boolean(!p)),
        in_i64(-n) ==> unary_result(UnaryOp::Negate, Datum::Integer(n)) == Ok::<Datum, Seq<char>>(Datum::Integer(-n)),
{
}

/// `and` and `or` short-circuit: when the left operand decides the result
/// (`false and ...`, `true or ...`), the right operand is not evaluated, so
/// it may even fail; otherwise both are evaluated, left first.
pub proof fn boolean_operators_short_circuit(left: Expr, right: Expr, vars: Variables, rng: Option<i64>)
    ensures
        eval_expr(left, vars, rng).0 == Ok::<Datum, Seq<char>>(Datum::Boolean(false)) ==> eval_expr(
            Expr::Binary { left: Box::new(left), op: BinaryOp::And, right: Box::new(right) },
            vars,
            rng,
        ) == (Ok::<Datum, Seq<char>>(Datum::Boolean(false)), eval_expr(left, vars, rng).1),
        eval_expr(left, vars, rng).0 == Ok::<Datum, Seq<char>>(Datum::Boolean(true)) ==> eval_expr(
            Expr::Binary { left: Box::new(left), op: BinaryOp::Or, right: Box::new(right) },
            vars,
            rng,
        ) == (Ok::<Datum, Seq<char>>(Datum::Boolean(true)), eval_expr(left, vars, rng).1),
        eval_expr(left, vars, rng).0 == Ok::<Datum, Seq<char>>(Datum::Boolean(true)) ==> eval_expr(
            Expr::Binary { left: Box::new(left), op: BinaryOp::And, right: Box::new(right) },
            vars,
            rng,
        ).0 == match eval_expr(right, vars, eval_expr(left, vars, rng).1).0 {
            Ok(d) => binary_result(Datum::Boolean(true), BinaryOp::And, d),
            Err(m) => Err(m),
        },
{
}

/// Interpolation renders in order: literal text is copied and each hole is
/// replaced by the display form of its value, as long as the result fits
/// the text budget; a variable evaluates to its binding, and an unbound
/// variable is an error.
pub proof fn interpolation_renders_literals_and_holes(literal: String, hole: Expr, name: String, vars: Variables, rng: Option<i64>)
    ensures
        ({
            let parts = seq![StrPart::Literal(literal), StrPart::Hole(Box::new(hole))];
            let (r, _) = eval_expr(hole, vars, rng);
            r is Ok && utf8_len(literal@) + utf8_len(display(r->Ok_0)) <= MAX_DATA_TEXT_BYTES ==> eval_parts(
                parts,
                vars,
                rng,
            ).0 == Ok::<Seq<char>, Seq<char>>(literal@ + display(r->Ok_0))
        }),
        eval_parts(seq![StrPart::Literal(literal)], vars, rng).0 == (if utf8_len(literal@) <= MAX_DATA_TEXT_BYTES {
            Ok::<Seq<char>, Seq<char>>(literal@)
        } else {
            Err(text_budget_message())
        }),
        vars.lookup(name@) matches Some(d) ==> eval_expr(Expr::Variable(name), vars, rng).0 == Ok::<
            Datum,
            Seq<char>,
        >(d),
{
    let parts = seq![StrPart::Literal(literal), StrPart::Hole(Box::new(hole))];
    assert(parts.subrange(0, 1) =~= seq![StrPart::Literal(literal)]);
    let one = seq![StrPart::Literal(literal)];
    assert(one.subrange(0, 0) =~= Seq::<StrPart>::empty());
    assert(Seq::<char>::empty() + literal@ =~= literal@);
    assert(utf8_len(Seq::<char>::empty()) == 0);
    assert(eval_parts(Seq::<StrPart>::empty(), vars, rng) == (Ok::<Seq<char>, Seq<char>>(Seq::<char>::empty()), rng));
    assert(one[one.len() - 1] == StrPart::Literal(literal));
    assert(eval_parts(one, vars, rng) == (append_checked(Seq::<char>::empty(), literal@), rng));
    assert(parts[parts.len() - 1] == StrPart::Hole(Box::new(hole)));
    let (r, _) = eval_expr(hole, vars, rng);
    if let Ok(d) = r {
        if utf8_len(literal@) + utf8_len(display(d)) <= MAX_DATA_TEXT_BYTES {
            assert(utf8_len(display(d)) <= MAX_DATA_TEXT_BYTES);
            assert(eval_parts(one, vars, rng).0 == Ok::<Seq<char>, Seq<char>>(literal@));
        }
    }
}

} // verus!
