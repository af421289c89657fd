//! Type checks of single expressions, reported as diagnostics.

use crate::flow::{site_issues, TypeCheckKind};
use crate::syntax::{diagnostic_models, Diagnostic, DiagnosticModel, Expr, Severity};
use crate::types::{infer, infer_model, issue_of, issues_of, types_by, Environment, Type, TypeError, TypeIssue, TypeLookup};
use vstd::prelude::*;
use vstd::string::*;

verus! {

/// An issue as an error in `file`, at the issue's span or else at
/// `line:column`.
pub open spec fn issue_diagnostic(file: Seq<char>, line: nat, column: nat, issue: TypeIssue) -> DiagnosticModel {
    match issue.span {
        Some(span) => (file, span.line as nat, span.column as nat, issue.message, Severity::Error),
        None => (file, line, column, issue.message, Severity::Error),
    }
}

/// The issues as errors, in order.
pub open spec fn issue_diagnostics(file: Seq<char>, line: nat, column: nat, issues: Seq<TypeIssue>) -> Seq<DiagnosticModel> {
    Seq::new(issues.len(), |i: int| issue_diagnostic(file, line, column, issues[i]))
}

/// Appends `errors` to `diagnostics` as errors in `file`, placed at their
/// spans or else at `line:column`.
pub fn push_error_diagnostics(
    errors: Vec<TypeError>,
    file: &str,
    line: usize,
    column: usize,
    diagnostics: &mut Vec<Diagnostic>,
)
    ensures
        diagnostic_models(final(diagnostics)@) == diagnostic_models(old(diagnostics)@) + issue_diagnostics(
            file@,
            line as nat,
            column as nat,
            issues_of(errors@),
        ),
{
    let ghost base = diagnostic_models(diagnostics@);
    let ghost all = issues_of(errors@);
    let mut i: usize = 0;
    while i < errors.len()
        invariant
            i <= errors@.len(),
            all == issues_of(errors@),
            diagnostic_models(diagnostics@) == base + issue_diagnostics(
                file@,
                line as nat,
                column as nat,
                all.subrange(0, i as int),
            ),
        decreases errors@.len() - i,
    {
        let error = &errors[i];
        let (at_line, at_column) = match error.span {
            Some(span) => (span.line, span.column),
            None => (line, column),
        };
        let diagnostic = Diagnostic::new(file, at_line, at_column, error.message.clone());
        let ghost before = diagnostic_models(diagnostics@);
        diagnostics.push(diagnostic);
        proof {
            assert(all[i as int] == issue_of(errors@[i as int]));
            assert(diagnostic_models(diagnostics@) =~= before.push(diagnostic.model()));
            assert(issue_diagnostics(file@, line as nat, column as nat, all.subrange(0, i + 1)) =~= issue_diagnostics(
                file@,
                line as nat,
                column as nat,
                all.subrange(0, i as int),
            ).push(issue_diagnostic(file@, line as nat, column as nat, all[i as int])));
        }
        i = i + 1;
    }
    assert(all.subrange(0, all.len() as int) =~= all);
}

/// Type-checks a single expression, reporting each provable mismatch as an
/// error at its span, or at `line:column` when it has none.
pub fn check_expression(expression: &Expr, env: &Environment, file: &str, line: usize, column: usize) -> (r: Vec<
    Diagnostic,
>)
    ensures
        diagnostic_models(r@) == issue_diagnostics(
            file@,
            line as nat,
            column as nat,
            infer_model(*expression, types_by(TypeLookup::Names(env))).1,
        ),
{
    let mut errors: Vec<TypeError> = Vec::new();
    infer(expression, env, &mut errors);
    let mut diagnostics: Vec<Diagnostic> = Vec::new();
    assert(issues_of(errors@) =~= infer_model(*expression, types_by(TypeLookup::Names(env))).1);
    assert(diagnostic_models(diagnostics@) =~= Seq::<DiagnosticModel>::empty());
    push_error_diagnostics(errors, file, line, column, &mut diagnostics);
    assert(diagnostic_models(diagnostics@) =~= issue_diagnostics(
        file@,
        line as nat,
        column as nat,
        infer_model(*expression, types_by(TypeLookup::Names(env))).1,
    ));
    diagnostics
}

/// Type-checks an expression used as an `if`/`while` condition: besides
/// the errors inside it, a known non-boolean result is an error. `Unknown`
/// passes, as it may be boolean at runtime.
pub fn check_condition(expression: &Expr, env: &Environment, file: &str, line: usize, column: usize) -> (r: Vec<
    Diagnostic,
>)
    ensures
        diagnostic_models(r@) == issue_diagnostics(
            file@,
            line as nat,
            column as nat,
            site_issues(TypeCheckKind::Condition, *expression, types_by(TypeLookup::Names(env))),
        ),
{
    let mut errors: Vec<TypeError> = Vec::new();
    let inferred = infer(expression, env, &mut errors);
    if inferred != Type::Boolean && inferred != Type::Unknown {
        let mut message = String::from_str("condition expects boolean, found ");
        message.append(inferred.name());
        let ghost before = errors@;
        errors.push(TypeError { message, span: expression.span() });
        assert(issues_of(errors@) =~= issues_of(before).push(issue_of(errors@.last())));
    }
    assert(issues_of(errors@) =~= site_issues(TypeCheckKind::Condition, *expression, types_by(TypeLookup::Names(env))));
    let mut diagnostics: Vec<Diagnostic> = Vec::new();
    assert(diagnostic_models(diagnostics@) =~= Seq::<DiagnosticModel>::empty());
    push_error_diagnostics(errors, file, line, column, &mut diagnostics);
    assert(diagnostic_models(diagnostics@) =~= issue_diagnostics(
        file@,
        line as nat,
        column as nat,
        site_issues(TypeCheckKind::Condition, *expression, types_by(TypeLookup::Names(env))),
    ));
    diagnostics
}

} // verus!
