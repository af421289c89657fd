use velin_core::bytecode::{ExprChunk, ExprOp};
use velin_core::checks::{check_condition, check_expression};
use velin_core::flow::{
    check_program_types, check_program_types_with_hosts, check_program_types_with_hosts_and_slot_types,
    check_program_types_with_slot_types, HostSignature, HostSignatures, TypeCheckKind, TypeCheckSite,
};
use velin_core::program::{Op, Program};
use velin_core::slots::SlotTable;
use velin_core::syntax::{Diagnostic, Expr, Severity, Span};
use velin_core::types::{Environment, Type};
use velin_core::value::{BinaryOp, Value};

fn integer(n: i64) -> Expr {
    Expr::Value(Value::Integer(n))
}

fn text(s: &str) -> Expr {
    Expr::Value(Value::String(s.to_string()))
}

fn var(name: &str) -> Expr {
    Expr::Variable(name.to_string())
}

fn plus(left: Expr, right: Expr) -> Expr {
    Expr::Binary { left: Box::new(left), op: BinaryOp::Add, right: Box::new(right) }
}

fn at(line: usize, column: usize, expression: Expr) -> Expr {
    Expr::Spanned { span: Span { line, column }, expression: Box::new(expression) }
}

fn site(pc: usize, expression: Expr, kind: TypeCheckKind) -> TypeCheckSite {
    TypeCheckSite { pc, expression, kind }
}

fn constant_chunk() -> ExprChunk {
    ExprChunk { ops: vec![ExprOp::Const { dst: 0, constant: 0 }], constants: vec![Value::Integer(0)], registers: 1, result: 0, line: 1 }
}

fn program(ops: Vec<Op>, chunks: usize, slots: SlotTable) -> Program {
    Program::from_chunks(ops, (0..chunks).map(|_| constant_chunk()).collect(), slots)
}

fn messages(diagnostics: &[Diagnostic]) -> Vec<String> {
    diagnostics.iter().map(|d| d.message.clone()).collect()
}

#[test]
fn lib_tests_check_expression_emits_structured_diagnostics() {
    let expression = plus(text("a"), integer(1));
    let diagnostics = check_expression(&expression, &Environment::new(), "script.ql", 3, 1);
    assert_eq!(diagnostics.len(), 1);
    assert!(diagnostics[0].is_error());
    assert_eq!(diagnostics[0].line, 3);
    assert_eq!(diagnostics[0].column, 1);
    assert_eq!(diagnostics[0].file, "script.ql");
    assert!(diagnostics[0].message.contains("`+`"));
}

#[test]
fn check_expression_places_errors_at_their_spans() {
    let expression = at(7, 9, plus(text("a"), integer(1)));
    let diagnostics = check_expression(&expression, &Environment::new(), "script.ql", 3, 1);
    assert_eq!(diagnostics.len(), 1);
    assert_eq!((diagnostics[0].line, diagnostics[0].column), (7, 9));
}

#[test]
fn lib_tests_check_condition_rejects_a_known_non_boolean() {
    let diagnostics = check_condition(&integer(1), &Environment::new(), "script.ql", 3, 4);
    assert_eq!(diagnostics.len(), 1);
    assert_eq!(diagnostics[0].message, "condition expects boolean, found integer");
    assert_eq!(diagnostics[0].severity, Severity::Error);
    // Unknown may be boolean at runtime.
    assert!(check_condition(&var("x"), &Environment::new(), "script.ql", 3, 4).is_empty());
}

#[test]
fn straight_line_types_flow_from_assignments() {
    // x = 1; y = x + "a"
    let mut slots = SlotTable::new();
    let x = slots.intern("x");
    let y = slots.intern("y");
    let p = program(vec![Op::SetSlot { slot: x, value: 0 }, Op::SetSlot { slot: y, value: 1 }], 2, slots);
    let sites = vec![
        site(0, integer(1), TypeCheckKind::Assignment),
        site(1, plus(var("x"), text("a")), TypeCheckKind::Assignment),
    ];
    let diagnostics = check_program_types(&p, &Environment::new(), &sites, "s.velin");
    assert_eq!(messages(&diagnostics), vec!["`+` cannot combine integer and string".to_string()]);
    assert_eq!((diagnostics[0].line, diagnostics[0].column), (0, 1));
    // Sites given out of order are grouped by instruction all the same.
    let reversed: Vec<TypeCheckSite> = vec![
        site(1, plus(var("x"), text("a")), TypeCheckKind::Assignment),
        site(0, integer(1), TypeCheckKind::Assignment),
    ];
    assert_eq!(check_program_types(&p, &Environment::new(), &reversed, "s.velin"), diagnostics);
}

#[test]
fn initial_environment_types_the_entry() {
    let mut slots = SlotTable::new();
    let y = slots.intern("y");
    slots.intern("seed");
    let p = program(vec![Op::SetSlot { slot: y, value: 0 }], 1, slots);
    let sites = vec![site(0, plus(var("seed"), integer(1)), TypeCheckKind::Assignment)];
    let mut env = Environment::new();
    env.insert("seed", Type::Boolean);
    assert_eq!(
        messages(&check_program_types(&p, &env, &sites, "s.velin")),
        vec!["`+` cannot combine boolean and integer".to_string()]
    );
    assert!(check_program_types(&p, &Environment::new(), &sites, "s.velin").is_empty());
    assert_eq!(
        check_program_types_with_slot_types(&p, &[Type::Unknown, Type::Boolean], &sites, "s.velin").len(),
        1
    );
    assert!(check_program_types_with_slot_types(&p, &[Type::Unknown], &sites, "s.velin").is_empty());
}

fn branching(else_value: Expr) -> (Program, Vec<TypeCheckSite>) {
    // if c { x = 1 } else { x = <else_value> }; y = x + "a"
    let mut slots = SlotTable::new();
    slots.intern("c");
    let x = slots.intern("x");
    let y = slots.intern("y");
    let p = program(
        vec![
            Op::JumpIfFalse { condition: 0, target: 3 },
            Op::SetSlot { slot: x, value: 1 },
            Op::Jump(4),
            Op::SetSlot { slot: x, value: 2 },
            Op::SetSlot { slot: y, value: 3 },
            Op::Halt,
        ],
        4,
        slots,
    );
    let sites = vec![
        site(0, var("c"), TypeCheckKind::Condition),
        site(1, integer(1), TypeCheckKind::Assignment),
        site(3, else_value, TypeCheckKind::Assignment),
        site(4, at(5, 2, plus(var("x"), text("a"))), TypeCheckKind::Assignment),
    ];
    (p, sites)
}

#[test]
fn agreeing_branches_keep_the_type() {
    let (p, sites) = branching(integer(2));
    let diagnostics = check_program_types(&p, &Environment::new(), &sites, "s.velin");
    assert_eq!(messages(&diagnostics), vec!["`+` cannot combine integer and string".to_string()]);
    assert_eq!((diagnostics[0].line, diagnostics[0].column), (5, 2));
}

#[test]
fn conflicting_branches_leave_unknown() {
    let (p, sites) = branching(text("s"));
    assert!(check_program_types(&p, &Environment::new(), &sites, "s.velin").is_empty());
}

#[test]
fn conditions_must_be_boolean() {
    let (p, mut sites) = branching(integer(2));
    sites[0] = site(0, integer(3), TypeCheckKind::Condition);
    let diagnostics = check_program_types(&p, &Environment::new(), &sites, "s.velin");
    assert_eq!(
        messages(&diagnostics),
        vec![
            "condition expects boolean, found integer".to_string(),
            "`+` cannot combine integer and string".to_string()
        ]
    );
}

#[test]
fn host_contracts_check_arguments_and_type_bindings() {
    // got = host 7(x); y = got + "a"
    let mut slots = SlotTable::new();
    let got = slots.intern("got");
    let y = slots.intern("y");
    let p = program(vec![Op::host(7, vec![0], Some(got), 1), Op::SetSlot { slot: y, value: 1 }], 2, slots);
    let sites = vec![
        site(0, text("not a number"), TypeCheckKind::Expression),
        site(1, plus(var("got"), text("a")), TypeCheckKind::Assignment),
    ];
    let mut hosts = HostSignatures::new();
    hosts.insert(7, HostSignature::exact(vec![Type::Integer], Some(Type::Integer)));
    assert_eq!(
        messages(&check_program_types_with_hosts(&p, &Environment::new(), &sites, &hosts, "s.velin")),
        vec![
            "host argument 1 expects integer, found string".to_string(),
            "`+` cannot combine integer and string".to_string()
        ]
    );
    // Without a contract the binding is unknown and the argument unchecked.
    assert!(check_program_types(&p, &Environment::new(), &sites, "s.velin").is_empty());
    assert_eq!(
        check_program_types_with_hosts_and_slot_types(&p, &[], &sites, &hosts, "s.velin").len(),
        2
    );
}

#[test]
fn variadic_host_arguments_use_the_trailing_type() {
    let mut slots = SlotTable::new();
    slots.intern("unused");
    let p = program(vec![Op::host(2, vec![0, 1, 2], None, 1)], 3, slots);
    let sites = vec![
        site(0, integer(1), TypeCheckKind::Expression),
        site(0, text("b"), TypeCheckKind::Expression),
        site(0, integer(3), TypeCheckKind::Expression),
    ];
    let mut hosts = HostSignatures::new();
    hosts.insert(2, HostSignature::variadic(vec![Type::Integer], Type::String, None));
    assert_eq!(
        messages(&check_program_types_with_hosts(&p, &Environment::new(), &sites, &hosts, "s.velin")),
        vec!["host argument 3 expects string, found integer".to_string()]
    );
}

#[test]
fn empty_programs_report_nothing() {
    let p = program(Vec::new(), 0, SlotTable::new());
    let sites = vec![site(0, plus(text("a"), integer(1)), TypeCheckKind::Expression)];
    assert!(check_program_types(&p, &Environment::new(), &sites, "s.velin").is_empty());
}

#[test]
fn lib_check_expression_emits_structured_diagnostics() {
    let expression = plus(text("a"), integer(1));
    let diagnostics = check_expression(&expression, &Environment::new(), "script.ql", 3, 1);
    assert_eq!(diagnostics.len(), 1);
    assert!(diagnostics[0].is_error());
    assert_eq!(diagnostics[0].line, 3);
    assert!(diagnostics[0].message.contains("`+`"));
}

#[test]
fn lib_check_condition_rejects_a_known_non_boolean() {
    let diagnostics = check_condition(&integer(1), &Environment::new(), "script.ql", 3, 4);
    assert_eq!(diagnostics.len(), 1);
    assert!(diagnostics[0].message.contains("condition expects boolean"));
}
