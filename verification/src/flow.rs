//! Control-flow-aware type propagation: host contracts, the state merge
//! at join points, and the per-instruction transfer of slot types.

use crate::cfg::{describes, is_straight_line, straight_line, ControlFlow};
use crate::checks::{issue_diagnostics, push_error_diagnostics};
use crate::program::{Op, Program};
use crate::slots::SlotTable;
use crate::syntax::{diagnostic_models, expr_span, Diagnostic, DiagnosticModel, Expr, Severity, Span};
use crate::text::{natural_digits, render_natural};
use crate::types::{compatible, infer_model, issue_of, issues_of, lookup_type, type_label, types_by, Environment, Type, TypeError, TypeIssue, TypeLookup};
use std::collections::{BTreeMap, VecDeque};
use vstd::prelude::*;
use vstd::string::*;

verus! {

/// How an expression takes part in program type checking.
#[derive(Debug, Clone, Copy, PartialEq, Eq, Structural)]
pub enum TypeCheckKind {
    /// A value read for a host argument or another non-assigning operation.
    Expression,
    /// A boolean control-flow guard.
    Condition,
    /// The right-hand side of the assignment at the same program counter.
    Assignment,
}

/// A retained source expression associated with a control-flow instruction.
#[derive(Debug)]
pub struct TypeCheckSite {
    pub pc: usize,
    pub expression: Expr,
    pub kind: TypeCheckKind,
}

/// Static type contract of one opaque host command.
#[derive(Debug, Clone, PartialEq, Eq)]
pub struct HostSignature {
    arguments: Vec<Type>,
    variadic: Option<Type>,
    result_type: Option<Type>,
}

impl HostSignature {
    /// The fixed leading argument types.
    pub closed spec fn fixed(&self) -> Seq<Type> {
        self.arguments@
    }

    /// The repeated trailing argument type, when variadic.
    pub closed spec fn rest(&self) -> Option<Type> {
        self.variadic
    }

    /// The type of the value the command returns, if any.
    pub closed spec fn result(&self) -> Option<Type> {
        self.result_type
    }

    /// Whether a call with `count` arguments fits the signature.
    pub open spec fn admits(&self, count: nat) -> bool {
        count == self.fixed().len() || (self.rest() is Some && count >= self.fixed().len())
    }

    /// The expected type of argument `index`.
    pub open spec fn expected(&self, index: nat) -> Option<Type> {
        if index < self.fixed().len() {
            Some(self.fixed()[index as int])
        } else {
            self.rest()
        }
    }

    /// A command with an exact argument list.
    pub fn exact(arguments: Vec<Type>, result_type: Option<Type>) -> (r: HostSignature)
        ensures
            r.fixed() == arguments@,
            r.rest() is None,
            r.result() == result_type,
    {
        HostSignature { arguments, variadic: None, result_type }
    }

    /// A command with fixed leading arguments followed by zero or more
    /// arguments of type `variadic`.
    pub fn variadic(arguments: Vec<Type>, variadic: Type, result_type: Option<Type>) -> (r: HostSignature)
        ensures
            r.fixed() == arguments@,
            r.rest() == Some(variadic),
            r.result() == result_type,
    {
        HostSignature { arguments, variadic: Some(variadic), result_type }
    }

    /// Whether a call with `count` arguments fits the signature.
    pub fn accepts(&self, count: usize) -> (r: bool)
        ensures
            r == self.admits(count as nat),
    {
        count == self.arguments.len() || (self.variadic.is_some() && count >= self.arguments.len())
    }

    /// The expected type of argument `index`.
    pub fn argument(&self, index: usize) -> (r: Option<Type>)
        ensures
            r == self.expected(index as nat),
    {
        if index < self.arguments.len() {
            Some(self.arguments[index])
        } else {
            self.variadic
        }
    }

    /// The type of the value the command returns, if any.
    pub fn return_type(&self) -> (r: Option<Type>)
        ensures
            r == self.result(),
    {
        self.result_type
    }

    /// The number of fixed arguments.
    pub fn minimum_arguments(&self) -> (r: usize)
        ensures
            r == self.fixed().len(),
    {
        self.arguments.len()
    }

    /// The fixed leading argument types in declaration order.
    pub fn arguments(&self) -> (r: &[Type])
        ensures
            r@ == self.fixed(),
    {
        self.arguments.as_slice()
    }

    /// The repeated trailing argument type, when variadic.
    pub fn variadic_type(&self) -> (r: Option<Type>)
        ensures
            r == self.rest(),
    {
        self.variadic
    }

    /// Whether trailing arguments may repeat.
    pub fn is_variadic(&self) -> (r: bool)
        ensures
            r == self.rest() is Some,
    {
        self.variadic.is_some()
    }
}

/// Host signatures keyed by the program-local `host_id`.
pub type HostSignatures = BTreeMap<u32, HostSignature>;

/// The meet of two slot types: equal types survive, others become `Unknown`.
pub open spec fn merge_type(current: Type, incoming: Type) -> Type {
    if current == incoming {
        current
    } else {
        Type::Unknown
    }
}

/// The state at a join point after another path arrives with `incoming`.
pub open spec fn merged_state(target: Option<Seq<Type>>, incoming: Seq<Type>) -> Option<Seq<Type>> {
    match target {
        None => Some(incoming),
        Some(current) => Some(
            Seq::new(
                current.len(),
                |i: int|
                    if i < incoming.len() {
                        merge_type(current[i], incoming[i])
                    } else {
                        current[i]
                    },
            ),
        ),
    }
}

pub open spec fn option_view(v: Option<Vec<Type>>) -> Option<Seq<Type>> {
    match v {
        Some(x) => Some(x@),
        None => None,
    }
}

/// Merges `incoming` into the state at a join point and reports whether it
/// changed.
pub fn merge_into(target: &mut Option<Vec<Type>>, incoming: &[Type]) -> (changed: bool)
    ensures
        option_view(*final(target)) == merged_state(option_view(*old(target)), incoming@),
        changed == (option_view(*final(target)) != option_view(*old(target))),
{
    let taken = target.take();
    match taken {
        None => {
            let mut copy: Vec<Type> = Vec::new();
            let mut i: usize = 0;
            while i < incoming.len()
                invariant
                    i <= incoming@.len(),
                    copy@ == incoming@.subrange(0, i as int),
                decreases incoming@.len() - i,
            {
                copy.push(incoming[i]);
                i = i + 1;
                assert(copy@ =~= incoming@.subrange(0, i as int));
            }
            assert(copy@ =~= incoming@);
            *target = Some(copy);
            true
        },
        Some(mut current) => {
            let ghost before = current@;
            let mut changed = false;
            let n = if current.len() < incoming.len() { current.len() } else { incoming.len() };
            let mut i: usize = 0;
            while i < n
                invariant
                    n <= before.len(),
                    n <= incoming@.len(),
                    n == (if before.len() < incoming@.len() { before.len() } else { incoming@.len() }),
                    i <= n,
                    current@.len() == before.len(),
                    forall|j: int| 0 <= j < i ==> #[trigger] current@[j] == merge_type(before[j], incoming@[j]),
                    forall|j: int| i <= j < current@.len() ==> #[trigger] current@[j] == before[j],
                    changed == exists|j: int| 0 <= j < i && #[trigger] current@[j] != before[j],
                decreases n - i,
            {
                let merged = if current[i] == incoming[i] { current[i] } else { Type::Unknown };
                if merged != current[i] {
                    current.set(i, merged);
                    changed = true;
                    assert(current@[i as int] != before[i as int]);
                } else {
                    proof {
                        if exists|j: int| 0 <= j < i + 1 && #[trigger] current@[j] != before[j] {
                            let j = choose|j: int| 0 <= j < i + 1 && #[trigger] current@[j] != before[j];
                            assert(j < i);
                        }
                    }
                }
                i = i + 1;
            }
            proof {
                let expected = merged_state(Some(before), incoming@)->0;
                assert(expected =~= current@);
                if !changed {
                    assert(current@ =~= before);
                } else {
                    let j = choose|j: int| 0 <= j < i && #[trigger] current@[j] != before[j];
                    assert(current@[j] != before[j]);
                }
            }
            *target = Some(current);
            changed
        },
    }
}

/// The type a host command's bound result takes.
pub open spec fn host_result_type(hosts: Map<u32, HostSignature>, host_id: u32) -> Type {
    if hosts.contains_key(host_id) {
        match hosts[host_id].result() {
            Some(t) => t,
            None => Type::Unknown,
        }
    } else {
        Type::Unknown
    }
}

/// The slot types after instruction `op`, given the inferred type of its
/// assignment site, if any.
pub open spec fn transferred(op: Op, assignment: Option<Type>, hosts: Map<u32, HostSignature>, state: Seq<Type>) -> Seq<Type> {
    match op {
        Op::SetSlot { slot, .. } | Op::SetConst { slot, .. } | Op::CopySlot { slot, .. } | Op::Update {
            slot,
            ..
        } => match assignment {
            Some(t) => if slot < state.len() {
                state.update(slot as int, t)
            } else {
                state
            },
            None => state,
        },
        Op::Host(host) => match host.bind {
            Some(slot) => if slot < state.len() {
                state.update(slot as int, host_result_type(hosts, host.host_id))
            } else {
                state
            },
            None => state,
        },
        _ => state,
    }
}

fn host_return(hosts: &HostSignatures, host_id: u32) -> (r: Type)
    ensures
        r == host_result_type(hosts@, host_id),
{
    proof {
        broadcast use vstd::laws_cmp::group_laws_cmp;
    }
    match hosts.get(&host_id) {
        Some(signature) => match signature.return_type() {
            Some(t) => t,
            None => Type::Unknown,
        },
        None => Type::Unknown,
    }
}

/// Applies the effect of `op` on slot types: an assignment takes the
/// inferred type, a host binding takes the command's return type.
pub fn apply_transfer(op: &Op, assignment: Option<Type>, hosts: &HostSignatures, state: &mut Vec<Type>)
    ensures
        final(state)@ == transferred(*op, assignment, hosts@, old(state)@),
{
    match op {
        Op::SetSlot { slot, .. } | Op::SetConst { slot, .. } | Op::CopySlot { slot, .. } | Op::Update {
            slot,
            ..
        } => {
            if let Some(inferred) = assignment {
                if (*slot as usize) < state.len() {
                    state.set(*slot as usize, inferred);
                }
            }
        },
        Op::Host(host) => {
            if let Some(slot) = host.bind {
                if (slot as usize) < state.len() {
                    let t = host_return(hosts, host.host_id);
                    state.set(slot as usize, t);
                }
            }
        },
        _ => {},
    }
}

/// The slot-indexed types at program entry: a named slot takes the type
/// the environment records for its name.
pub open spec fn entry_types(slots: SlotTable, initial: Environment) -> Seq<Type> {
    Seq::new(
        slots.width(),
        |s: int|
            if s < slots.slot_names().len() {
                initial.type_for(slots.slot_names()[s])
            } else {
                Type::Unknown
            },
    )
}

/// The slot types at program entry.
pub fn entry_state(program: &Program, initial: &Environment) -> (r: Vec<Type>)
    ensures
        r@ == entry_types(program.slots, *initial),
{
    let width = program.slots.len();
    let names = program.slots.names();
    let ghost named = program.slots.slot_names();
    let mut entry: Vec<Type> = Vec::new();
    let mut s: usize = 0;
    while s < width
        invariant
            width == program.slots.width(),
            named == crate::slots::name_views(names@),
            named == program.slots.slot_names(),
            s <= width,
            entry@.len() == s,
            forall|i: int| 0 <= i < s ==> #[trigger] entry@[i] == entry_types(program.slots, *initial)[i],
        decreases width - s,
    {
        let t = if s < names.len() {
            initial.get(names[s].as_str())
        } else {
            Type::Unknown
        };
        entry.push(t);
        s = s + 1;
    }
    assert(entry@ =~= entry_types(program.slots, *initial));
    entry
}

/// The type a frame gives a variable: the type of its slot, or `Unknown`
/// for a name without a slot in the frame.
pub open spec fn frame_types(slots: SlotTable, state: Seq<Type>) -> spec_fn(Seq<char>) -> Type {
    |name: Seq<char>|
        match slots.slot_of(name) {
            Some(slot) => if slot < state.len() {
                state[slot as int]
            } else {
                Type::Unknown
            },
            None => Type::Unknown,
        }
}

/// The issues a site reports: those of its expression, then, for a
/// condition, a known non-boolean result.
pub open spec fn site_issues(kind: TypeCheckKind, expression: Expr, lookup: spec_fn(Seq<char>) -> Type) -> Seq<TypeIssue> {
    let (t, issues) = infer_model(expression, lookup);
    if kind == TypeCheckKind::Condition && t != Type::Boolean && t != Type::Unknown {
        issues.push(
            TypeIssue {
                message: "condition expects boolean, found "@ + type_label(t),
                span: crate::syntax::expr_span(expression),
            },
        )
    } else {
        issues
    }
}

/// Infers the type of a site's expression against the slot types of a
/// frame and collects its issues.
pub fn check_site(site: &TypeCheckSite, slots: &SlotTable, state: &[Type]) -> (r: (Type, Vec<TypeError>))
    requires
        slots.wf(),
    ensures
        r.0 == infer_model(site.expression, frame_types(*slots, state@)).0,
        issues_of(r.1@) == site_issues(site.kind, site.expression, frame_types(*slots, state@)),
{
    let mut errors: Vec<TypeError> = Vec::new();
    let lookup = TypeLookup::Frame(slots, state);
    assert(types_by(lookup) =~= frame_types(*slots, state@));
    let inferred = crate::types::infer_with(&site.expression, &lookup, &mut errors);
    assert(issues_of(errors@) =~= infer_model(site.expression, frame_types(*slots, state@)).1);
    if site.kind == TypeCheckKind::Condition && inferred != Type::Boolean && inferred != Type::Unknown {
        let mut message = String::from_str("condition expects boolean, found ");
        message.append(inferred.name());
        let span = site.expression.span();
        let ghost before = errors@;
        errors.push(TypeError { message, span });
        assert(issues_of(errors@) =~= issues_of(before).push(issue_of(errors@.last())));
    }
    (inferred, errors)
}


/// At a join point a slot keeps a concrete type only when the paths agree
/// on it, agreeing types survive, and merging a state with itself changes
/// nothing.
pub proof fn merge_keeps_only_agreeing_types(current: Seq<Type>, incoming: Seq<Type>)
    requires
        current.len() == incoming.len(),
    ensures
        merged_state(Some(current), current) == Some(current),
        forall|i: int|
            #![trigger current[i]]
            0 <= i < current.len() ==> {
                let merged = merged_state(Some(current), incoming)->0[i];
                &&& merged != Type::Unknown ==> merged == current[i] && merged == incoming[i]
                &&& current[i] == incoming[i] ==> merged == current[i]
            },
{
    assert(merged_state(Some(current), current)->0 =~= current);
}

/// Whatever a slot held on either path, its merged type is compatible with
/// it: merging never rules out a value an incoming path could carry.
pub proof fn merge_is_conservative(current: Seq<Type>, incoming: Seq<Type>, i: int, t: Type)
    requires
        current.len() == incoming.len(),
        0 <= i < current.len(),
        compatible(t, current[i]) || compatible(t, incoming[i]),
    ensures
        compatible(t, merged_state(Some(current), incoming)->0[i]),
{
}

// ---------------------------------------------------------------------------
// Checking the sites of a program
// ---------------------------------------------------------------------------

/// The positions, among the first `k` sites, of those at instruction `pc`.
pub open spec fn site_positions(sites: Seq<TypeCheckSite>, pc: nat, k: int) -> Seq<usize>
    decreases k,
{
    if k <= 0 {
        Seq::empty()
    } else {
        site_positions(sites, pc, k - 1) + if sites[k - 1].pc == pc {
            seq![(k - 1) as usize]
        } else {
            Seq::empty()
        }
    }
}

/// The positions of the sites at instruction `pc`, in order.
pub open spec fn sites_at(sites: Seq<TypeCheckSite>, pc: nat) -> Seq<usize> {
    site_positions(sites, pc, sites.len() as int)
}

/// The type a host command expects for its argument `index`, when known.
pub open spec fn host_argument_type(hosts: Map<u32, HostSignature>, op: Op, index: nat) -> Option<Type> {
    match op {
        Op::Host(host) => if hosts.contains_key(host.host_id) {
            hosts[host.host_id].expected(index)
        } else {
            None
        },
        _ => None,
    }
}

/// The message for host argument `index` (from zero) of type `found` where
/// `expected` is needed.
pub open spec fn host_argument_message(index: nat, expected: Type, found: Type) -> Seq<char> {
    "host argument "@ + natural_digits(index + 1) + " expects "@ + type_label(expected) + ", found "@ + type_label(
        found,
    )
}

/// The diagnostics of the sites `idx` of instruction `pc` in the state
/// `s`, and how many host arguments they hold. Each site reports its
/// issues; an argument of a host command also reports a type the command's
/// contract rules out.
pub open spec fn sites_fold(
    p: Program,
    pc: nat,
    sites: Seq<TypeCheckSite>,
    idx: Seq<usize>,
    hosts: Map<u32, HostSignature>,
    file: Seq<char>,
    s: Seq<Type>,
) -> (Seq<DiagnosticModel>, nat)
    decreases idx.len(),
{
    if idx.len() == 0 {
        (Seq::empty(), 0)
    } else {
        let (d, h) = sites_fold(p, pc, sites, idx.drop_last(), hosts, file, s);
        let site = sites[idx.last() as int];
        let lookup = frame_types(p.slots, s);
        let inferred = infer_model(site.expression, lookup).0;
        let reported = d + issue_diagnostics(file, 0, 1, site_issues(site.kind, site.expression, lookup));
        if site.kind == TypeCheckKind::Expression && p.ops@[pc as int] is Host {
            let span = expr_span(site.expression);
            let line: nat = match span {
                Some(sp) => sp.line as nat,
                None => 0,
            };
            let column: nat = match span {
                Some(sp) => sp.column as nat,
                None => 1,
            };
            match host_argument_type(hosts, p.ops@[pc as int], h) {
                Some(t) => if !compatible(inferred, t) {
                    (reported.push((file, line, column, host_argument_message(h, t, inferred), Severity::Error)), h + 1)
                } else {
                    (reported, h + 1)
                },
                None => (reported, h + 1),
            }
        } else {
            (reported, h)
        }
    }
}

/// The inferred type of the first assignment site among `idx`.
pub open spec fn assignment_of(p: Program, sites: Seq<TypeCheckSite>, idx: Seq<usize>, s: Seq<Type>) -> Option<Type>
    decreases idx.len(),
{
    if idx.len() == 0 {
        None
    } else {
        let earlier = assignment_of(p, sites, idx.drop_last(), s);
        let site = sites[idx.last() as int];
        if earlier is None && site.kind == TypeCheckKind::Assignment {
            Some(infer_model(site.expression, frame_types(p.slots, s)).0)
        } else {
            earlier
        }
    }
}

/// The diagnostics of instructions `a..b` entered in state `s`, and the
/// state after them.
pub open spec fn range_check(
    p: Program,
    sites: Seq<TypeCheckSite>,
    hosts: Map<u32, HostSignature>,
    file: Seq<char>,
    s: Seq<Type>,
    a: int,
    b: int,
) -> (Seq<DiagnosticModel>, Seq<Type>)
    decreases b - a,
{
    if b <= a {
        (Seq::empty(), s)
    } else {
        let (d, t) = range_check(p, sites, hosts, file, s, a, b - 1);
        let pc = (b - 1) as nat;
        let idx = sites_at(sites, pc);
        (
            d + sites_fold(p, pc, sites, idx, hosts, file, t).0,
            transferred(p.ops@[b - 1], assignment_of(p, sites, idx, t), hosts, t),
        )
    }
}

proof fn lemma_range_state_file(
    p: Program,
    sites: Seq<TypeCheckSite>,
    hosts: Map<u32, HostSignature>,
    f1: Seq<char>,
    f2: Seq<char>,
    s: Seq<Type>,
    a: int,
    b: int,
)
    ensures
        range_check(p, sites, hosts, f1, s, a, b).1 == range_check(p, sites, hosts, f2, s, a, b).1,
    decreases b - a,
{
    if b > a {
        lemma_range_state_file(p, sites, hosts, f1, f2, s, a, b - 1);
    }
}

/// The sites grouped by instruction.
struct SiteIndex {
    buckets: Vec<Vec<usize>>,
}

impl SiteIndex {
    /// Groups the sites before instruction `op_count` by instruction,
    /// keeping their order.
    fn new(op_count: usize, sites: &[TypeCheckSite]) -> (r: SiteIndex)
        ensures
            r.buckets@.len() == op_count,
            forall|pc: int| 0 <= pc < op_count ==> #[trigger] r.buckets@[pc]@ == sites_at(sites@, pc as nat),
    {
        let mut buckets: Vec<Vec<usize>> = Vec::new();
        let mut pc: usize = 0;
        while pc < op_count
            invariant
                pc <= op_count,
                buckets@.len() == pc,
                forall|q: int| 0 <= q < pc ==> #[trigger] buckets@[q]@ == Seq::<usize>::empty(),
            decreases op_count - pc,
        {
            buckets.push(Vec::new());
            pc = pc + 1;
        }
        let mut j: usize = 0;
        while j < sites.len()
            invariant
                j <= sites@.len(),
                buckets@.len() == op_count,
                forall|q: int| 0 <= q < op_count ==> #[trigger] buckets@[q]@ == site_positions(sites@, q as nat, j as int),
            decreases sites@.len() - j,
        {
            let at = sites[j].pc;
            let ghost before = buckets@;
            if at < op_count {
                buckets[at].push(j);
            }
            proof {
                assert forall|q: int| 0 <= q < op_count implies #[trigger] buckets@[q]@ == site_positions(
                    sites@,
                    q as nat,
                    j + 1,
                ) by {
                    if q == at as int {
                        assert(buckets@[q]@ =~= before[q]@.push(j));
                    } else {
                        assert(buckets@[q] == before[q]);
                        assert(site_positions(sites@, q as nat, j + 1) =~= site_positions(sites@, q as nat, j as int));
                    }
                }
            }
            j = j + 1;
        }
        SiteIndex { buckets }
    }

    /// The positions of the sites at `pc`.
    fn at(&self, pc: usize) -> (r: &[usize])
        requires
            pc < self.buckets@.len(),
        ensures
            r@ == self.buckets@[pc as int]@,
    {
        self.buckets[pc].as_slice()
    }
}

proof fn lemma_positions_bounded(sites: Seq<TypeCheckSite>, pc: nat, k: int)
    requires
        k <= sites.len(),
        sites.len() <= usize::MAX,
    ensures
        forall|j: int|
            0 <= j < site_positions(sites, pc, k).len() ==> #[trigger] site_positions(sites, pc, k)[j] < k && sites[
                site_positions(sites, pc, k)[j] as int].pc == pc,
    decreases k,
{
    if k > 0 {
        lemma_positions_bounded(sites, pc, k - 1);
        let prev = site_positions(sites, pc, k - 1);
        let cur = site_positions(sites, pc, k);
        assert forall|j: int| 0 <= j < cur.len() implies #[trigger] cur[j] < k && sites[cur[j] as int].pc == pc by {
            if j < prev.len() {
                assert(cur[j] == prev[j]);
            } else {
                assert(cur[j] == (k - 1) as usize);
            }
        }
    }
}

/// Infers the type of `expression` against the slot types `state`.
fn infer_in_state(expression: &Expr, program: &Program, state: &[Type], errors: &mut Vec<TypeError>) -> (r: Type)
    requires
        program.slots.wf(),
    ensures
        r == infer_model(*expression, frame_types(program.slots, state@)).0,
        issues_of(final(errors)@) == issues_of(old(errors)@) + infer_model(
            *expression,
            frame_types(program.slots, state@),
        ).1,
{
    let lookup = TypeLookup::Frame(&program.slots, state);
    assert(types_by(lookup) =~= frame_types(program.slots, state@));
    crate::types::infer_with(expression, &lookup, errors)
}

/// Applies instruction `pc` to the slot types, with the first assignment
/// site at it giving the assigned type.
fn transfer(
    pc: usize,
    idx: &[usize],
    sites: &[TypeCheckSite],
    program: &Program,
    hosts: &HostSignatures,
    state: &mut Vec<Type>,
)
    requires
        pc < program.ops@.len(),
        program.slots.wf(),
        forall|j: int| 0 <= j < idx@.len() ==> #[trigger] idx@[j] < sites@.len(),
    ensures
        final(state)@ == transferred(program.ops@[pc as int], assignment_of(*program, sites@, idx@, old(state)@), hosts@, old(state)@),
{
    let op = &program.ops[pc];
    let assigns = match op {
        Op::SetSlot { .. } | Op::SetConst { .. } | Op::CopySlot { .. } | Op::Update { .. } => true,
        _ => false,
    };
    let mut assignment: Option<Type> = None;
    if assigns {
        let ghost s = state@;
        let mut k: usize = 0;
        while k < idx.len()
            invariant
                k <= idx@.len(),
                s == state@,
                program.slots.wf(),
                forall|j: int| 0 <= j < idx@.len() ==> #[trigger] idx@[j] < sites@.len(),
                assignment == assignment_of(*program, sites@, idx@.subrange(0, k as int), s),
            decreases idx@.len() - k,
        {
            assert(idx@.subrange(0, k + 1).drop_last() =~= idx@.subrange(0, k as int));
            assert(idx@.subrange(0, k + 1).last() == idx@[k as int]);
            let site = &sites[idx[k]];
            if assignment.is_none() && site.kind == TypeCheckKind::Assignment {
                let mut scratch: Vec<TypeError> = Vec::new();
                assignment = Some(infer_in_state(&site.expression, program, state.as_slice(), &mut scratch));
            }
            k = k + 1;
        }
        assert(idx@.subrange(0, idx@.len() as int) =~= idx@);
    }
    apply_transfer(op, assignment, hosts, state);
}

/// The contract of host command `host_id`, if the table has one.
fn host_signature(hosts: &HostSignatures, host_id: u32) -> (r: Option<&HostSignature>)
    ensures
        r matches Some(signature) ==> hosts@.contains_key(host_id) && *signature == hosts@[host_id],
        r is None ==> !hosts@.contains_key(host_id),
{
    proof {
        broadcast use vstd::laws_cmp::group_laws_cmp;
    }
    hosts.get(&host_id)
}

/// The diagnostic for a host argument of the wrong type.
fn host_argument_diagnostic(file: &str, site: &TypeCheckSite, index: usize, expected: Type, found: Type) -> (r: Diagnostic)
    requires
        index < usize::MAX,
    ensures
        r.model() == (
            file@,
            match expr_span(site.expression) {
                Some(sp) => sp.line as nat,
                None => 0nat,
            },
            match expr_span(site.expression) {
                Some(sp) => sp.column as nat,
                None => 1nat,
            },
            host_argument_message(index as nat, expected, found),
            Severity::Error,
        ),
{
    let span = site.expression.span();
    let (line, column) = match span {
        Some(span) => (span.line, span.column),
        None => (0, 1),
    };
    let mut message = String::from_str("host argument ");
    let number = render_natural((index + 1) as u64);
    message.append(number.as_str());
    message.append(" expects ");
    message.append(expected.name());
    message.append(", found ");
    message.append(found.name());
    Diagnostic::new(file, line, column, message)
}

/// Checks the sites `idx` of instruction `pc`, then applies the instruction
/// to the slot types.
fn check_sites(
    program: &Program,
    pc: usize,
    sites: &[TypeCheckSite],
    idx: &[usize],
    hosts: &HostSignatures,
    file: &str,
    state: &mut Vec<Type>,
    diagnostics: &mut Vec<Diagnostic>,
)
    requires
        pc < program.ops@.len(),
        program.slots.wf(),
        forall|j: int| 0 <= j < idx@.len() ==> #[trigger] idx@[j] < sites@.len(),
    ensures
        diagnostic_models(final(diagnostics)@) == diagnostic_models(old(diagnostics)@) + sites_fold(
            *program,
            pc as nat,
            sites@,
            idx@,
            hosts@,
            file@,
            old(state)@,
        ).0,
        final(state)@ == transferred(program.ops@[pc as int], assignment_of(*program, sites@, idx@, old(state)@), hosts@, old(state)@),
{
    let ghost s = state@;
    let ghost base = diagnostic_models(diagnostics@);
    let mut host_argument: usize = 0;
    let mut assignment: Option<Type> = None;
    let mut k: usize = 0;
    assert(idx@.subrange(0, 0) =~= Seq::<usize>::empty());
    assert(diagnostic_models(diagnostics@) =~= base + sites_fold(*program, pc as nat, sites@, idx@.subrange(0, 0), hosts@, file@, s).0);
    while k < idx.len()
        invariant
            k <= idx@.len(),
            s == state@,
            pc < program.ops@.len(),
            program.slots.wf(),
            forall|j: int| 0 <= j < idx@.len() ==> #[trigger] idx@[j] < sites@.len(),
            host_argument <= k,
            host_argument as nat == sites_fold(*program, pc as nat, sites@, idx@.subrange(0, k as int), hosts@, file@, s).1,
            diagnostic_models(diagnostics@) == base + sites_fold(*program, pc as nat, sites@, idx@.subrange(0, k as int), hosts@, file@, s).0,
            assignment == assignment_of(*program, sites@, idx@.subrange(0, k as int), s),
        decreases idx@.len() - k,
    {
        let ghost prefix = idx@.subrange(0, k + 1);
        assert(prefix.drop_last() =~= idx@.subrange(0, k as int));
        assert(prefix.last() == idx@[k as int]);
        let site = &sites[idx[k]];
        let (inferred, errors) = check_site(site, &program.slots, state.as_slice());
        if site.kind == TypeCheckKind::Assignment && assignment.is_none() {
            assignment = Some(inferred);
        }
        push_error_diagnostics(errors, file, 0, 1, diagnostics);
        let ghost reported = diagnostic_models(diagnostics@);
        if site.kind == TypeCheckKind::Expression {
            match &program.ops[pc] {
                Op::Host(host) => {
                    let expected = match host_signature(hosts, host.host_id) {
                        Some(signature) => signature.argument(host_argument),
                        None => None,
                    };
                    match expected {
                        Some(expected) => {
                            if !inferred.could_be(expected) {
                                let diagnostic = host_argument_diagnostic(file, site, host_argument, expected, inferred);
                                diagnostics.push(diagnostic);
                                assert(diagnostic_models(diagnostics@) =~= reported.push(diagnostic.model()));
                            }
                        },
                        None => {},
                    }
                    host_argument = host_argument + 1;
                },
                _ => {},
            }
        }
        k = k + 1;
    }
    assert(idx@.subrange(0, idx@.len() as int) =~= idx@);
    apply_transfer(&program.ops[pc], assignment, hosts, state);
}

/// Checks instructions `start..end`, updating the slot types as they run.
fn check_range(
    program: &Program,
    start: usize,
    end: usize,
    index: &SiteIndex,
    sites: &[TypeCheckSite],
    hosts: &HostSignatures,
    file: &str,
    state: &mut Vec<Type>,
    diagnostics: &mut Vec<Diagnostic>,
)
    requires
        start <= end <= program.ops@.len(),
        program.slots.wf(),
        index.buckets@.len() == program.ops@.len(),
        forall|pc: int| 0 <= pc < program.ops@.len() ==> #[trigger] index.buckets@[pc]@ == sites_at(sites@, pc as nat),
    ensures
        diagnostic_models(final(diagnostics)@) == diagnostic_models(old(diagnostics)@) + range_check(
            *program,
            sites@,
            hosts@,
            file@,
            old(state)@,
            start as int,
            end as int,
        ).0,
        final(state)@ == range_check(*program, sites@, hosts@, file@, old(state)@, start as int, end as int).1,
{
    let ghost s0 = state@;
    let ghost base = diagnostic_models(diagnostics@);
    let site_count = sites.len();
    let mut pc = start;
    assert(diagnostic_models(diagnostics@) =~= base + range_check(*program, sites@, hosts@, file@, s0, start as int, start as int).0);
    while pc < end
        invariant
            site_count == sites@.len(),
            start <= pc <= end,
            end <= program.ops@.len(),
            program.slots.wf(),
            index.buckets@.len() == program.ops@.len(),
            forall|q: int| 0 <= q < program.ops@.len() ==> #[trigger] index.buckets@[q]@ == sites_at(sites@, q as nat),
            state@ == range_check(*program, sites@, hosts@, file@, s0, start as int, pc as int).1,
            diagnostic_models(diagnostics@) == base + range_check(*program, sites@, hosts@, file@, s0, start as int, pc as int).0,
        decreases end - pc,
    {
        let idx = index.at(pc);
        proof {
            assert(idx@ == sites_at(sites@, pc as nat));
            lemma_positions_bounded(sites@, pc as nat, sites@.len() as int);
        }
        check_sites(program, pc, sites, idx, hosts, file, state, diagnostics);
        assert(diagnostic_models(diagnostics@) =~= base + range_check(*program, sites@, hosts@, file@, s0, start as int, pc + 1).0);
        pc = pc + 1;
    }
}

/// Every site names an instruction below `n`, and the sites come in
/// instruction order.
pub open spec fn sites_ordered(sites: Seq<TypeCheckSite>, n: nat) -> bool {
    &&& forall|i: int| 0 <= i < sites.len() ==> #[trigger] sites[i].pc < n
    &&& forall|i: int, j: int| 0 <= i <= j < sites.len() ==> #[trigger] sites[i].pc <= #[trigger] sites[j].pc
}

fn sites_are_ordered_and_valid(op_count: usize, sites: &[TypeCheckSite]) -> (r: bool)
    ensures
        r == sites_ordered(sites@, op_count as nat),
{
    let mut i: usize = 0;
    while i < sites.len()
        invariant
            i <= sites@.len(),
            forall|x: int| 0 <= x < i ==> #[trigger] sites@[x].pc < op_count,
        decreases sites@.len() - i,
    {
        if sites[i].pc >= op_count {
            return false;
        }
        i = i + 1;
    }
    let mut k: usize = 1;
    while k < sites.len()
        invariant
            1 <= k,
            k <= sites@.len() || sites@.len() == 0,
            forall|x: int| 0 <= x < sites@.len() ==> #[trigger] sites@[x].pc < op_count,
            forall|x: int, y: int| 0 <= x <= y < k && y < sites@.len() ==> #[trigger] sites@[x].pc <= #[trigger] sites@[y].pc,
        decreases sites@.len() - k,
    {
        if sites[k - 1].pc > sites[k].pc {
            assert(!(sites@[k - 1].pc <= sites@[k as int].pc));
            return false;
        }
        proof {
            assert forall|x: int, y: int| 0 <= x <= y < k + 1 && y < sites@.len() implies #[trigger] sites@[x].pc
                <= #[trigger] sites@[y].pc by {
                if y == k && x < k {
                    assert(sites@[x].pc <= sites@[k - 1].pc);
                }
            }
        }
        k = k + 1;
    }
    true
}

/// In sites ordered by instruction, the sites at `pc` are the run from
/// `lo` to `hi`.
proof fn lemma_positions_run(sites: Seq<TypeCheckSite>, pc: nat, lo: int, hi: int, k: int)
    requires
        0 <= lo <= hi <= sites.len(),
        sites.len() <= usize::MAX,
        forall|i: int| 0 <= i < lo ==> #[trigger] sites[i].pc != pc,
        forall|i: int| lo <= i < hi ==> #[trigger] sites[i].pc == pc,
        forall|i: int| hi <= i < sites.len() ==> #[trigger] sites[i].pc != pc,
        0 <= k <= sites.len(),
    ensures
        site_positions(sites, pc, k) == Seq::new(
            (if k <= lo {
                0
            } else if k <= hi {
                k - lo
            } else {
                hi - lo
            }) as nat,
            |j: int| (lo + j) as usize,
        ),
    decreases k,
{
    if k > 0 {
        lemma_positions_run(sites, pc, lo, hi, k - 1);
        let expected = Seq::new(
            (if k <= lo {
                0
            } else if k <= hi {
                k - lo
            } else {
                hi - lo
            }) as nat,
            |j: int| (lo + j) as usize,
        );
        assert(site_positions(sites, pc, k) =~= expected);
    }
}

/// Checks a straight-line program whose sites come in instruction order,
/// walking the sites alongside the instructions.
fn check_ordered_linear(
    program: &Program,
    state: Vec<Type>,
    sites: &[TypeCheckSite],
    hosts: &HostSignatures,
    file: &str,
) -> (r: Vec<Diagnostic>)
    requires
        program.slots.wf(),
        sites_ordered(sites@, program.ops@.len()),
    ensures
        diagnostic_models(r@) == range_check(*program, sites@, hosts@, file@, state@, 0, program.ops@.len() as int).0,
{
    let ghost s0 = state@;
    let mut state = state;
    let mut diagnostics: Vec<Diagnostic> = Vec::new();
    let mut site_at: usize = 0;
    let n = program.ops.len();
    let site_count = sites.len();
    let mut pc: usize = 0;
    assert(diagnostic_models(diagnostics@) =~= range_check(*program, sites@, hosts@, file@, s0, 0, 0).0);
    while pc < n
        invariant
            n == program.ops@.len(),
            site_count == sites@.len(),
            program.slots.wf(),
            sites_ordered(sites@, n as nat),
            pc <= n,
            site_at <= site_count,
            forall|i: int| 0 <= i < site_at ==> #[trigger] sites@[i].pc < pc,
            forall|i: int| site_at <= i < site_count ==> #[trigger] sites@[i].pc >= pc,
            state@ == range_check(*program, sites@, hosts@, file@, s0, 0, pc as int).1,
            diagnostic_models(diagnostics@) == range_check(*program, sites@, hosts@, file@, s0, 0, pc as int).0,
        decreases n - pc,
    {
        let start = site_at;
        while site_at < sites.len() && sites[site_at].pc == pc
            invariant
                start <= site_at <= site_count,
                site_count == sites@.len(),
                forall|i: int| start <= i < site_at ==> #[trigger] sites@[i].pc == pc,
            decreases site_count - site_at,
        {
            site_at = site_at + 1;
        }
        let mut idx: Vec<usize> = Vec::new();
        let mut j = start;
        while j < site_at
            invariant
                start <= j <= site_at,
                idx@ == Seq::new((j - start) as nat, |x: int| (start + x) as usize),
            decreases site_at - j,
        {
            idx.push(j);
            j = j + 1;
            assert(idx@ =~= Seq::new((j - start) as nat, |x: int| (start + x) as usize));
        }
        proof {
            assert forall|i: int| site_at <= i < site_count implies #[trigger] sites@[i].pc != pc by {
                if site_at < site_count {
                    assert(sites@[site_at as int].pc != pc);
                    assert(sites@[site_at as int].pc <= sites@[i].pc);
                }
            }
            lemma_positions_run(sites@, pc as nat, start as int, site_at as int, site_count as int);
            assert(idx@ == sites_at(sites@, pc as nat));
        }
        check_sites(program, pc, sites, idx.as_slice(), hosts, file, &mut state, &mut diagnostics);
        proof {
            assert forall|i: int| 0 <= i < site_at implies #[trigger] sites@[i].pc < pc + 1 by {
                if i >= start {
                    assert(sites@[i].pc == pc);
                }
            }
            assert forall|i: int| site_at <= i < site_count implies #[trigger] sites@[i].pc >= pc + 1 by {
                if site_at < site_count {
                    assert(sites@[site_at as int].pc != pc);
                    assert(sites@[site_at as int].pc <= sites@[i].pc);
                }
            }
        }
        pc = pc + 1;
    }
    diagnostics
}

/// The slot types leaving block `b` when it is entered with `s`.
pub open spec fn block_exit(
    p: Program,
    flow: ControlFlow,
    sites: Seq<TypeCheckSite>,
    hosts: Map<u32, HostSignature>,
    s: Seq<Type>,
    b: int,
) -> Seq<Type> {
    range_check(p, sites, hosts, Seq::empty(), s, flow.blocks@[b].start as int, flow.blocks@[b].end as int).1
}

/// `states` gives block entry types consistent with the program: the entry
/// block absorbs the entry types, and whatever leaves a block with a state
/// is absorbed by each of its successors.
pub open spec fn type_states_ok(
    p: Program,
    flow: ControlFlow,
    sites: Seq<TypeCheckSite>,
    hosts: Map<u32, HostSignature>,
    entry: Seq<Type>,
    states: Seq<Option<Seq<Type>>>,
) -> bool {
    let nb = flow.blocks@.len();
    let succ = Seq::new(flow.successors@.len(), |i: int| flow.successors@[i]@);
    &&& states.len() == nb
    &&& nb > 0 ==> states[0] is Some && merged_state(states[0], entry) == states[0]
    &&& forall|b: int| 0 <= b < nb ==> (#[trigger] states[b] matches Some(s) ==> s.len() == entry.len())
    &&& forall|b: int, k: int|
        0 <= b < nb && states[b] is Some && 0 <= k < succ[b].len() ==> {
            let c = #[trigger] succ[b][k] as int;
            &&& states[c] is Some
            &&& merged_state(states[c], block_exit(p, flow, sites, hosts, states[b]->0, b)) == states[c]
        }
}

/// The diagnostics of the reachable blocks among the first `k` that have a
/// state, in block order.
pub open spec fn blocks_check(
    p: Program,
    flow: ControlFlow,
    sites: Seq<TypeCheckSite>,
    hosts: Map<u32, HostSignature>,
    file: Seq<char>,
    states: Seq<Option<Seq<Type>>>,
    k: int,
) -> Seq<DiagnosticModel>
    decreases k,
{
    if k <= 0 {
        Seq::empty()
    } else {
        blocks_check(p, flow, sites, hosts, file, states, k - 1) + if flow.reachable@[k - 1] && states[k - 1] is Some {
            range_check(
                p,
                sites,
                hosts,
                file,
                states[k - 1]->0,
                flow.blocks@[k - 1].start as int,
                flow.blocks@[k - 1].end as int,
            ).0
        } else {
            Seq::empty()
        }
    }
}

/// `diagnostics` are what checking `p` from the `entry` slot types reports:
/// nothing for an empty program; for a straight-line program, the
/// diagnostics of its instructions in order with the types flowing through
/// them; otherwise, over the program's control-flow graph and block entry
/// types consistent with it, the diagnostics of each reachable block in
/// order.
pub open spec fn type_check_reports(
    p: Program,
    entry: Seq<Type>,
    sites: Seq<TypeCheckSite>,
    hosts: Map<u32, HostSignature>,
    file: Seq<char>,
    diagnostics: Seq<DiagnosticModel>,
) -> bool {
    let n = p.ops@.len();
    if n == 0 {
        diagnostics.len() == 0
    } else if straight_line(p.ops@) {
        diagnostics == range_check(p, sites, hosts, file, entry, 0, n as int).0
    } else {
        exists|flow: ControlFlow, states: Seq<Option<Seq<Type>>>|
            #![trigger type_states_ok(p, flow, sites, hosts, entry, states)]
            describes(flow, p.ops@) && type_states_ok(p, flow, sites, hosts, entry, states) && diagnostics
                == blocks_check(p, flow, sites, hosts, file, states, flow.blocks@.len() as int)
    }
}

fn copy_types(types: &Vec<Type>) -> (r: Vec<Type>)
    ensures
        r@ == types@,
{
    let mut copy: Vec<Type> = Vec::new();
    let mut i: usize = 0;
    while i < types.len()
        invariant
            i <= types@.len(),
            copy@ == types@.subrange(0, i as int),
        decreases types@.len() - i,
    {
        copy.push(types[i]);
        i = i + 1;
        assert(copy@ =~= types@.subrange(0, i as int));
    }
    assert(copy@ =~= types@);
    copy
}

/// How many slot types are known.
spec fn known_count(s: Seq<Type>) -> nat
    decreases s.len(),
{
    if s.len() == 0 {
        0
    } else {
        known_count(s.drop_last()) + if s.last() == Type::Unknown {
            0nat
        } else {
            1nat
        }
    }
}

proof fn lemma_known_count_bound(s: Seq<Type>)
    ensures
        known_count(s) <= s.len(),
    decreases s.len(),
{
    if s.len() > 0 {
        lemma_known_count_bound(s.drop_last());
    }
}

/// How much a block's state can still change.
spec fn state_room(state: Option<Seq<Type>>, w: nat) -> nat {
    match state {
        None => w + 1,
        Some(s) => known_count(s),
    }
}

spec fn states_room(states: Seq<Option<Seq<Type>>>, w: nat) -> nat
    decreases states.len(),
{
    if states.len() == 0 {
        0
    } else {
        states_room(states.drop_last(), w) + state_room(states.last(), w)
    }
}

proof fn lemma_states_room_update(states: Seq<Option<Seq<Type>>>, w: nat, i: int, x: Option<Seq<Type>>)
    requires
        0 <= i < states.len(),
    ensures
        states_room(states.update(i, x), w) + state_room(states[i], w) == states_room(states, w) + state_room(x, w),
    decreases states.len(),
{
    if i < states.len() - 1 {
        lemma_states_room_update(states.drop_last(), w, i, x);
        assert(states.update(i, x).drop_last() =~= states.drop_last().update(i, x));
    } else {
        assert(states.update(i, x).drop_last() =~= states.drop_last());
    }
}

/// A merge that changes a state leaves less room.
proof fn lemma_merge_shrinks(current: Option<Seq<Type>>, incoming: Seq<Type>, w: nat)
    requires
        incoming.len() == w,
        current matches Some(c) ==> c.len() == w,
    ensures
        merged_state(current, incoming) != current ==> state_room(merged_state(current, incoming), w) < state_room(current, w),
    decreases w,
{
    lemma_known_count_bound(incoming);
    if let Some(c) = current {
        let m = merged_state(current, incoming)->0;
        lemma_known_shrinks(c, m);
    }
}

proof fn lemma_known_shrinks(c: Seq<Type>, m: Seq<Type>)
    requires
        c.len() == m.len(),
        forall|i: int| 0 <= i < c.len() ==> #[trigger] m[i] == c[i] || m[i] == Type::Unknown,
    ensures
        known_count(m) <= known_count(c),
        m != c ==> known_count(m) < known_count(c),
    decreases c.len(),
{
    if c.len() > 0 {
        let c1 = c.drop_last();
        let m1 = m.drop_last();
        assert forall|i: int| 0 <= i < c1.len() implies #[trigger] m1[i] == c1[i] || m1[i] == Type::Unknown by {
            assert(m1[i] == m[i] && c1[i] == c[i]);
        }
        lemma_known_shrinks(c1, m1);
        if m != c && m1 == c1 {
            assert(m.last() != c.last()) by {
                if m.last() == c.last() {
                    assert forall|i: int| 0 <= i < m.len() implies m[i] == c[i] by {
                        if i < m.len() - 1 {
                            assert(m1[i] == m[i] && c1[i] == c[i]);
                        }
                    }
                    assert(m =~= c);
                }
            }
        }
    } else {
        assert(m =~= c);
    }
}

/// Merging the same types twice changes nothing the second time, and a
/// state that absorbed `o` still absorbs it after more merges.
proof fn lemma_merge_absorbs_types(current: Option<Seq<Type>>, o: Seq<Type>, more: Seq<Type>)
    requires
        current matches Some(c) ==> c.len() == o.len() && c.len() == more.len(),
        o.len() == more.len(),
    ensures
        merged_state(merged_state(current, o), o) == merged_state(current, o),
        merged_state(current, o) == current ==> merged_state(merged_state(current, more), o) == merged_state(
            current,
            more,
        ),
{
    let m = merged_state(current, o)->0;
    assert(merged_state(Some(m), o)->0 =~= m);
    if merged_state(current, o) == current {
        let c = current->0;
        let mm = merged_state(current, more)->0;
        assert forall|i: int| 0 <= i < mm.len() implies merge_type(mm[i], o[i]) == mm[i] by {
            assert(merged_state(current, o)->0[i] == c[i]);
        }
        assert(merged_state(Some(mm), o)->0 =~= mm);
    }
}

/// The worklist's bookkeeping over `nb` blocks.
spec fn worklist_ok(pending: Seq<usize>, queued: Seq<bool>, states: Seq<Option<Seq<Type>>>, nb: nat) -> bool {
    &&& queued.len() == nb
    &&& forall|a: int, b: int| 0 <= a < b < pending.len() ==> #[trigger] pending[a] != #[trigger] pending[b]
    &&& forall|k: int| 0 <= k < pending.len() ==> #[trigger] pending[k] < nb && states[pending[k] as int] is Some
    &&& forall|i: int| 0 <= i < nb ==> (#[trigger] queued[i] <==> pending.contains(i as usize))
}

/// Block `b`'s exit types are absorbed by each of its successors.
spec fn block_closed(
    p: Program,
    flow: ControlFlow,
    sites: Seq<TypeCheckSite>,
    hosts: Map<u32, HostSignature>,
    states: Seq<Option<Seq<Type>>>,
    b: int,
) -> bool {
    let succ = flow.successors@[b]@;
    states[b] matches Some(s) ==> forall|k: int|
        0 <= k < succ.len() ==> {
            let c = #[trigger] succ[k] as int;
            &&& states[c] is Some
            &&& merged_state(states[c], block_exit(p, flow, sites, hosts, s, b)) == states[c]
        }
}

spec fn type_views(states: Seq<Option<Vec<Type>>>) -> Seq<Option<Seq<Type>>> {
    Seq::new(states.len(), |i: int| option_view(states[i]))
}

/// Propagates slot types through the control-flow graph of a branching
/// program and checks the sites of each reachable block.
#[verifier::rlimit(100)]
#[verifier::spinoff_prover]
fn check_with_flow(
    program: &Program,
    entry: Vec<Type>,
    index: &SiteIndex,
    sites: &[TypeCheckSite],
    hosts: &HostSignatures,
    file: &str,
) -> (r: Vec<Diagnostic>)
    requires
        program.ops@.len() > 0,
        program.slots.wf(),
        index.buckets@.len() == program.ops@.len(),
        forall|pc: int| 0 <= pc < program.ops@.len() ==> #[trigger] index.buckets@[pc]@ == sites_at(sites@, pc as nat),
    ensures
        exists|flow: ControlFlow, states: Seq<Option<Seq<Type>>>|
            #![trigger type_states_ok(*program, flow, sites@, hosts@, entry@, states)]
            describes(flow, program.ops@) && type_states_ok(*program, flow, sites@, hosts@, entry@, states)
                && diagnostic_models(r@) == blocks_check(*program, flow, sites@, hosts@, file@, states, flow.blocks@.len() as int),
{
    let ghost p = *program;
    let ghost w = entry@.len();
    let ghost entry_types = entry@;
    let flow = ControlFlow::new(&program.ops);
    let nb = flow.blocks.len();
    let ghost succ = Seq::new(flow.successors@.len(), |i: int| flow.successors@[i]@);
    proof {
        assert(nb > 0);
    }
    let mut incoming: Vec<Option<Vec<Type>>> = Vec::new();
    let mut queued: Vec<bool> = Vec::new();
    let mut c: usize = 0;
    while c < nb
        invariant
            c <= nb,
            incoming@.len() == c,
            queued@.len() == c,
            forall|d: int| 0 <= d < c ==> #[trigger] incoming@[d] is None,
            forall|d: int| 0 <= d < c ==> !#[trigger] queued@[d],
        decreases nb - c,
    {
        incoming.push(None);
        queued.push(false);
        c = c + 1;
    }
    incoming.set(0, Some(entry));
    let mut pending: VecDeque<usize> = VecDeque::new();
    pending.push_back(0);
    queued.set(0, true);
    proof {
        let st = type_views(incoming@);
        assert(st[0] == Some(entry_types));
        assert(merged_state(Some(entry_types), entry_types)->0 =~= entry_types);
        assert(pending@ =~= seq![0usize]);
        assert forall|i: int| 0 <= i < nb implies (#[trigger] queued@[i] <==> pending@.contains(i as usize)) by {
            if i == 0 {
                assert(pending@[0] == 0);
            }
        }
        assert forall|i: int| 0 <= i < nb implies (#[trigger] st[i] matches Some(x) ==> x.len() == w) by {
            if i != 0 {
                assert(st[i] is None);
            }
        }
        assert forall|i: int| 0 <= i < nb && #[trigger] st[i] is Some implies queued@[i] by {
            if i != 0 {
                assert(st[i] is None);
            }
        }
    }
    while pending.len() > 0
        invariant
            p == *program,
            describes(flow, program.ops@),
            nb == flow.blocks@.len(),
            nb > 0,
            succ == Seq::new(flow.successors@.len(), |i: int| flow.successors@[i]@),
            program.slots.wf(),
            index.buckets@.len() == program.ops@.len(),
            forall|pc: int| 0 <= pc < program.ops@.len() ==> #[trigger] index.buckets@[pc]@ == sites_at(sites@, pc as nat),
            incoming@.len() == nb,
            w == entry_types.len(),
            worklist_ok(pending@, queued@, type_views(incoming@), nb as nat),
            type_views(incoming@)[0] is Some,
            merged_state(type_views(incoming@)[0], entry_types) == type_views(incoming@)[0],
            forall|d: int| 0 <= d < nb ==> (#[trigger] type_views(incoming@)[d] matches Some(x) ==> x.len() == w),
            forall|d: int|
                0 <= d < nb && #[trigger] type_views(incoming@)[d] is Some ==> queued@[d] || block_closed(
                    p,
                    flow,
                    sites@,
                    hosts@,
                    type_views(incoming@),
                    d,
                ),
        decreases states_room(type_views(incoming@), w), pending@.len(),
    {
        let ghost pending0 = pending@;
        let ghost queued0 = queued@;
        let b = match pending.pop_front() {
            Some(x) => x,
            None => 0,
        };
        assert(pending0[0] == b && pending@ =~= pending0.drop_first());
        queued.set(b, false);
        proof {
            let st = type_views(incoming@);
            assert forall|x: int, y: int| 0 <= x < y < pending@.len() implies #[trigger] pending@[x] != #[trigger] pending@[y] by {
                assert(pending0[x + 1] != pending0[y + 1]);
            }
            assert forall|k: int| 0 <= k < pending@.len() implies #[trigger] pending@[k] < nb && st[pending@[k] as int] is Some by {
                assert(pending@[k] == pending0[k + 1]);
            }
            assert forall|i: int| 0 <= i < nb implies (#[trigger] queued@[i] <==> pending@.contains(i as usize)) by {
                if i == b as int {
                    if pending@.contains(i as usize) {
                        let k = choose|k: int| 0 <= k < pending@.len() && pending@[k] == i as usize;
                        assert(pending0[k + 1] == pending0[0]);
                    }
                } else {
                    assert(queued0[i] == queued@[i]);
                    if queued0[i] {
                        let k = choose|k: int| 0 <= k < pending0.len() && pending0[k] == i as usize;
                        assert(k != 0);
                        assert(pending@[k - 1] == i as usize);
                    }
                    if pending@.contains(i as usize) {
                        let k = choose|k: int| 0 <= k < pending@.len() && pending@[k] == i as usize;
                        assert(pending0[k + 1] == i as usize);
                    }
                }
            }
        }
        let ghost s = type_views(incoming@)[b as int]->0;
        let mut outgoing = match &incoming[b] {
            Some(state) => copy_types(state),
            None => Vec::new(),
        };
        assert(outgoing@ == s);
        let block = flow.blocks[b];
        proof {
            crate::cfg::lemma_block_bounds(flow.blocks@, program.ops@, b as int);
        }
        let mut pc = block.start;
        while pc < block.end
            invariant
                block.start <= pc <= block.end,
                block.end <= program.ops@.len(),
                program.slots.wf(),
                index.buckets@.len() == program.ops@.len(),
                forall|q: int| 0 <= q < program.ops@.len() ==> #[trigger] index.buckets@[q]@ == sites_at(sites@, q as nat),
                outgoing@ == range_check(p, sites@, hosts@, Seq::empty(), s, block.start as int, pc as int).1,
                p == *program,
            decreases block.end - pc,
        {
            let idx = index.at(pc);
            let site_count = sites.len();
            proof {
                lemma_positions_bounded(sites@, pc as nat, sites@.len() as int);
            }
            transfer(pc, idx, sites, program, hosts, &mut outgoing);
            pc = pc + 1;
        }
        let ghost out = outgoing@;
        proof {
            assert(out == block_exit(p, flow, sites@, hosts@, s, b as int));
            assert(out.len() == w) by {
                lemma_exit_width(p, sites@, hosts@, s, block.start as int, block.end as int);
            }
        }
        let succs = &flow.successors[b];
        let ghost before_loop = type_views(incoming@);
        let ghost pending_popped = pending@;
        proof {
            assert(succs@ == succ[b as int]);
            assert(crate::cfg::distinct(succ[b as int]));
            assert forall|x: int| 0 <= x < succs@.len() implies #[trigger] succs@[x] < nb by {
                assert(succ[b as int][x] < nb);
            }
        }
        let mut k: usize = 0;
        while k < succs.len()
            invariant
                succs@ == succ[b as int],
                succ == Seq::new(flow.successors@.len(), |i: int| flow.successors@[i]@),
                describes(flow, program.ops@),
                b < nb,
                nb == flow.blocks@.len(),
                p == *program,
                out.len() == w,
                w == entry_types.len(),
                type_views(incoming@) == before_loop ==> pending@ == pending_popped,
                out == block_exit(p, flow, sites@, hosts@, s, b as int),
                outgoing@ == out,
                k <= succs@.len(),
                incoming@.len() == nb,
                worklist_ok(pending@, queued@, type_views(incoming@), nb as nat),
                type_views(incoming@)[0] is Some,
                merged_state(type_views(incoming@)[0], entry_types) == type_views(incoming@)[0],
                forall|d: int| 0 <= d < nb ==> (#[trigger] type_views(incoming@)[d] matches Some(x) ==> x.len() == w),
                states_room(type_views(incoming@), w) <= states_room(before_loop, w),
                states_room(type_views(incoming@), w) < states_room(before_loop, w) || type_views(incoming@) == before_loop,
                queued@[b as int] || type_views(incoming@)[b as int] == Some(s),
                forall|x: int| 0 <= x < k ==> {
                    let c = #[trigger] succs@[x] as int;
                    &&& type_views(incoming@)[c] is Some
                    &&& merged_state(type_views(incoming@)[c], out) == type_views(incoming@)[c]
                },
                forall|d: int|
                    0 <= d < nb && d != b && #[trigger] type_views(incoming@)[d] is Some ==> queued@[d] || block_closed(
                        p,
                        flow,
                        sites@,
                        hosts@,
                        type_views(incoming@),
                        d,
                    ),
                forall|x: int, y: int| 0 <= x < y < succs@.len() ==> #[trigger] succs@[x] != #[trigger] succs@[y],
                forall|x: int| 0 <= x < succs@.len() ==> #[trigger] succs@[x] < nb,
            decreases succs@.len() - k,
        {
            let target = succs[k];
            let ghost st = type_views(incoming@);
            let ghost pending_before = pending@;
            let ghost queued_before = queued@;
            proof {
                lemma_merge_shrinks(st[target as int], out, w);
                lemma_states_room_update(st, w, target as int, merged_state(st[target as int], out));
                lemma_merge_absorbs_types(st[target as int], out, out);
            }
            let changed = merge_into(&mut incoming[target], outgoing.as_slice());
            proof {
                assert(type_views(incoming@) =~= st.update(target as int, merged_state(st[target as int], out)));
                if !changed {
                    assert(type_views(incoming@) =~= st);
                }
            }
            if changed && !queued[target] {
                queued.set(target, true);
                pending.push_back(target);
            }
            proof {
                let now = type_views(incoming@);
                assert forall|x: int, y: int| 0 <= x < y < pending@.len() implies #[trigger] pending@[x] != #[trigger] pending@[y] by {
                    if y == pending_before.len() && pending@.len() > pending_before.len() {
                        assert(pending@[x] == pending_before[x]);
                        if pending_before[x] == target {
                            assert(pending_before.contains(target));
                        }
                    } else {
                        assert(pending@[x] == pending_before[x]);
                        assert(pending@[y] == pending_before[y]);
                    }
                }
                assert forall|x: int| 0 <= x < pending@.len() implies #[trigger] pending@[x] < nb && now[pending@[x] as int] is Some by {
                    if x < pending_before.len() {
                        assert(pending@[x] == pending_before[x]);
                    }
                }
                assert forall|i: int| 0 <= i < nb implies (#[trigger] queued@[i] <==> pending@.contains(i as usize)) by {
                    if pending@.len() > pending_before.len() {
                        if i == target as int {
                            assert(pending@[pending_before.len() as int] == target);
                        } else {
                            if pending_before.contains(i as usize) {
                                let x = choose|x: int| 0 <= x < pending_before.len() && pending_before[x] == i as usize;
                                assert(pending@[x] == i as usize);
                            }
                            if pending@.contains(i as usize) {
                                let x = choose|x: int| 0 <= x < pending@.len() && pending@[x] == i as usize;
                                assert(pending_before[x] == i as usize);
                            }
                        }
                    } else {
                        assert(pending@ == pending_before);
                    }
                }
                assert forall|d: int| 0 <= d < nb implies (#[trigger] now[d] matches Some(x) ==> x.len() == w) by {
                    if d != target as int {
                        assert(now[d] == st[d]);
                    }
                }
                if target != 0 {
                    assert(now[0] == st[0]);
                } else {
                    lemma_merge_absorbs_types(st[0], entry_types, out);
                }
                assert forall|x: int| 0 <= x < k + 1 implies {
                    let c = #[trigger] succs@[x] as int;
                    &&& now[c] is Some
                    &&& merged_state(now[c], out) == now[c]
                } by {
                    let c = succs@[x] as int;
                    if x < k {
                        assert(c != target as int);
                        assert(now[c] == st[c]);
                    }
                }
                assert forall|d: int|
                    0 <= d < nb && d != b && #[trigger] now[d] is Some implies queued@[d] || block_closed(
                        p,
                        flow,
                        sites@,
                        hosts@,
                        now,
                        d,
                    ) by {
                    if !queued@[d] {
                        assert(!queued_before[d]);
                        if d != target as int {
                            assert(now[d] == st[d]);
                        } else {
                            assert(!changed);
                        }
                        assert(st[d] is Some);
                        assert(block_closed(p, flow, sites@, hosts@, st, d));
                        assert forall|x: int| 0 <= x < flow.successors@[d]@.len() implies 0 <= #[trigger] flow.successors@[d]@[x] < st.len() by {
                            assert(succ[d] == flow.successors@[d]@);
                            assert(succ[d][x] < nb);
                        }
                        lemma_closed_after_type_merge(p, flow, sites@, hosts@, st, target as int, out, w, d);
                    }
                }
                if !queued@[b as int] {
                    if target == b {
                        assert(!changed);
                    }
                    assert(now[b as int] == Some(s));
                }
            }
            k = k + 1;
        }
        proof {
            let now = type_views(incoming@);
            if !queued@[b as int] {
                assert(now[b as int] == Some(s));
                let sv = flow.successors@[b as int]@;
                assert(sv == succs@);
                assert forall|x: int| 0 <= x < sv.len() implies {
                    let c = #[trigger] sv[x] as int;
                    &&& now[c] is Some
                    &&& merged_state(now[c], block_exit(p, flow, sites@, hosts@, s, b as int)) == now[c]
                } by {
                    assert(sv[x] == succs@[x]);
                }
                assert(block_closed(p, flow, sites@, hosts@, now, b as int));
            }
        }
    }
    let ghost states = type_views(incoming@);
    let mut diagnostics: Vec<Diagnostic> = Vec::new();
    let mut b: usize = 0;
    assert(diagnostic_models(diagnostics@) =~= blocks_check(p, flow, sites@, hosts@, file@, states, 0));
    while b < nb
        invariant
            p == *program,
            describes(flow, program.ops@),
            nb == flow.blocks@.len(),
            program.slots.wf(),
            index.buckets@.len() == program.ops@.len(),
            forall|pc: int| 0 <= pc < program.ops@.len() ==> #[trigger] index.buckets@[pc]@ == sites_at(sites@, pc as nat),
            states == type_views(incoming@),
            incoming@.len() == nb,
            b <= nb,
            diagnostic_models(diagnostics@) == blocks_check(p, flow, sites@, hosts@, file@, states, b as int),
        decreases nb - b,
    {
        let ghost before = diagnostic_models(diagnostics@);
        if flow.reachable[b] {
            match &incoming[b] {
                Some(state) => {
                    let mut state = copy_types(state);
                    let block = flow.blocks[b];
                    proof {
                        crate::cfg::lemma_block_bounds(flow.blocks@, program.ops@, b as int);
                    }
                    check_range(program, block.start, block.end, index, sites, hosts, file, &mut state, &mut diagnostics);
                },
                None => {
                    assert(diagnostic_models(diagnostics@) =~= before + Seq::<DiagnosticModel>::empty());
                },
            }
        } else {
            assert(diagnostic_models(diagnostics@) =~= before + Seq::<DiagnosticModel>::empty());
        }
        b = b + 1;
    }
    proof {
        assert forall|d: int| 0 <= d < nb && states[d] is Some implies block_closed(p, flow, sites@, hosts@, states, d) by {
            if queued@[d] {
                assert(pending@.contains(d as usize));
            }
        }
        assert forall|d: int, k: int| 0 <= d < nb && states[d] is Some && 0 <= k < succ[d].len() implies {
            let c = #[trigger] succ[d][k] as int;
            &&& states[c] is Some
            &&& merged_state(states[c], block_exit(p, flow, sites@, hosts@, states[d]->0, d)) == states[c]
        } by {
            assert(block_closed(p, flow, sites@, hosts@, states, d));
            assert(succ[d] == flow.successors@[d]@);
        }
        assert(type_states_ok(p, flow, sites@, hosts@, entry_types, states));
    }
    diagnostics
}

proof fn lemma_exit_width(
    p: Program,
    sites: Seq<TypeCheckSite>,
    hosts: Map<u32, HostSignature>,
    s: Seq<Type>,
    a: int,
    b: int,
)
    ensures
        range_check(p, sites, hosts, Seq::empty(), s, a, b).1.len() == s.len(),
    decreases b - a,
{
    if b > a {
        lemma_exit_width(p, sites, hosts, s, a, b - 1);
    }
}

/// After block `t`'s state absorbs `out`, a closed block stays closed,
/// unless it is `t` itself and its state changed.
proof fn lemma_closed_after_type_merge(
    p: Program,
    flow: ControlFlow,
    sites: Seq<TypeCheckSite>,
    hosts: Map<u32, HostSignature>,
    states: Seq<Option<Seq<Type>>>,
    t: int,
    out: Seq<Type>,
    w: nat,
    d: int,
)
    requires
        0 <= t < states.len(),
        0 <= d < states.len(),
        out.len() == w,
        forall|i: int| 0 <= i < states.len() ==> (#[trigger] states[i] matches Some(x) ==> x.len() == w),
        block_closed(p, flow, sites, hosts, states, d),
        d == t ==> merged_state(states[t], out) == states[t],
        forall|k: int|
            0 <= k < flow.successors@[d]@.len() ==> 0 <= #[trigger] flow.successors@[d]@[k] < states.len(),
    ensures
        block_closed(p, flow, sites, hosts, states.update(t, merged_state(states[t], out)), d),
{
    let after = states.update(t, merged_state(states[t], out));
    if merged_state(states[t], out) == states[t] {
        assert(after =~= states);
    } else if let Some(s) = states[d] {
        assert(after[d] == states[d]);
        let succ = flow.successors@[d]@;
        assert forall|k: int| 0 <= k < succ.len() implies {
            let c = #[trigger] succ[k] as int;
            &&& after[c] is Some
            &&& merged_state(after[c], block_exit(p, flow, sites, hosts, s, d)) == after[c]
        } by {
            let c = succ[k] as int;
            let e = block_exit(p, flow, sites, hosts, s, d);
            lemma_exit_width(p, sites, hosts, s, flow.blocks@[d].start as int, flow.blocks@[d].end as int);
            if c == t {
                lemma_merge_absorbs_types(states[t], e, out);
            }
        }
    }
}

/// Checks the sites of `program` with `entry` as the slot types on entry.
fn check_program_types_from_entry(
    program: &Program,
    entry: Vec<Type>,
    sites: &[TypeCheckSite],
    hosts: &HostSignatures,
    file: &str,
) -> (r: Vec<Diagnostic>)
    requires
        program.slots.wf(),
    ensures
        type_check_reports(*program, entry@, sites@, hosts@, file@, diagnostic_models(r@)),
{
    if program.ops.len() == 0 {
        let none: Vec<Diagnostic> = Vec::new();
        assert(diagnostic_models(none@).len() == 0);
        return none;
    }
    let straight = is_straight_line(&program.ops);
    if straight && sites_are_ordered_and_valid(program.ops.len(), sites) {
        return check_ordered_linear(program, entry, sites, hosts, file);
    }
    let ghost start = entry@;
    let index = SiteIndex::new(program.ops.len(), sites);
    if straight {
        let mut state = entry;
        let mut diagnostics: Vec<Diagnostic> = Vec::new();
        assert(diagnostic_models(diagnostics@) =~= Seq::<DiagnosticModel>::empty());
        check_range(program, 0, program.ops.len(), &index, sites, hosts, file, &mut state, &mut diagnostics);
        assert(diagnostic_models(diagnostics@) =~= range_check(
            *program,
            sites@,
            hosts@,
            file@,
            start,
            0,
            program.ops@.len() as int,
        ).0);
        return diagnostics;
    }
    check_with_flow(program, entry, &index, sites, hosts, file)
}

/// Propagates variable types through the program's control flow and checks
/// the sites of its reachable instructions, starting from the types `initial`
/// gives the variables.
///
/// A concrete type survives a join only when every incoming path agrees on
/// it; conflicting assignments leave `Unknown`.
pub fn check_program_types(program: &Program, initial: &Environment, sites: &[TypeCheckSite], file: &str) -> (r: Vec<
    Diagnostic,
>)
    requires
        program.slots.wf(),
    ensures
        type_check_reports(
            *program,
            entry_types(program.slots, *initial),
            sites@,
            Map::<u32, HostSignature>::empty(),
            file@,
            diagnostic_models(r@),
        ),
{
    let hosts: HostSignatures = BTreeMap::new();
    check_program_types_with_hosts(program, initial, sites, &hosts, file)
}

/// Like [`check_program_types`], using the host contracts for the types of
/// bound results and checking the type of each host argument.
pub fn check_program_types_with_hosts(
    program: &Program,
    initial: &Environment,
    sites: &[TypeCheckSite],
    hosts: &HostSignatures,
    file: &str,
) -> (r: Vec<Diagnostic>)
    requires
        program.slots.wf(),
    ensures
        type_check_reports(*program, entry_types(program.slots, *initial), sites@, hosts@, file@, diagnostic_models(r@)),
{
    let entry = entry_state(program, initial);
    check_program_types_from_entry(program, entry, sites, hosts, file)
}

/// Slot types on entry from a dense list: the first slots take the given
/// types, the rest `Unknown`.
pub open spec fn slot_entry(width: nat, initial: Seq<Type>) -> Seq<Type> {
    Seq::new(width, |i: int| if i < initial.len() { initial[i] } else { Type::Unknown })
}

/// Like [`check_program_types`], with the entry types given per slot.
pub fn check_program_types_with_slot_types(
    program: &Program,
    initial: &[Type],
    sites: &[TypeCheckSite],
    file: &str,
) -> (r: Vec<Diagnostic>)
    requires
        program.slots.wf(),
    ensures
        type_check_reports(
            *program,
            slot_entry(program.slots.width(), initial@),
            sites@,
            Map::<u32, HostSignature>::empty(),
            file@,
            diagnostic_models(r@),
        ),
{
    let hosts: HostSignatures = BTreeMap::new();
    check_program_types_with_hosts_and_slot_types(program, initial, sites, &hosts, file)
}

/// Like [`check_program_types_with_hosts`], with the entry types given per
/// slot.
pub fn check_program_types_with_hosts_and_slot_types(
    program: &Program,
    initial: &[Type],
    sites: &[TypeCheckSite],
    hosts: &HostSignatures,
    file: &str,
) -> (r: Vec<Diagnostic>)
    requires
        program.slots.wf(),
    ensures
        type_check_reports(*program, slot_entry(program.slots.width(), initial@), sites@, hosts@, file@, diagnostic_models(r@)),
{
    let width = program.slots.len();
    let mut entry: Vec<Type> = Vec::new();
    let mut i: usize = 0;
    while i < width
        invariant
            i <= width,
            entry@.len() == i,
            forall|x: int| 0 <= x < i ==> #[trigger] entry@[x] == Type::Unknown,
        decreases width - i,
    {
        entry.push(Type::Unknown);
        i = i + 1;
    }
    let copied = if entry.len() < initial.len() { entry.len() } else { initial.len() };
    let mut k: usize = 0;
    while k < copied
        invariant
            k <= copied,
            copied <= width,
            copied <= initial@.len(),
            copied as int == (if (width as int) < initial@.len() { width as int } else { initial@.len() as int }),
            entry@.len() == width,
            forall|x: int| 0 <= x < k ==> #[trigger] entry@[x] == initial@[x],
            forall|x: int| k <= x < width ==> #[trigger] entry@[x] == Type::Unknown,
        decreases copied - k,
    {
        entry.set(k, initial[k]);
        k = k + 1;
    }
    assert(entry@ =~= slot_entry(program.slots.width(), initial@));
    check_program_types_from_entry(program, entry, sites, hosts, file)
}

} // verus!
