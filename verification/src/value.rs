//! The deterministic value model: integers, booleans, strings, lists and
//! records, together with their resource metrics and display form.
//!
//! Records keep their entries ordered by key (code point order) with no
//! duplicate keys, so two records are equal exactly when they map the same
//! keys to equal values.

use crate::text::{decimal, lemma_utf8_len_concat, render_integer, text_less, utf8_len};
use vstd::prelude::*;
use vstd::string::*;

verus! {

/// Maximum number of value nodes in one value.
pub const MAX_DATA_VALUES: usize = 4096;

/// Maximum collection nesting depth of one value.
pub const MAX_DATA_DEPTH: usize = 16;

/// Maximum UTF-8 bytes of text held by one value (1 MiB).
pub const MAX_DATA_TEXT_BYTES: usize = 1048576;

/// Maximum number of arguments accepted by `list` and `record`.
pub const MAX_BUILTIN_ARGUMENTS: usize = 128;

/// A unary operator.
#[derive(Debug, Clone, Copy, PartialEq, Eq, Structural)]
pub enum UnaryOp {
    Negate,
    Not,
}

/// A binary operator.
#[derive(Debug, Clone, Copy, PartialEq, Eq, Structural)]
pub enum BinaryOp {
    Add,
    Subtract,
    Multiply,
    Divide,
    Equal,
    NotEqual,
    Less,
    LessEqual,
    Greater,
    GreaterEqual,
    And,
    Or,
}

/// The closed set of built-in functions.
#[derive(Debug, Clone, Copy, PartialEq, Eq, Structural)]
pub enum Builtin {
    List,
    Record,
    Get,
    Put,
    Push,
    Remove,
    Len,
    Contains,
    Random,
    Chance,
}

/// The argument counts each built-in accepts.
pub open spec fn builtin_accepts(function: Builtin, count: nat) -> bool {
    match function {
        Builtin::List => count <= MAX_BUILTIN_ARGUMENTS,
        Builtin::Record => count % 2 == 0 && count <= MAX_BUILTIN_ARGUMENTS,
        Builtin::Get => count == 2 || count == 3,
        Builtin::Put => count == 3,
        Builtin::Push => count == 2,
        Builtin::Remove => count == 2,
        Builtin::Len => count == 1,
        Builtin::Contains => count == 2,
        Builtin::Random => count == 2,
        Builtin::Chance => count == 1,
    }
}

impl Builtin {
    /// Whether this built-in accepts `count` arguments.
    pub fn accepts(&self, count: usize) -> (r: bool)
        ensures
            r == builtin_accepts(*self, count as nat),
    {
        match self {
            Builtin::List => count <= MAX_BUILTIN_ARGUMENTS,
            Builtin::Record => count % 2 == 0 && count <= MAX_BUILTIN_ARGUMENTS,
            Builtin::Get => count == 2 || count == 3,
            Builtin::Put => count == 3,
            Builtin::Push => count == 2,
            Builtin::Remove => count == 2,
            Builtin::Len => count == 1,
            Builtin::Contains => count == 2,
            Builtin::Random => count == 2,
            Builtin::Chance => count == 1,
        }
    }
}

/// A runtime value.
#[derive(Debug, PartialEq, Eq)]
pub enum Value {
    Integer(i64),
    Boolean(bool),
    String(String),
    List(Vec<Value>),
    Record(Vec<(String, Value)>),
}

/// The mathematical model of a [`Value`].
pub enum Datum {
    Integer(int),
    Boolean(bool),
    Text(Seq<char>),
    List(Seq<Datum>),
    Record(Seq<(Seq<char>, Datum)>),
}

pub open spec fn view_items(s: Seq<Value>) -> Seq<Datum>
    decreases s, 0int,
{
    if s.len() == 0 {
        Seq::empty()
    } else {
        view_items(s.subrange(0, s.len() - 1)).push(view_value(s[s.len() - 1]))
    }
}

pub open spec fn view_entries(s: Seq<(String, Value)>) -> Seq<(Seq<char>, Datum)>
    decreases s, 0int,
{
    if s.len() == 0 {
        Seq::empty()
    } else {
        view_entries(s.subrange(0, s.len() - 1)).push(
            (s[s.len() - 1].0@, view_value(s[s.len() - 1].1)),
        )
    }
}

pub open spec fn view_value(v: Value) -> Datum
    decreases v, 1int,
{
    match v {
        Value::Integer(n) => Datum::Integer(n as int),
        Value::Boolean(b) => Datum::Boolean(b),
        Value::String(s) => Datum::Text(s@),
        Value::List(items) => Datum::List(view_items(items@)),
        Value::Record(entries) => Datum::Record(view_entries(entries@)),
    }
}

impl View for Value {
    type V = Datum;

    open spec fn view(&self) -> Datum {
        view_value(*self)
    }
}

/// The model of a list is the pointwise model of its items.
pub proof fn lemma_view_items(s: Seq<Value>)
    ensures
        view_items(s).len() == s.len(),
        forall|i: int| 0 <= i < s.len() ==> #[trigger] view_items(s)[i] == view_value(s[i]),
    decreases s.len(),
{
    if s.len() > 0 {
        lemma_view_items(s.subrange(0, s.len() - 1));
    }
}

/// The model of a record is the pointwise model of its entries.
pub proof fn lemma_view_entries(s: Seq<(String, Value)>)
    ensures
        view_entries(s).len() == s.len(),
        forall|i: int|
            0 <= i < s.len() ==> #[trigger] view_entries(s)[i] == (s[i].0@, view_value(s[i].1)),
    decreases s.len(),
{
    if s.len() > 0 {
        lemma_view_entries(s.subrange(0, s.len() - 1));
    }
}

/// Stable name of a value's type, used in diagnostics.
pub open spec fn kind_name(d: Datum) -> Seq<char> {
    match d {
        Datum::Integer(_) => "integer"@,
        Datum::Boolean(_) => "boolean"@,
        Datum::Text(_) => "string"@,
        Datum::List(_) => "list"@,
        Datum::Record(_) => "record"@,
    }
}

/// Keys of a record are strictly increasing.
pub open spec fn keys_ordered(entries: Seq<(Seq<char>, Datum)>) -> bool {
    forall|i: int, j: int|
        0 <= i < j < entries.len() ==> text_less(#[trigger] entries[i].0, #[trigger] entries[j].0)
}

/// Every record inside `d` keeps its keys strictly increasing.
pub open spec fn well_formed(d: Datum) -> bool
    decreases d, 1int,
{
    match d {
        Datum::List(items) => items_well_formed(items),
        Datum::Record(entries) => keys_ordered(entries) && entries_well_formed(entries),
        _ => true,
    }
}

pub open spec fn items_well_formed(s: Seq<Datum>) -> bool
    decreases s, 0int,
{
    if s.len() == 0 {
        true
    } else {
        items_well_formed(s.subrange(0, s.len() - 1)) && well_formed(s[s.len() - 1])
    }
}

pub open spec fn entries_well_formed(s: Seq<(Seq<char>, Datum)>) -> bool
    decreases s, 0int,
{
    if s.len() == 0 {
        true
    } else {
        entries_well_formed(s.subrange(0, s.len() - 1)) && well_formed(s[s.len() - 1].1)
    }
}

/// Number of value nodes (each scalar and each collection counts one).
pub open spec fn node_count(d: Datum) -> nat
    decreases d, 1int,
{
    match d {
        Datum::List(items) => 1 + items_node_count(items),
        Datum::Record(entries) => 1 + entries_node_count(entries),
        _ => 1,
    }
}

pub open spec fn items_node_count(s: Seq<Datum>) -> nat
    decreases s, 0int,
{
    if s.len() == 0 {
        0
    } else {
        items_node_count(s.subrange(0, s.len() - 1)) + node_count(s[s.len() - 1])
    }
}

pub open spec fn entries_node_count(s: Seq<(Seq<char>, Datum)>) -> nat
    decreases s, 0int,
{
    if s.len() == 0 {
        0
    } else {
        entries_node_count(s.subrange(0, s.len() - 1)) + node_count(s[s.len() - 1].1)
    }
}

/// UTF-8 bytes of text held by a value: strings and record keys.
pub open spec fn text_size(d: Datum) -> nat
    decreases d, 1int,
{
    match d {
        Datum::Text(s) => utf8_len(s),
        Datum::List(items) => items_text_size(items),
        Datum::Record(entries) => entries_text_size(entries),
        _ => 0,
    }
}

pub open spec fn items_text_size(s: Seq<Datum>) -> nat
    decreases s, 0int,
{
    if s.len() == 0 {
        0
    } else {
        items_text_size(s.subrange(0, s.len() - 1)) + text_size(s[s.len() - 1])
    }
}

pub open spec fn entries_text_size(s: Seq<(Seq<char>, Datum)>) -> nat
    decreases s, 0int,
{
    if s.len() == 0 {
        0
    } else {
        entries_text_size(s.subrange(0, s.len() - 1)) + utf8_len(s[s.len() - 1].0) + text_size(
            s[s.len() - 1].1,
        )
    }
}

pub open spec fn max_nat(a: nat, b: nat) -> nat {
    if a >= b {
        a
    } else {
        b
    }
}

/// Collection nesting depth: scalars and empty collections have depth 0.
pub open spec fn nesting(d: Datum) -> nat
    decreases d, 1int,
{
    match d {
        Datum::List(items) => items_nesting(items),
        Datum::Record(entries) => entries_nesting(entries),
        _ => 0,
    }
}

pub open spec fn items_nesting(s: Seq<Datum>) -> nat
    decreases s, 0int,
{
    if s.len() == 0 {
        0
    } else {
        max_nat(items_nesting(s.subrange(0, s.len() - 1)), nesting(s[s.len() - 1]) + 1)
    }
}

pub open spec fn entries_nesting(s: Seq<(Seq<char>, Datum)>) -> nat
    decreases s, 0int,
{
    if s.len() == 0 {
        0
    } else {
        max_nat(entries_nesting(s.subrange(0, s.len() - 1)), nesting(s[s.len() - 1].1) + 1)
    }
}

/// The resource footprint of a value.
#[derive(Debug, Clone, Copy, PartialEq, Eq, Default, Structural)]
pub struct DataFootprint {
    pub values: usize,
    pub text_bytes: usize,
}

/// The resource footprint and nesting depth of a value.
#[derive(Debug, Clone, Copy, PartialEq, Eq, Default, Structural)]
pub struct DataMetrics {
    pub footprint: DataFootprint,
    pub max_depth: usize,
}

/// Whether a value fits the per-value data budget.
pub open spec fn within_budget(d: Datum) -> bool {
    &&& node_count(d) <= MAX_DATA_VALUES
    &&& nesting(d) <= MAX_DATA_DEPTH
    &&& text_size(d) <= MAX_DATA_TEXT_BYTES
}

/// The exact metrics of a value.
pub open spec fn metrics_of(m: DataMetrics, d: Datum) -> bool {
    &&& m.footprint.values == node_count(d)
    &&& m.footprint.text_bytes == text_size(d)
    &&& m.max_depth == nesting(d)
}

/// The error for a value that exceeds the node or depth budget.
pub open spec fn shape_budget_message() -> Seq<char> {
    "data exceeds 4096 values or 16 nesting levels"@
}

/// The error for a value that exceeds the text budget.
pub open spec fn text_budget_message() -> Seq<char> {
    "data text exceeds 1 MiB"@
}

/// What measuring a value returns: its metrics when within budget, otherwise
/// the budget it exceeds (node count and depth are checked before text).
pub open spec fn budget_error(d: Datum) -> Seq<char> {
    if node_count(d) > MAX_DATA_VALUES || nesting(d) > MAX_DATA_DEPTH {
        shape_budget_message()
    } else {
        text_budget_message()
    }
}

pub open spec fn cap(n: nat, limit: nat) -> nat {
    if n <= limit {
        n
    } else {
        limit + 1
    }
}

pub fn shape_budget_text() -> (r: &'static str)
    ensures
        r@ == shape_budget_message(),
{
    "data exceeds 4096 values or 16 nesting levels"
}

pub fn text_budget_text() -> (r: &'static str)
    ensures
        r@ == text_budget_message(),
{
    "data text exceeds 1 MiB"
}

/// Measures a value with every count capped one past its budget.
#[verifier::loop_isolation(false)]
fn measure(v: &Value) -> (r: (usize, usize, usize))
    ensures
        r.0 == cap(node_count(v@), MAX_DATA_VALUES as nat),
        r.1 == cap(text_size(v@), MAX_DATA_TEXT_BYTES as nat),
        r.2 == cap(nesting(v@), MAX_DATA_DEPTH as nat),
    decreases v,
{
    match v {
        Value::Integer(_) => (1, 0, 0),
        Value::Boolean(_) => (1, 0, 0),
        Value::String(s) => {
            let n = s.as_str().as_bytes().len();
            if n <= MAX_DATA_TEXT_BYTES {
                (1, n, 0)
            } else {
                (1, MAX_DATA_TEXT_BYTES + 1, 0)
            }
        },
        Value::List(items) => {
            let mut values: usize = 0;
            let mut text: usize = 0;
            let mut depth: usize = 0;
            let mut i: usize = 0;
            while i < items.len()
                invariant
                    i <= items@.len(),
                    values == cap(items_node_count(view_items(items@.subrange(0, i as int))), MAX_DATA_VALUES as nat),
                    text == cap(items_text_size(view_items(items@.subrange(0, i as int))), MAX_DATA_TEXT_BYTES as nat),
                    depth == cap(items_nesting(view_items(items@.subrange(0, i as int))), MAX_DATA_DEPTH as nat),
                decreases items@.len() - i,
            {
                proof {
                    assert(items@.subrange(0, i + 1).subrange(0, i as int) =~= items@.subrange(0, i as int));
                    assert(items@.subrange(0, i + 1)[i as int] == items@[i as int]);
                    lemma_view_items(items@.subrange(0, i + 1));
                    lemma_view_items(items@.subrange(0, i as int));
                    assert(view_items(items@.subrange(0, i + 1)).subrange(0, i as int) =~= view_items(items@.subrange(0, i as int)));
                }
                let (cv, ct, cd) = measure(&items[i]);
                values = if values + cv <= MAX_DATA_VALUES { values + cv } else { MAX_DATA_VALUES + 1 };
                text = if text + ct <= MAX_DATA_TEXT_BYTES { text + ct } else { MAX_DATA_TEXT_BYTES + 1 };
                let nd = cd + 1;
                depth = if nd > depth { if nd <= MAX_DATA_DEPTH { nd } else { MAX_DATA_DEPTH + 1 } } else { depth };
                i = i + 1;
            }
            proof {
                assert(items@.subrange(0, items@.len() as int) =~= items@);
            }
            let total = if values + 1 <= MAX_DATA_VALUES { values + 1 } else { MAX_DATA_VALUES + 1 };
            (total, text, depth)
        },
        Value::Record(entries) => {
            let mut values: usize = 0;
            let mut text: usize = 0;
            let mut depth: usize = 0;
            let mut i: usize = 0;
            while i < entries.len()
                invariant
                    i <= entries@.len(),
                    values == cap(entries_node_count(view_entries(entries@.subrange(0, i as int))), MAX_DATA_VALUES as nat),
                    text == cap(entries_text_size(view_entries(entries@.subrange(0, i as int))), MAX_DATA_TEXT_BYTES as nat),
                    depth == cap(entries_nesting(view_entries(entries@.subrange(0, i as int))), MAX_DATA_DEPTH as nat),
                decreases entries@.len() - i,
            {
                proof {
                    assert(entries@.subrange(0, i + 1).subrange(0, i as int) =~= entries@.subrange(0, i as int));
                    assert(entries@.subrange(0, i + 1)[i as int] == entries@[i as int]);
                    lemma_view_entries(entries@.subrange(0, i + 1));
                    lemma_view_entries(entries@.subrange(0, i as int));
                    assert(view_entries(entries@.subrange(0, i + 1)).subrange(0, i as int) =~= view_entries(entries@.subrange(0, i as int)));
                }
                let (cv, ct, cd) = measure(&entries[i].1);
                let key_len = entries[i].0.as_str().as_bytes().len();
                values = if values + cv <= MAX_DATA_VALUES { values + cv } else { MAX_DATA_VALUES + 1 };
                let kt = if key_len <= MAX_DATA_TEXT_BYTES { key_len } else { MAX_DATA_TEXT_BYTES + 1 };
                text = if text + kt + ct <= MAX_DATA_TEXT_BYTES { text + kt + ct } else { MAX_DATA_TEXT_BYTES + 1 };
                let nd = cd + 1;
                depth = if nd > depth { if nd <= MAX_DATA_DEPTH { nd } else { MAX_DATA_DEPTH + 1 } } else { depth };
                i = i + 1;
            }
            proof {
                assert(entries@.subrange(0, entries@.len() as int) =~= entries@);
            }
            let total = if values + 1 <= MAX_DATA_VALUES { values + 1 } else { MAX_DATA_VALUES + 1 };
            (total, text, depth)
        },
    }
}

impl Value {
    /// Measures this value, rejecting it when it exceeds the data budget.
    pub fn data_metrics(&self) -> (r: Result<DataMetrics, &'static str>)
        ensures
            within_budget(self@) <==> r is Ok,
            r matches Ok(m) ==> metrics_of(m, self@),
            r matches Err(e) ==> e@ == budget_error(self@),
    {
        let (values, text, depth) = measure(self);
        if values > MAX_DATA_VALUES || depth > MAX_DATA_DEPTH {
            Err(shape_budget_text())
        } else if text > MAX_DATA_TEXT_BYTES {
            Err(text_budget_text())
        } else {
            Ok(DataMetrics { footprint: DataFootprint { values, text_bytes: text }, max_depth: depth })
        }
    }

    /// The footprint of this value, rejecting it when it exceeds the budget.
    pub fn data_footprint(&self) -> (r: Result<DataFootprint, &'static str>)
        ensures
            within_budget(self@) <==> r is Ok,
            r matches Ok(f) ==> f.values == node_count(self@) && f.text_bytes == text_size(self@),
            r matches Err(e) ==> e@ == budget_error(self@),
    {
        match self.data_metrics() {
            Ok(m) => Ok(m.footprint),
            Err(e) => Err(e),
        }
    }

    /// Checks this value against the data budget.
    pub fn validate_data(&self) -> (r: Result<(), &'static str>)
        ensures
            within_budget(self@) <==> r is Ok,
            r matches Err(e) ==> e@ == budget_error(self@),
    {
        match self.data_metrics() {
            Ok(_) => Ok(()),
            Err(e) => Err(e),
        }
    }

    /// The name of this value's type.
    pub fn kind_name(&self) -> (r: &'static str)
        ensures
            r@ == kind_name(self@),
    {
        match self {
            Value::Integer(_) => "integer",
            Value::Boolean(_) => "boolean",
            Value::String(_) => "string",
            Value::List(_) => "list",
            Value::Record(_) => "record",
        }
    }

    /// A deep copy with the same model.
    #[verifier::loop_isolation(false)]
    pub fn duplicate(&self) -> (r: Value)
        ensures
            r@ == self@,
        decreases self,
    {
        match self {
            Value::Integer(n) => Value::Integer(*n),
            Value::Boolean(b) => Value::Boolean(*b),
            Value::String(s) => Value::String(s.clone()),
            Value::List(items) => {
                let mut copy: Vec<Value> = Vec::new();
                let mut i: usize = 0;
                while i < items.len()
                    invariant
                        i <= items@.len(),
                        copy@.len() == i,
                        forall|j: int| 0 <= j < i ==> view_value(#[trigger] copy@[j]) == view_value(items@[j]),
                    decreases items@.len() - i,
                {
                    let item = items[i].duplicate();
                    copy.push(item);
                    i = i + 1;
                }
                proof {
                    lemma_view_items(copy@);
                    lemma_view_items(items@);
                    assert(view_items(copy@) =~= view_items(items@));
                }
                Value::List(copy)
            },
            Value::Record(entries) => {
                let mut copy: Vec<(String, Value)> = Vec::new();
                let mut i: usize = 0;
                while i < entries.len()
                    invariant
                        i <= entries@.len(),
                        copy@.len() == i,
                        forall|j: int|
                            0 <= j < i ==> (#[trigger] copy@[j]).0@ == entries@[j].0@ && view_value(copy@[j].1)
                                == view_value(entries@[j].1),
                    decreases entries@.len() - i,
                {
                    let key = entries[i].0.clone();
                    let item = entries[i].1.duplicate();
                    copy.push((key, item));
                    i = i + 1;
                }
                proof {
                    lemma_view_entries(copy@);
                    lemma_view_entries(entries@);
                    assert(view_entries(copy@) =~= view_entries(entries@));
                }
                Value::Record(copy)
            },
        }
    }
}

/// Structural equality of two values' models.
#[verifier::loop_isolation(false)]
pub fn values_equal(a: &Value, b: &Value) -> (r: bool)
    ensures
        r == (a@ == b@),
    decreases a,
{
    match (a, b) {
        (Value::Integer(x), Value::Integer(y)) => *x == *y,
        (Value::Boolean(x), Value::Boolean(y)) => *x == *y,
        (Value::String(x), Value::String(y)) => *x == *y,
        (Value::List(x), Value::List(y)) => {
            proof {
                lemma_view_items(x@);
                lemma_view_items(y@);
            }
            if x.len() != y.len() {
                return false;
            }
            let mut i: usize = 0;
            while i < x.len()
                invariant
                    x@.len() == y@.len(),
                    i <= x@.len(),
                    forall|j: int| 0 <= j < i ==> view_value(#[trigger] x@[j]) == view_value(y@[j]),
                decreases x@.len() - i,
            {
                if !values_equal(&x[i], &y[i]) {
                    assert(view_items(x@)[i as int] != view_items(y@)[i as int]);
                    return false;
                }
                i = i + 1;
            }
            assert(view_items(x@) =~= view_items(y@));
            true
        },
        (Value::Record(x), Value::Record(y)) => {
            proof {
                lemma_view_entries(x@);
                lemma_view_entries(y@);
            }
            if x.len() != y.len() {
                return false;
            }
            let mut i: usize = 0;
            while i < x.len()
                invariant
                    x@.len() == y@.len(),
                    i <= x@.len(),
                    forall|j: int| 0 <= j < i ==> (#[trigger] x@[j]).0@ == y@[j].0@ && view_value(x@[j].1) == view_value(y@[j].1),
                decreases x@.len() - i,
            {
                if !(x[i].0 == y[i].0) {
                    assert(view_entries(x@)[i as int] != view_entries(y@)[i as int]);
                    return false;
                }
                if !values_equal(&x[i].1, &y[i].1) {
                    assert(view_entries(x@)[i as int] != view_entries(y@)[i as int]);
                    return false;
                }
                i = i + 1;
            }
            assert(view_entries(x@) =~= view_entries(y@));
            true
        },
        _ => false,
    }
}


/// The display form of a value: integers in decimal, booleans as
/// `true`/`false`, strings unquoted, lists as `[a, b]` and records as
/// `{key: value, ...}` in key order.
pub open spec fn display(d: Datum) -> Seq<char>
    decreases d, 1int,
{
    match d {
        Datum::Integer(n) => decimal(n),
        Datum::Boolean(b) => if b {
            "true"@
        } else {
            "false"@
        },
        Datum::Text(s) => s,
        Datum::List(items) => "["@ + display_items(items) + "]"@,
        Datum::Record(entries) => "{"@ + display_entries(entries) + "}"@,
    }
}

pub open spec fn display_items(s: Seq<Datum>) -> Seq<char>
    decreases s, 0int,
{
    if s.len() == 0 {
        Seq::empty()
    } else if s.len() == 1 {
        display(s[0])
    } else {
        display_items(s.subrange(0, s.len() - 1)) + ", "@ + display(s[s.len() - 1])
    }
}

pub open spec fn display_entries(s: Seq<(Seq<char>, Datum)>) -> Seq<char>
    decreases s, 0int,
{
    if s.len() == 0 {
        Seq::empty()
    } else if s.len() == 1 {
        s[0].0 + ": "@ + display(s[0].1)
    } else {
        display_entries(s.subrange(0, s.len() - 1)) + ", "@ + s[s.len() - 1].0 + ": "@ + display(
            s[s.len() - 1].1,
        )
    }
}

impl Value {
    /// The display form of this value.
    #[verifier::loop_isolation(false)]
    pub fn to_display(&self) -> (r: String)
        ensures
            r@ == display(self@),
        decreases self,
    {
        match self {
            Value::Integer(n) => render_integer(*n),
            Value::Boolean(b) => {
                if *b {
                    String::from_str("true")
                } else {
                    String::from_str("false")
                }
            },
            Value::String(s) => s.clone(),
            Value::List(items) => {
                let mut out = String::from_str("[");
                let mut i: usize = 0;
                while i < items.len()
                    invariant
                        i <= items@.len(),
                        out@ == "["@ + display_items(view_items(items@.subrange(0, i as int))),
                    decreases items@.len() - i,
                {
                    proof {
                        assert(items@.subrange(0, i + 1).subrange(0, i as int) =~= items@.subrange(0, i as int));
                        assert(items@.subrange(0, i + 1)[i as int] == items@[i as int]);
                        lemma_view_items(items@.subrange(0, i as int));
                    }
                    if i > 0 {
                        out.append(", ");
                    }
                    let piece = items[i].to_display();
                    out.append(piece.as_str());
                    proof {
                        let before = view_items(items@.subrange(0, i as int));
                        let after = view_items(items@.subrange(0, i + 1));
                        assert(after == before.push(view_value(items@[i as int])));
                        assert(after.subrange(0, after.len() - 1) =~= before);
                        if i == 0 {
                            assert(before.len() == 0);
                            assert(display_items(before) =~= Seq::<char>::empty());
                        }
                    }
                    i = i + 1;
                }
                out.append("]");
                proof {
                    assert(items@.subrange(0, items@.len() as int) =~= items@);
                }
                out
            },
            Value::Record(entries) => {
                let mut out = String::from_str("{");
                let mut i: usize = 0;
                while i < entries.len()
                    invariant
                        i <= entries@.len(),
                        out@ == "{"@ + display_entries(view_entries(entries@.subrange(0, i as int))),
                    decreases entries@.len() - i,
                {
                    proof {
                        assert(entries@.subrange(0, i + 1).subrange(0, i as int) =~= entries@.subrange(0, i as int));
                        assert(entries@.subrange(0, i + 1)[i as int] == entries@[i as int]);
                        lemma_view_entries(entries@.subrange(0, i as int));
                    }
                    if i > 0 {
                        out.append(", ");
                    }
                    out.append(entries[i].0.as_str());
                    out.append(": ");
                    let piece = entries[i].1.to_display();
                    out.append(piece.as_str());
                    proof {
                        let before = view_entries(entries@.subrange(0, i as int));
                        let after = view_entries(entries@.subrange(0, i + 1));
                        assert(after == before.push((entries@[i as int].0@, view_value(entries@[i as int].1))));
                        assert(after.subrange(0, after.len() - 1) =~= before);
                        if i == 0 {
                            assert(before.len() == 0);
                            assert(display_entries(before) =~= Seq::<char>::empty());
                        }
                    }
                    i = i + 1;
                }
                out.append("}");
                proof {
                    assert(entries@.subrange(0, entries@.len() as int) =~= entries@);
                }
                out
            },
        }
    }

    /// Appends the display form to `output` unless the result would exceed
    /// `limit` UTF-8 bytes, in which case `output` is left unchanged.
    pub fn append_to_display(&self, output: &mut String, limit: usize) -> (r: Result<(), ()>)
        ensures
            r is Ok <==> utf8_len(old(output)@ + display(self@)) <= limit,
            r is Ok ==> final(output)@ == old(output)@ + display(self@),
            r is Err ==> final(output)@ == old(output)@,
    {
        let piece = self.to_display();
        let used = output.as_str().as_bytes().len();
        let extra = piece.as_str().as_bytes().len();
        proof {
            lemma_utf8_len_concat(old(output)@, piece@);
        }
        if used > limit || extra > limit - used {
            return Err(());
        }
        output.append(piece.as_str());
        Ok(())
    }

    /// The display form, rejected when it exceeds the 1 MiB text budget.
    pub fn try_to_display(&self) -> (r: Result<String, &'static str>)
        ensures
            r is Ok <==> utf8_len(display(self@)) <= MAX_DATA_TEXT_BYTES,
            r matches Ok(s) ==> s@ == display(self@),
            r matches Err(e) ==> e@ == text_budget_message(),
    {
        let piece = self.to_display();
        if piece.as_str().as_bytes().len() > MAX_DATA_TEXT_BYTES {
            Err(text_budget_text())
        } else {
            Ok(piece)
        }
    }
}

} // verus!
