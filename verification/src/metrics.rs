//! Resource metrics of built-in results computed from the metrics of their
//! arguments, so that a freshly built collection is not measured again.

use crate::syntax::EvalError;
use crate::text::utf8_len;
use crate::value::{
    max_nat, shape_budget_message, shape_budget_text, text_budget_message, text_budget_text,
    DataFootprint, DataMetrics, Datum, MAX_DATA_DEPTH, MAX_DATA_TEXT_BYTES, MAX_DATA_VALUES,
    Value,
};
use vstd::prelude::*;
use vstd::string::*;

verus! {

/// The metrics of a scalar: one value node, no text, no nesting.
pub open spec fn scalar_model() -> DataMetrics {
    DataMetrics { footprint: DataFootprint { values: 1, text_bytes: 0 }, max_depth: 0 }
}

/// What checking metrics against the data budget gives: the node count and
/// depth are checked before the text size.
pub open spec fn checked_metrics(m: DataMetrics) -> Result<DataMetrics, Seq<char>> {
    if m.footprint.values > MAX_DATA_VALUES || m.max_depth > MAX_DATA_DEPTH {
        Err(shape_budget_message())
    } else if m.footprint.text_bytes > MAX_DATA_TEXT_BYTES {
        Err(text_budget_message())
    } else {
        Ok(m)
    }
}

/// A metric computation's result, with an error taken by its message.
pub open spec fn outcome(r: Result<DataMetrics, EvalError>) -> Result<DataMetrics, Seq<char>> {
    match r {
        Ok(m) => Ok(m),
        Err(e) => Err(e.message@),
    }
}

pub open spec fn value_overflow_message() -> Seq<char> {
    "data value count overflow"@
}

pub open spec fn text_overflow_message() -> Seq<char> {
    "data text size overflow"@
}

/// Whether every metric's depth leaves room for one more level.
pub open spec fn depths_extendable(metrics: Seq<DataMetrics>) -> bool {
    forall|i: int| 0 <= i < metrics.len() ==> (#[trigger] metrics[i]).max_depth < usize::MAX
}

/// The metrics of a collection whose children have the given metrics: one
/// node for the collection, the children's nodes and text, and one level
/// over the deepest child. A running total that leaves `usize` is an error.
pub open spec fn collection_fold(children: Seq<DataMetrics>) -> Result<DataMetrics, Seq<char>>
    decreases children.len(),
{
    if children.len() == 0 {
        Ok(scalar_model())
    } else {
        match collection_fold(children.drop_last()) {
            Err(e) => Err(e),
            Ok(m) => {
                let c = children.last();
                if m.footprint.values + c.footprint.values > usize::MAX {
                    Err(value_overflow_message())
                } else if m.footprint.text_bytes + c.footprint.text_bytes > usize::MAX {
                    Err(text_overflow_message())
                } else {
                    Ok(
                        DataMetrics {
                            footprint: DataFootprint {
                                values: (m.footprint.values + c.footprint.values) as usize,
                                text_bytes: (m.footprint.text_bytes + c.footprint.text_bytes) as usize,
                            },
                            max_depth: max_nat(m.max_depth as nat, (c.max_depth + 1) as nat) as usize,
                        },
                    )
                }
            },
        }
    }
}

/// What measuring a collection of children gives.
pub open spec fn collection_result(children: Seq<DataMetrics>) -> Result<DataMetrics, Seq<char>> {
    match collection_fold(children) {
        Ok(m) => checked_metrics(m),
        Err(e) => Err(e),
    }
}

/// Value nodes of the record values among pairs `i..`.
pub open spec fn pair_values(metrics: Seq<DataMetrics>, i: nat, n: nat) -> nat
    decreases n - i,
{
    if i >= n {
        0
    } else {
        metrics[(2 * i + 1) as int].footprint.values as nat + pair_values(metrics, i + 1, n)
    }
}

/// Text bytes of the keys and record values among pairs `i..`.
pub open spec fn pair_text(args: Seq<Datum>, metrics: Seq<DataMetrics>, i: nat, n: nat) -> nat
    decreases n - i,
{
    if i >= n {
        0
    } else {
        utf8_len(args[2 * i as int]->Text_0) + metrics[(2 * i + 1) as int].footprint.text_bytes as nat
            + pair_text(args, metrics, i + 1, n)
    }
}

/// One level over the deepest record value among pairs `i..`.
pub open spec fn pair_depth(metrics: Seq<DataMetrics>, i: nat, n: nat) -> nat
    decreases n - i,
{
    if i >= n {
        0
    } else {
        max_nat((metrics[(2 * i + 1) as int].max_depth + 1) as nat, pair_depth(metrics, i + 1, n))
    }
}

/// Whether the keys of pairs `0..n` are strings.
pub open spec fn keys_are_text(args: Seq<Datum>, n: nat) -> bool {
    forall|j: int| 0 <= j < n ==> (#[trigger] args[2 * j]) is Text
}

/// The number of pairs the record path measures: pairs of both arrays, up
/// to the shorter one.
pub open spec fn pair_count(args: Seq<Datum>, metrics: Seq<DataMetrics>) -> nat {
    if args.len() <= metrics.len() {
        args.len() / 2
    } else {
        metrics.len() / 2
    }
}

/// The record path: declined (`None`) for an odd argument list, a key that
/// is not a string, or a total that leaves `usize`; otherwise the checked
/// totals.
pub open spec fn record_fast(args: Seq<Datum>, metrics: Seq<DataMetrics>) -> Option<
    Result<DataMetrics, Seq<char>>,
> {
    let n = pair_count(args, metrics);
    if args.len() % 2 != 0 || metrics.len() % 2 != 0 || !keys_are_text(args, n) || 1 + pair_values(
        metrics,
        0,
        n,
    ) > usize::MAX || pair_text(args, metrics, 0, n) > usize::MAX {
        None
    } else {
        Some(
            checked_metrics(
                DataMetrics {
                    footprint: DataFootprint {
                        values: (1 + pair_values(metrics, 0, n)) as usize,
                        text_bytes: pair_text(args, metrics, 0, n) as usize,
                    },
                    max_depth: pair_depth(metrics, 0, n) as usize,
                },
            ),
        )
    }
}

/// The push path: declined unless there are exactly two metrics whose sums
/// fit `usize`.
pub open spec fn push_fast(metrics: Seq<DataMetrics>) -> Option<Result<DataMetrics, Seq<char>>> {
    if metrics.len() != 2 || metrics[0].footprint.values + metrics[1].footprint.values > usize::MAX
        || metrics[0].footprint.text_bytes + metrics[1].footprint.text_bytes > usize::MAX {
        None
    } else {
        Some(
            checked_metrics(
                DataMetrics {
                    footprint: DataFootprint {
                        values: (metrics[0].footprint.values + metrics[1].footprint.values) as usize,
                        text_bytes: (metrics[0].footprint.text_bytes
                            + metrics[1].footprint.text_bytes) as usize,
                    },
                    max_depth: max_nat(
                        metrics[0].max_depth as nat,
                        (metrics[1].max_depth + 1) as nat,
                    ) as usize,
                },
            ),
        )
    }
}

/// The metrics of a scalar value.
pub fn scalar_metrics() -> (r: DataMetrics)
    ensures
        r == scalar_model(),
{
    DataMetrics { footprint: DataFootprint { values: 1, text_bytes: 0 }, max_depth: 0 }
}

/// Checks metrics against the data budget.
pub fn validate_metrics(metrics: DataMetrics, line: usize) -> (r: Result<DataMetrics, EvalError>)
    ensures
        outcome(r) == checked_metrics(metrics),
        r matches Err(e) ==> e.line == line,
{
    if metrics.footprint.values > MAX_DATA_VALUES || metrics.max_depth > MAX_DATA_DEPTH {
        return Err(EvalError::new(line, shape_budget_text()));
    }
    if metrics.footprint.text_bytes > MAX_DATA_TEXT_BYTES {
        return Err(EvalError::new(line, text_budget_text()));
    }
    Ok(metrics)
}

/// A running total that failed stays failed as more children follow.
proof fn lemma_fold_error_persists(children: Seq<DataMetrics>, k: nat)
    requires
        k <= children.len(),
        collection_fold(children.subrange(0, k as int)) is Err,
    ensures
        collection_fold(children) == collection_fold(children.subrange(0, k as int)),
    decreases children.len() - k,
{
    if k < children.len() {
        assert(children.drop_last().subrange(0, k as int) =~= children.subrange(0, k as int));
        lemma_fold_error_persists(children.drop_last(), k);
    } else {
        assert(children.subrange(0, k as int) =~= children);
    }
}

/// The metrics of a collection whose children have the given metrics.
pub fn collection_metrics(children: &[DataMetrics], line: usize) -> (r: Result<DataMetrics, EvalError>)
    requires
        depths_extendable(children@),
    ensures
        outcome(r) == collection_result(children@),
        r matches Err(e) ==> e.line == line,
{
    let mut values: usize = 1;
    let mut text_bytes: usize = 0;
    let mut max_depth: usize = 0;
    let mut i: usize = 0;
    while i < children.len()
        invariant
            i <= children@.len(),
            depths_extendable(children@),
            collection_fold(children@.subrange(0, i as int)) == Ok::<DataMetrics, Seq<char>>(
                DataMetrics { footprint: DataFootprint { values, text_bytes }, max_depth },
            ),
        decreases children@.len() - i,
    {
        let child = children[i];
        proof {
            assert(children@.subrange(0, i + 1).drop_last() =~= children@.subrange(0, i as int));
            assert(children@.subrange(0, i + 1).last() == child);
            assert(child.max_depth < usize::MAX);
        }
        if values > usize::MAX - child.footprint.values {
            proof {
                lemma_fold_error_persists(children@, (i + 1) as nat);
            }
            return Err(EvalError::new(line, "data value count overflow"));
        }
        values = values + child.footprint.values;
        if text_bytes > usize::MAX - child.footprint.text_bytes {
            proof {
                lemma_fold_error_persists(children@, (i + 1) as nat);
            }
            return Err(EvalError::new(line, "data text size overflow"));
        }
        text_bytes = text_bytes + child.footprint.text_bytes;
        let deeper = child.max_depth + 1;
        if deeper > max_depth {
            max_depth = deeper;
        }
        i = i + 1;
    }
    proof {
        assert(children@.subrange(0, children@.len() as int) =~= children@);
    }
    validate_metrics(DataMetrics { footprint: DataFootprint { values, text_bytes }, max_depth }, line)
}

/// `pair_values` grows as pairs are added in front.
proof fn lemma_pair_sums_grow(args: Seq<Datum>, metrics: Seq<DataMetrics>, i: nat, n: nat)
    ensures
        pair_values(metrics, 0, n) >= pair_values(metrics, i, n),
        pair_text(args, metrics, 0, n) >= pair_text(args, metrics, i, n),
    decreases i,
{
    if i > 0 && i <= n {
        lemma_pair_sums_grow(args, metrics, (i - 1) as nat, n);
    }
}

/// The metrics of a record built from `key, value` pairs, when every key is
/// a string and the totals fit; `None` declines the shortcut.
pub fn record_metrics(values: &[Value], metrics: &[DataMetrics], line: usize) -> (r: Option<
    Result<DataMetrics, EvalError>,
>)
    requires
        depths_extendable(metrics@),
    ensures
        r matches Some(result) ==> record_fast(crate::value::view_items(values@), metrics@) == Some(outcome(result)),
        r is None ==> record_fast(crate::value::view_items(values@), metrics@) is None,
        r matches Some(Err(e)) ==> e.line == line,
{
    let ghost args = crate::value::view_items(values@);
    proof {
        crate::value::lemma_view_items(values@);
    }
    if values.len() % 2 != 0 || metrics.len() % 2 != 0 {
        return None;
    }
    let n: usize = if values.len() <= metrics.len() {
        values.len() / 2
    } else {
        metrics.len() / 2
    };
    assert(n == pair_count(args, metrics@));
    let mut total_values: usize = 1;
    let mut total_text: usize = 0;
    let mut depth: usize = 0;
    let mut i: usize = n;
    while i > 0
        invariant
            i <= n,
            n == pair_count(args, metrics@),
            2 * n <= values@.len(),
            2 * n <= metrics@.len(),
            values@.len() <= usize::MAX,
            args == crate::value::view_items(values@),
            args.len() == values@.len(),
            forall|j: int| 0 <= j < values@.len() ==> #[trigger] args[j] == values@[j]@,
            depths_extendable(metrics@),
            forall|j: int| i <= j < n ==> (#[trigger] args[2 * j]) is Text,
            total_values == 1 + pair_values(metrics@, i as nat, n as nat),
            total_text == pair_text(args, metrics@, i as nat, n as nat),
            depth == pair_depth(metrics@, i as nat, n as nat),
        decreases i,
    {
        i = i - 1;
        let key = &values[2 * i];
        let value = metrics[2 * i + 1];
        assert(value.max_depth < usize::MAX);
        match key {
            Value::String(k) => {
                let key_bytes = k.as_str().as_bytes().len();
                assert(args[2 * i as int] == Datum::Text(k@));
                assert(key_bytes == utf8_len(k@));
                if total_values > usize::MAX - value.footprint.values {
                    proof {
                        lemma_pair_sums_grow(args, metrics@, i as nat, n as nat);
                    }
                    return None;
                }
                if total_text > usize::MAX - key_bytes || total_text + key_bytes > usize::MAX
                    - value.footprint.text_bytes {
                    proof {
                        lemma_pair_sums_grow(args, metrics@, i as nat, n as nat);
                    }
                    return None;
                }
                total_values = total_values + value.footprint.values;
                total_text = total_text + key_bytes + value.footprint.text_bytes;
                let deeper = value.max_depth + 1;
                if deeper > depth {
                    depth = deeper;
                }
            },
            _ => {
                assert(!(args[2 * i as int] is Text));
                assert(!keys_are_text(args, n as nat));
                return None;
            },
        }
    }
    assert(keys_are_text(args, n as nat));
    Some(
        validate_metrics(
            DataMetrics { footprint: DataFootprint { values: total_values, text_bytes: total_text }, max_depth: depth },
            line,
        ),
    )
}

/// The metrics of a list after `push`, from the metrics of the list and of
/// the pushed value; `None` declines the shortcut.
pub fn push_metrics(metrics: &[DataMetrics], line: usize) -> (r: Option<Result<DataMetrics, EvalError>>)
    requires
        depths_extendable(metrics@),
    ensures
        r matches Some(result) ==> push_fast(metrics@) == Some(outcome(result)),
        r is None ==> push_fast(metrics@) is None,
        r matches Some(Err(e)) ==> e.line == line,
{
    if metrics.len() != 2 {
        return None;
    }
    let source = metrics[0];
    let value = metrics[1];
    assert(value.max_depth < usize::MAX);
    if source.footprint.values > usize::MAX - value.footprint.values {
        return None;
    }
    if source.footprint.text_bytes > usize::MAX - value.footprint.text_bytes {
        return None;
    }
    let deeper = value.max_depth + 1;
    let max_depth = if source.max_depth >= deeper {
        source.max_depth
    } else {
        deeper
    };
    Some(
        validate_metrics(
            DataMetrics {
                footprint: DataFootprint {
                    values: source.footprint.values + value.footprint.values,
                    text_bytes: source.footprint.text_bytes + value.footprint.text_bytes,
                },
                max_depth,
            },
            line,
        ),
    )
}

} // verus!
