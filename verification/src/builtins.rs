//! The closed set of deterministic built-in functions.
//!
//! Built-ins are pure value operations except the random draws, whose
//! SplitMix64 state is supplied explicitly by the caller. Every owned result
//! is checked against the shared data budget.

use crate::syntax::EvalError;
use crate::text::{text_less, utf8_len};
use crate::value::{
    budget_error, builtin_accepts, entries_nesting, entries_node_count, entries_text_size,
    items_nesting, items_node_count, items_text_size, lemma_view_entries, lemma_view_items,
    max_nat, metrics_of, nesting, node_count, text_size, values_equal, view_entries, view_items,
    view_value, within_budget, Builtin, DataFootprint, DataMetrics, Datum, Value,
};
use crate::metrics::{
    checked_metrics, collection_fold, collection_metrics, collection_result, depths_extendable, keys_are_text, pair_count,
    pair_depth, pair_text, pair_values, push_fast, push_metrics, record_fast, record_metrics,
    scalar_metrics, scalar_model,
};
use vstd::prelude::*;
use vstd::string::*;

verus! {

// ---------------------------------------------------------------------------
// Record and text helpers (specification)
// ---------------------------------------------------------------------------

/// Index of the first entry with key `key`.
pub open spec fn find_key(entries: Seq<(Seq<char>, Datum)>, key: Seq<char>) -> Option<int>
    decreases entries.len(),
{
    if entries.len() == 0 {
        None
    } else if entries[0].0 == key {
        Some(0)
    } else {
        match find_key(entries.subrange(1, entries.len() as int), key) {
            Some(i) => Some(i + 1),
            None => None,
        }
    }
}

/// Number of leading entries whose key orders before `key`: the position at
/// which `key` is inserted into an ordered record.
pub open spec fn lower_bound(entries: Seq<(Seq<char>, Datum)>, key: Seq<char>) -> int
    decreases entries.len(),
{
    if entries.len() == 0 || !text_less(entries[0].0, key) {
        0
    } else {
        1 + lower_bound(entries.subrange(1, entries.len() as int), key)
    }
}

/// Binds `key` to `value` in a record: replaces an existing entry, or inserts
/// a new one at its ordered position.
pub open spec fn record_put(entries: Seq<(Seq<char>, Datum)>, key: Seq<char>, value: Datum) -> Seq<
    (Seq<char>, Datum),
> {
    match find_key(entries, key) {
        Some(i) => entries.update(i, (key, value)),
        None => entries.insert(lower_bound(entries, key), (key, value)),
    }
}

/// Whether `part` occurs contiguously in `text`.
pub open spec fn text_contains(text: Seq<char>, part: Seq<char>) -> bool {
    exists|i: int| 0 <= i && i + part.len() <= text.len() && #[trigger] text.subrange(i, i + part.len()) == part
}

// ---------------------------------------------------------------------------
// Error messages
// ---------------------------------------------------------------------------

pub open spec fn argument_count_message() -> Seq<char> {
    "invalid built-in argument count"@
}

pub open spec fn needs_rng_message() -> Seq<char> {
    "random functions require a threaded RNG state"@
}

pub open spec fn len_shape_message() -> Seq<char> {
    "len expects a list, record or string"@
}

pub open spec fn length_overflow_message() -> Seq<char> {
    "length overflow"@
}

pub open spec fn get_shape_message() -> Seq<char> {
    "get expects a list and integer index, or a record and string key"@
}

pub open spec fn missing_entry_message() -> Seq<char> {
    "missing key or list index"@
}

pub open spec fn contains_shape_message() -> Seq<char> {
    "contains expects a list, record or string"@
}

pub open spec fn owned_only_message() -> Seq<char> {
    "built-in requires owned arguments"@
}

pub open spec fn record_key_message() -> Seq<char> {
    "record keys must be strings"@
}

pub open spec fn duplicate_key_message() -> Seq<char> {
    "duplicate record key"@
}

pub open spec fn push_shape_message() -> Seq<char> {
    "push expects a list"@
}

pub open spec fn edit_shape_message() -> Seq<char> {
    "put/remove expects a list and integer index, or a record and string key"@
}

pub open spec fn index_bounds_message() -> Seq<char> {
    "list index out of bounds"@
}

pub open spec fn missing_record_key_message() -> Seq<char> {
    "missing record key"@
}

// ---------------------------------------------------------------------------
// Semantics of the value built-ins
// ---------------------------------------------------------------------------

/// `len(source)`.
pub open spec fn len_result(source: Datum) -> Result<Datum, Seq<char>> {
    let count: int = match source {
        Datum::List(items) => items.len() as int,
        Datum::Record(entries) => entries.len() as int,
        Datum::Text(text) => text.len() as int,
        _ => -1,
    };
    if count < 0 {
        Err(len_shape_message())
    } else if count > i64::MAX {
        Err(length_overflow_message())
    } else {
        Ok(Datum::Integer(count))
    }
}

/// `get(source, key)` or `get(source, key, default)`.
pub open spec fn get_result(source: Datum, key: Datum, default: Option<Datum>) -> Result<
    Datum,
    Seq<char>,
> {
    let found: Option<Option<Datum>> = match (source, key) {
        (Datum::List(items), Datum::Integer(index)) => if 0 <= index < items.len() {
            Some(Some(items[index]))
        } else {
            Some(None)
        },
        (Datum::Record(entries), Datum::Text(k)) => match find_key(entries, k) {
            Some(i) => Some(Some(entries[i].1)),
            None => Some(None),
        },
        _ => None,
    };
    match found {
        None => Err(get_shape_message()),
        Some(Some(value)) => Ok(value),
        Some(None) => match default {
            Some(value) => Ok(value),
            None => Err(missing_entry_message()),
        },
    }
}

/// `contains(source, value)`.
pub open spec fn contains_result(source: Datum, value: Datum) -> Result<Datum, Seq<char>> {
    match source {
        Datum::List(items) => Ok(
            Datum::Boolean(exists|j: int| 0 <= j < items.len() && #[trigger] items[j] == value),
        ),
        Datum::Record(entries) => match value {
            Datum::Text(k) => Ok(Datum::Boolean(find_key(entries, k) is Some)),
            _ => Err(contains_shape_message()),
        },
        Datum::Text(text) => match value {
            Datum::Text(part) => Ok(Datum::Boolean(text_contains(text, part))),
            _ => Err(contains_shape_message()),
        },
        _ => Err(contains_shape_message()),
    }
}

/// The built-ins that only read their arguments.
pub open spec fn readonly_result(function: Builtin, args: Seq<Datum>) -> Result<Datum, Seq<char>> {
    match function {
        Builtin::Len => len_result(args[0]),
        Builtin::Get => get_result(
            args[0],
            args[1],
            if args.len() == 3 {
                Some(args[2])
            } else {
                None
            },
        ),
        Builtin::Contains => contains_result(args[0], args[1]),
        _ => Err(owned_only_message()),
    }
}

/// The record built by `record(k0, v0, ..., kn, vn)` from the pairs with
/// index `i` onwards. Pairs are taken from the last one backwards; a
/// non-string key or a key already taken by a later pair is an error.
pub open spec fn record_pairs(args: Seq<Datum>, i: nat) -> Result<Seq<(Seq<char>, Datum)>, Seq<char>>
    decreases args.len() / 2 - i,
{
    if i >= args.len() / 2 {
        Ok(Seq::empty())
    } else {
        match record_pairs(args, i + 1) {
            Err(e) => Err(e),
            Ok(entries) => match args[2 * i as int] {
                Datum::Text(key) => if find_key(entries, key) is Some {
                    Err(duplicate_key_message())
                } else {
                    Ok(record_put(entries, key, args[2 * i as int + 1]))
                },
                _ => Err(record_key_message()),
            },
        }
    }
}

/// `put`/`remove` on a list or record; `replacement` is `None` for remove.
pub open spec fn edit_result(source: Datum, key: Datum, replacement: Option<Datum>) -> Result<
    Datum,
    Seq<char>,
> {
    match (source, key) {
        (Datum::List(items), Datum::Integer(index)) => if 0 <= index < items.len() {
            match replacement {
                Some(value) => Ok(Datum::List(items.update(index, value))),
                None => Ok(Datum::List(items.remove(index))),
            }
        } else {
            Err(index_bounds_message())
        },
        (Datum::Record(entries), Datum::Text(k)) => match replacement {
            Some(value) => Ok(Datum::Record(record_put(entries, k, value))),
            None => match find_key(entries, k) {
                Some(i) => Ok(Datum::Record(entries.remove(i))),
                None => Err(missing_record_key_message()),
            },
        },
        _ => Err(edit_shape_message()),
    }
}

/// What a built-in computes from owned arguments of an accepted count,
/// before the data budget is applied.
pub open spec fn owned_result(function: Builtin, args: Seq<Datum>) -> Result<Datum, Seq<char>> {
    match function {
        Builtin::List => Ok(Datum::List(args)),
        Builtin::Record => match record_pairs(args, 0) {
            Ok(entries) => Ok(Datum::Record(entries)),
            Err(e) => Err(e),
        },
        Builtin::Len | Builtin::Get | Builtin::Contains => readonly_result(function, args),
        Builtin::Push => match args[0] {
            Datum::List(items) => Ok(Datum::List(items.push(args[1]))),
            _ => Err(push_shape_message()),
        },
        Builtin::Put => edit_result(args[0], args[1], Some(args[2])),
        Builtin::Remove => edit_result(args[0], args[1], None),
        Builtin::Random | Builtin::Chance => Err(needs_rng_message()),
    }
}

/// What invoking a built-in returns: an argument-count error, a failure of
/// the operation, a budget error for an oversized result, or the result.
pub open spec fn builtin_result(function: Builtin, args: Seq<Datum>) -> Result<Datum, Seq<char>> {
    if !builtin_accepts(function, args.len()) {
        Err(argument_count_message())
    } else {
        match owned_result(function, args) {
            Err(e) => Err(e),
            Ok(d) => if within_budget(d) {
                Ok(d)
            } else {
                Err(budget_error(d))
            },
        }
    }
}

// ---------------------------------------------------------------------------
// Executable helpers
// ---------------------------------------------------------------------------

fn message(text: &str) -> (r: String)
    ensures
        r@ == text@,
{
    String::from_str(text)
}

/// Whether two strings hold the same text.
fn same_text(a: &String, b: &String) -> (r: bool)
    ensures
        r == (a@ == b@),
{
    *a == *b
}

/// Finds `key` in a record's entries.
fn find_entry(entries: &Vec<(String, Value)>, key: &String) -> (r: Option<usize>)
    ensures
        r matches Some(i) ==> find_key(view_entries(entries@), key@) == Some(i as int) && i < entries@.len(),
        r is None ==> find_key(view_entries(entries@), key@) is None,
{
    proof {
        lemma_view_entries(entries@);
    }
    let ghost all = view_entries(entries@);
    let mut i: usize = 0;
    assert(all.subrange(0, all.len() as int) =~= all);
    while i < entries.len()
        invariant
            i <= entries@.len(),
            all == view_entries(entries@),
            all.len() == entries@.len(),
            forall|j: int| 0 <= j < entries@.len() ==> #[trigger] all[j] == (entries@[j].0@, view_value(entries@[j].1)),
            find_key(all, key@) == (match find_key(all.subrange(i as int, all.len() as int), key@) {
                Some(k) => Some(k + i),
                None => None,
            }),
        decreases entries@.len() - i,
    {
        let ghost rest = all.subrange(i as int, all.len() as int);
        assert(rest[0] == all[i as int]);
        assert(rest.subrange(1, rest.len() as int) =~= all.subrange(i + 1, all.len() as int));
        if same_text(&entries[i].0, key) {
            return Some(i);
        }
        i = i + 1;
    }
    None
}

/// Position at which `key` is inserted into ordered entries.
fn entry_position(entries: &Vec<(String, Value)>, key: &String) -> (r: usize)
    ensures
        r as int == lower_bound(view_entries(entries@), key@),
        r <= entries@.len(),
{
    proof {
        lemma_view_entries(entries@);
    }
    let ghost all = view_entries(entries@);
    let mut i: usize = 0;
    assert(all.subrange(0, all.len() as int) =~= all);
    while i < entries.len()
        invariant
            i <= entries@.len(),
            all == view_entries(entries@),
            all.len() == entries@.len(),
            forall|j: int| 0 <= j < entries@.len() ==> #[trigger] all[j] == (entries@[j].0@, view_value(entries@[j].1)),
            lower_bound(all, key@) == i + lower_bound(all.subrange(i as int, all.len() as int), key@),
        decreases entries@.len() - i,
    {
        let ghost rest = all.subrange(i as int, all.len() as int);
        assert(rest[0] == all[i as int]);
        assert(rest.subrange(1, rest.len() as int) =~= all.subrange(i + 1, all.len() as int));
        if !crate::text::text_is_less(entries[i].0.as_str(), key.as_str()) {
            return i;
        }
        i = i + 1;
    }
    i
}

/// Binds `key` to `value` in ordered entries.
fn put_entry(entries: &mut Vec<(String, Value)>, key: String, value: Value)
    ensures
        view_entries(final(entries)@) == record_put(view_entries(old(entries)@), key@, value@),
{
    proof {
        lemma_view_entries(entries@);
    }
    let ghost key_view = key@;
    let ghost value_view = value@;
    let ghost before = view_entries(entries@);
    match find_entry(entries, &key) {
        Some(i) => {
            entries.set(i, (key, value));
            proof {
                lemma_view_entries(entries@);
                assert(view_entries(entries@) =~= before.update(i as int, (key_view, value_view)));
            }
        },
        None => {
            let position = entry_position(entries, &key);
            entries.insert(position, (key, value));
            proof {
                lemma_view_entries(entries@);
                assert(view_entries(entries@) =~= before.insert(position as int, (key_view, value_view)));
            }
        },
    }
}

/// Whether `part` occurs in `text`.
fn contains_text(text: &String, part: &String) -> (r: bool)
    ensures
        r == text_contains(text@, part@),
{
    let t = text.as_str();
    let p = part.as_str();
    let n = t.unicode_len();
    let m = p.unicode_len();
    if m == 0 {
        assert(text@.subrange(0int, 0int + part@.len()) =~= part@);
        return true;
    }
    if m > n {
        assert forall|i: int| 0 <= i && i + part@.len() <= text@.len() implies #[trigger] text@.subrange(i, i + part@.len()) != part@ by {}
        return false;
    }
    let mut start: usize = 0;
    while start <= n - m
        invariant
            t@ == text@,
            p@ == part@,
            m >= 1,
            n == text@.len(),
            m == part@.len(),
            m <= n,
            forall|i: int| 0 <= i < start ==> #[trigger] text@.subrange(i, i + part@.len()) != part@,
        decreases n - m + 1 - start,
    {
        let mut k: usize = 0;
        let mut matched = true;
        while k < m
            invariant
                t@ == text@,
                p@ == part@,
                n == text@.len(),
                m == part@.len(),
                start + m <= n,
                k <= m,
                matched ==> forall|j: int| 0 <= j < k ==> text@[start + j] == part@[j],
                !matched ==> text@.subrange(start as int, start + m) != part@,
            decreases m - k,
        {
            if matched {
                if t.get_char(start + k) != p.get_char(k) {
                    assert(text@.subrange(start as int, start + m)[k as int] == text@[start + k]);
                    matched = false;
                }
            }
            k = k + 1;
        }
        if matched {
            assert(text@.subrange(start as int, start + m) =~= part@);
            return true;
        }
        start = start + 1;
    }
    false
}

/// The read-only built-ins over borrowed arguments.
#[verifier::loop_isolation(false)]
fn readonly(function: Builtin, source: &Value, second: Option<&Value>, third: Option<&Value>) -> (r: Result<Value, String>)
    requires
        function is Len ==> second is None && third is None,
        function is Contains ==> second is Some && third is None,
        function is Get ==> second is Some,
    ensures
        r matches Ok(v) ==> Ok::<Datum, Seq<char>>(v@) == readonly_result(
            function,
            readonly_args(source@, second, third),
        ),
        r matches Err(e) ==> Err::<Datum, Seq<char>>(e@) == readonly_result(
            function,
            readonly_args(source@, second, third),
        ),
{
    let ghost args = readonly_args(source@, second, third);
    match function {
        Builtin::Len => {
            let count: usize = match source {
                Value::List(items) => {
                    proof { lemma_view_items(items@); }
                    items.len()
                },
                Value::Record(entries) => {
                    proof { lemma_view_entries(entries@); }
                    entries.len()
                },
                Value::String(text) => text.as_str().unicode_len(),
                _ => return Err(message("len expects a list, record or string")),
            };
            if (count as u64) > 9223372036854775807u64 {
                return Err(message("length overflow"));
            }
            Ok(Value::Integer(count as i64))
        },
        Builtin::Get => {
            let key = second.unwrap();
            let found: Option<&Value> = match (source, key) {
                (Value::List(items), Value::Integer(index)) => {
                    proof { lemma_view_items(items@); }
                    if *index >= 0 && (*index as u64) < (items.len() as u64) {
                        Some(&items[*index as usize])
                    } else {
                        None
                    }
                },
                (Value::Record(entries), Value::String(k)) => {
                    proof { lemma_view_entries(entries@); }
                    match find_entry(entries, k) {
                        Some(i) => Some(&entries[i].1),
                        None => None,
                    }
                },
                _ => return Err(message("get expects a list and integer index, or a record and string key")),
            };
            match found {
                Some(value) => Ok(value.duplicate()),
                None => match third {
                    Some(default) => Ok(default.duplicate()),
                    None => Err(message("missing key or list index")),
                },
            }
        },
        Builtin::Contains => {
            let value = second.unwrap();
            match source {
                Value::List(items) => {
                    proof { lemma_view_items(items@); }
                    let mut i: usize = 0;
                    while i < items.len()
                        invariant
                            i <= items@.len(),
                            view_items(items@).len() == items@.len(),
                            forall|j: int| 0 <= j < items@.len() ==> #[trigger] view_items(items@)[j] == view_value(items@[j]),
                            forall|j: int| 0 <= j < i ==> view_items(items@)[j] != value@,
                        decreases items@.len() - i,
                    {
                        if values_equal(&items[i], value) {
                            assert(view_items(items@)[i as int] == value@);
                            return Ok(Value::Boolean(true));
                        }
                        i = i + 1;
                    }
                    Ok(Value::Boolean(false))
                },
                Value::Record(entries) => match value {
                    Value::String(k) => Ok(Value::Boolean(find_entry(entries, k).is_some())),
                    _ => Err(message("contains expects a list, record or string")),
                },
                Value::String(text) => match value {
                    Value::String(part) => Ok(Value::Boolean(contains_text(text, part))),
                    _ => Err(message("contains expects a list, record or string")),
                },
                _ => Err(message("contains expects a list, record or string")),
            }
        },
        _ => Err(message("built-in requires owned arguments")),
    }
}

/// The argument models handed to a read-only built-in.
pub open spec fn readonly_args(source: Datum, second: Option<&Value>, third: Option<&Value>) -> Seq<Datum> {
    match (second, third) {
        (Some(b), Some(c)) => seq![source, b@, c@],
        (Some(b), None) => seq![source, b@],
        _ => seq![source],
    }
}


/// The model of an optional value.
pub open spec fn option_view(v: Option<Value>) -> Option<Datum> {
    match v {
        Some(value) => Some(value@),
        None => None,
    }
}

/// An error while taking record pairs is the error of the whole record.
proof fn lemma_record_pairs_error(args: Seq<Datum>, i: nat)
    requires
        record_pairs(args, i) is Err,
    ensures
        record_pairs(args, 0) == record_pairs(args, i),
    decreases i,
{
    if i > 0 {
        lemma_record_pairs_error(args, (i - 1) as nat);
    }
}

/// Builds a record from `key, value` argument pairs, taking pairs from the
/// last one backwards.
#[verifier::loop_isolation(false)]
fn construct_record(arguments: &mut Vec<Value>) -> (r: Result<Value, String>)
    requires
        old(arguments)@.len() % 2 == 0,
    ensures
        r matches Ok(v) ==> record_pairs(view_items(old(arguments)@), 0) == Ok::<Seq<(Seq<char>, Datum)>, Seq<char>>(
            v@->Record_0,
        ) && v@ is Record,
        r matches Err(e) ==> record_pairs(view_items(old(arguments)@), 0) == Err::<
            Seq<(Seq<char>, Datum)>,
            Seq<char>,
        >(e@),
        final(arguments)@.is_prefix_of(old(arguments)@),
{
    let ghost original = arguments@;
    let ghost args = view_items(original);
    proof {
        lemma_view_items(original);
    }
    let mut entries: Vec<(String, Value)> = Vec::new();
    let mut i: usize = arguments.len() / 2;
    assert(original.subrange(0, 2 * i as int) =~= original);
    while i > 0
        invariant
            args == view_items(original),
            args.len() == original.len(),
            forall|j: int| 0 <= j < original.len() ==> #[trigger] args[j] == view_value(original[j]),
            original.len() % 2 == 0,
            2 * i <= original.len(),
            arguments@ == original.subrange(0, 2 * i as int),
            record_pairs(args, i as nat) == Ok::<Seq<(Seq<char>, Datum)>, Seq<char>>(view_entries(entries@)),
        decreases i,
    {
        let value = arguments.pop().unwrap();
        let key = arguments.pop().unwrap();
        i = i - 1;
        assert(value == original[2 * i + 1]);
        assert(key == original[2 * i as int]);
        assert(args[2 * i as int] == key@);
        assert(args[2 * i as int + 1] == value@);
        assert((i as nat) < args.len() / 2);
        assert(record_pairs(args, (i + 1) as nat) == Ok::<Seq<(Seq<char>, Datum)>, Seq<char>>(view_entries(entries@)));
        match key {
            Value::String(k) => {
                if find_entry(&entries, &k).is_some() {
                    proof {
                        lemma_record_pairs_error(args, i as nat);
                    }
                    return Err(message("duplicate record key"));
                }
                put_entry(&mut entries, k, value);
            },
            _ => {
                proof {
                    lemma_record_pairs_error(args, i as nat);
                }
                return Err(message("record keys must be strings"));
            },
        }
        assert(arguments@ =~= original.subrange(0, 2 * i as int));
    }
    Ok(Value::Record(entries))
}

/// `put` (with a replacement) or `remove` (without) on a list or record.
fn edit(source: Value, key: Value, replacement: Option<Value>) -> (r: Result<Value, String>)
    ensures
        r matches Ok(v) ==> edit_result(source@, key@, option_view(replacement)) == Ok::<Datum, Seq<char>>(v@),
        r matches Err(e) ==> edit_result(source@, key@, option_view(replacement)) == Err::<Datum, Seq<char>>(e@),
{
    let ghost source_view = source@;
    let ghost replacement_view = option_view(replacement);
    match (source, key) {
        (Value::List(mut items), Value::Integer(index)) => {
            proof {
                lemma_view_items(items@);
            }
            let ghost before = view_items(items@);
            if index >= 0 && (index as u64) < (items.len() as u64) {
                let position = index as usize;
                match replacement {
                    Some(value) => {
                        let ghost value_view = value@;
                        items.set(position, value);
                        proof {
                            lemma_view_items(items@);
                            assert(view_items(items@) =~= before.update(position as int, value_view));
                        }
                    },
                    None => {
                        items.remove(position);
                        proof {
                            lemma_view_items(items@);
                            assert(view_items(items@) =~= before.remove(position as int));
                        }
                    },
                }
                Ok(Value::List(items))
            } else {
                Err(message("list index out of bounds"))
            }
        },
        (Value::Record(mut entries), Value::String(k)) => {
            proof {
                lemma_view_entries(entries@);
            }
            let ghost before = view_entries(entries@);
            match replacement {
                Some(value) => {
                    put_entry(&mut entries, k, value);
                    Ok(Value::Record(entries))
                },
                None => match find_entry(&entries, &k) {
                    Some(position) => {
                        entries.remove(position);
                        proof {
                            lemma_view_entries(entries@);
                            assert(view_entries(entries@) =~= before.remove(position as int));
                        }
                        Ok(Value::Record(entries))
                    },
                    None => Err(message("missing record key")),
                },
            }
        },
        _ => Err(message("put/remove expects a list and integer index, or a record and string key")),
    }
}

/// A built-in over owned arguments whose count it accepts, before the data
/// budget is applied.
fn invoke_owned(function: Builtin, arguments: &mut Vec<Value>) -> (r: Result<Value, String>)
    requires
        builtin_accepts(function, old(arguments)@.len()),
    ensures
        r matches Ok(v) ==> owned_result(function, view_items(old(arguments)@)) == Ok::<Datum, Seq<char>>(v@),
        r matches Err(e) ==> owned_result(function, view_items(old(arguments)@)) == Err::<Datum, Seq<char>>(e@),
        final(arguments)@.is_prefix_of(old(arguments)@),
{
    let ghost args = view_items(arguments@);
    proof {
        lemma_view_items(arguments@);
    }
    match function {
        Builtin::List => {
            let mut items: Vec<Value> = Vec::new();
            core::mem::swap(&mut items, arguments);
            Ok(Value::List(items))
        },
        Builtin::Record => construct_record(arguments),
        Builtin::Len => readonly(function, &arguments[0], None, None),
        Builtin::Get => {
            if arguments.len() == 3 {
                readonly(function, &arguments[0], Some(&arguments[1]), Some(&arguments[2]))
            } else {
                readonly(function, &arguments[0], Some(&arguments[1]), None)
            }
        },
        Builtin::Contains => readonly(function, &arguments[0], Some(&arguments[1]), None),
        Builtin::Push => {
            let value = arguments.pop().unwrap();
            let source = arguments.pop().unwrap();
            match source {
                Value::List(mut items) => {
                    proof {
                        lemma_view_items(items@);
                    }
                    let ghost before = view_items(items@);
                    let ghost value_view = value@;
                    items.push(value);
                    proof {
                        lemma_view_items(items@);
                        assert(view_items(items@) =~= before.push(value_view));
                    }
                    Ok(Value::List(items))
                },
                _ => Err(message("push expects a list")),
            }
        },
        Builtin::Put => {
            let replacement = arguments.pop().unwrap();
            let key = arguments.pop().unwrap();
            let source = arguments.pop().unwrap();
            edit(source, key, Some(replacement))
        },
        Builtin::Remove => {
            let key = arguments.pop().unwrap();
            let source = arguments.pop().unwrap();
            edit(source, key, None)
        },
        Builtin::Random | Builtin::Chance => Err(message("random functions require a threaded RNG state")),
    }
}

/// Invokes `function` with already evaluated arguments and returns the result
/// with its resource metrics.
pub fn invoke_measured(function: Builtin, arguments: Vec<Value>, line: usize) -> (r: Result<(Value, DataMetrics), EvalError>)
    ensures
        r matches Ok((v, m)) ==> builtin_result(function, view_items(arguments@)) == Ok::<Datum, Seq<char>>(v@)
            && metrics_of(m, v@),
        r matches Err(e) ==> e.line == line && builtin_result(function, view_items(arguments@)) == Err::<
            Datum,
            Seq<char>,
        >(e.message@),
{
    proof {
        lemma_view_items(arguments@);
    }
    let mut arguments = arguments;
    if !function.accepts(arguments.len()) {
        return Err(EvalError::new(line, "invalid built-in argument count"));
    }
    let result = match invoke_owned(function, &mut arguments) {
        Ok(v) => v,
        Err(message) => return Err(EvalError { line, message }),
    };
    match result.data_metrics() {
        Ok(metrics) => Ok((result, metrics)),
        Err(message) => Err(EvalError::new(line, message)),
    }
}

/// The error for argument and metric arrays of different lengths.
pub open spec fn metrics_count_message() -> Seq<char> {
    "invalid built-in argument metrics"@
}

/// The metrics a built-in derives from its arguments' metrics without
/// measuring its result: `None` where it measures the result instead.
pub open spec fn known_metrics(function: Builtin, args: Seq<Datum>, metrics: Seq<DataMetrics>) -> Option<
    Result<DataMetrics, Seq<char>>,
> {
    match function {
        Builtin::List => Some(collection_result(metrics)),
        Builtin::Record => record_fast(args, metrics),
        Builtin::Push => push_fast(metrics),
        Builtin::Len | Builtin::Contains => Some(Ok(scalar_model())),
        _ => None,
    }
}

/// What an invocation with argument metrics returns: a count error, a
/// failure of the operation, then the derived metrics' verdict, or the
/// measured result's.
pub open spec fn measured_outcome(function: Builtin, args: Seq<Datum>, metrics: Seq<DataMetrics>) -> Result<
    Datum,
    Seq<char>,
> {
    if args.len() != metrics.len() {
        Err(metrics_count_message())
    } else if !builtin_accepts(function, args.len()) {
        Err(argument_count_message())
    } else {
        match owned_result(function, args) {
            Err(e) => Err(e),
            Ok(d) => match known_metrics(function, args, metrics) {
                Some(Ok(_)) => Ok(d),
                Some(Err(e)) => Err(e),
                None => if within_budget(d) {
                    Ok(d)
                } else {
                    Err(budget_error(d))
                },
            },
        }
    }
}

/// Whether each metric is exactly that of the argument beside it and every
/// argument fits the data budget.
pub open spec fn exact_metrics(args: Seq<Datum>, metrics: Seq<DataMetrics>) -> bool {
    &&& args.len() == metrics.len()
    &&& forall|i: int| 0 <= i < args.len() ==> metrics_of(#[trigger] metrics[i], args[i])
    &&& forall|i: int| 0 <= i < args.len() ==> within_budget(#[trigger] args[i])
}

/// `lower_bound` is a position within the entries.
proof fn lemma_lower_bound_range(entries: Seq<(Seq<char>, Datum)>, key: Seq<char>)
    ensures
        0 <= lower_bound(entries, key) <= entries.len(),
    decreases entries.len(),
{
    if entries.len() > 0 {
        lemma_lower_bound_range(entries.subrange(1, entries.len() as int), key);
    }
}

/// Inserting an entry adds its nodes and text to a record's totals, and its
/// depth one level down.
proof fn lemma_entries_insert(s: Seq<(Seq<char>, Datum)>, k: int, e: (Seq<char>, Datum))
    requires
        0 <= k <= s.len(),
    ensures
        entries_node_count(s.insert(k, e)) == entries_node_count(s) + node_count(e.1),
        entries_text_size(s.insert(k, e)) == entries_text_size(s) + utf8_len(e.0) + text_size(e.1),
        entries_nesting(s.insert(k, e)) == max_nat(entries_nesting(s), nesting(e.1) + 1),
    decreases s.len(),
{
    let t = s.insert(k, e);
    if k == s.len() {
        assert(t.subrange(0, t.len() - 1) =~= s);
    } else {
        let front = s.subrange(0, s.len() - 1);
        lemma_entries_insert(front, k, e);
        assert(t.subrange(0, t.len() - 1) =~= front.insert(k, e));
        assert(t[t.len() - 1] == s[s.len() - 1]);
    }
}

/// Pushing an item adds its nodes and text to a list's totals, and its depth
/// one level down.
proof fn lemma_items_push(s: Seq<Datum>, x: Datum)
    ensures
        items_node_count(s.push(x)) == items_node_count(s) + node_count(x),
        items_text_size(s.push(x)) == items_text_size(s) + text_size(x),
        items_nesting(s.push(x)) == max_nat(items_nesting(s), nesting(x) + 1),
{
    assert(s.push(x).subrange(0, s.len() as int) =~= s);
}

/// The record built from pairs `i..` holds exactly their nodes, key and value
/// text, and one level over their deepest value, and all their keys are
/// strings.
proof fn lemma_record_pairs_totals(args: Seq<Datum>, metrics: Seq<DataMetrics>, i: nat)
    requires
        exact_metrics(args, metrics),
        args.len() % 2 == 0,
        record_pairs(args, i) is Ok,
    ensures
        entries_node_count(record_pairs(args, i)->Ok_0) == pair_values(metrics, i, args.len() / 2),
        entries_text_size(record_pairs(args, i)->Ok_0) == pair_text(args, metrics, i, args.len() / 2),
        entries_nesting(record_pairs(args, i)->Ok_0) == pair_depth(metrics, i, args.len() / 2),
        forall|j: int| i <= j < args.len() / 2 ==> (#[trigger] args[2 * j]) is Text,
    decreases args.len() / 2 - i,
{
    let n = args.len() / 2;
    if i < n {
        lemma_record_pairs_totals(args, metrics, i + 1);
        let rest = record_pairs(args, i + 1)->Ok_0;
        let key = args[2 * i as int]->Text_0;
        let value = args[(2 * i + 1) as int];
        lemma_lower_bound_range(rest, key);
        lemma_entries_insert(rest, lower_bound(rest, key), (key, value));
        assert(metrics_of(metrics[(2 * i + 1) as int], args[(2 * i + 1) as int]));
    }
}

/// Folding exact, in-budget child metrics gives the totals of the list of
/// the children.
proof fn lemma_fold_exact(args: Seq<Datum>, metrics: Seq<DataMetrics>)
    requires
        exact_metrics(args, metrics),
        args.len() <= crate::value::MAX_BUILTIN_ARGUMENTS,
    ensures
        collection_fold(metrics) == Ok::<DataMetrics, Seq<char>>(
            DataMetrics {
                footprint: DataFootprint {
                    values: (1 + items_node_count(args)) as usize,
                    text_bytes: items_text_size(args) as usize,
                },
                max_depth: items_nesting(args) as usize,
            },
        ),
        items_node_count(args) <= crate::value::MAX_DATA_VALUES * args.len(),
        items_text_size(args) <= crate::value::MAX_DATA_TEXT_BYTES * args.len(),
        items_nesting(args) <= crate::value::MAX_DATA_DEPTH + 1,
    decreases args.len(),
{
    if args.len() > 0 {
        let front = args.subrange(0, args.len() - 1);
        assert(metrics.drop_last() =~= metrics.subrange(0, metrics.len() - 1));
        assert(exact_metrics(front, metrics.drop_last())) by {
            assert forall|i: int| 0 <= i < front.len() implies metrics_of(#[trigger] metrics.drop_last()[i], front[i])
                by {
                assert(metrics_of(metrics[i], args[i]));
            }
            assert forall|i: int| 0 <= i < front.len() implies within_budget(#[trigger] front[i]) by {
                assert(within_budget(args[i]));
            }
        }
        lemma_fold_exact(front, metrics.drop_last());
        let last = args.len() - 1;
        assert(metrics_of(metrics[last], args[last]));
        assert(within_budget(args[last]));
        assert(metrics.last() == metrics[last]);
    }
}

/// Exact, in-budget metrics make the derived verdict the measured one: for
/// a result built from such arguments, derived metrics are the result's own
/// when it fits the budget, and the budget error otherwise.
proof fn lemma_known_metrics_exact(function: Builtin, args: Seq<Datum>, metrics: Seq<DataMetrics>, d: Datum)
    requires
        exact_metrics(args, metrics),
        builtin_accepts(function, args.len()),
        owned_result(function, args) == Ok::<Datum, Seq<char>>(d),
    ensures
        known_metrics(function, args, metrics) matches Some(Ok(k)) ==> within_budget(d) && metrics_of(k, d),
        known_metrics(function, args, metrics) matches Some(Err(e)) ==> !within_budget(d) && e == budget_error(d),
{
    match function {
        Builtin::List => {
            lemma_fold_exact(args, metrics);
            assert(args.len() <= 128);
            assert(items_node_count(args) <= 4096 * 128);
            assert(items_text_size(args) <= 1048576 * 128);
            assert(d == Datum::List(args));
            assert(node_count(d) == 1 + items_node_count(args));
            assert(text_size(d) == items_text_size(args));
            assert(nesting(d) == items_nesting(args));
            let m = DataMetrics {
                footprint: DataFootprint {
                    values: (1 + items_node_count(args)) as usize,
                    text_bytes: items_text_size(args) as usize,
                },
                max_depth: items_nesting(args) as usize,
            };
            assert(collection_fold(metrics) == Ok::<DataMetrics, Seq<char>>(m));
            assert(m.footprint.values == node_count(d));
            assert(m.footprint.text_bytes == text_size(d));
            assert(m.max_depth == nesting(d));
            assert(known_metrics(function, args, metrics) == Some(checked_metrics(m)));
        },
        Builtin::Record => {
            lemma_record_pairs_totals(args, metrics, 0);
            let n = args.len() / 2;
            assert(pair_count(args, metrics) == n);
            assert(keys_are_text(args, n));
            lemma_record_bounds(args, metrics, 0);
            let entries = record_pairs(args, 0)->Ok_0;
            assert(d == Datum::Record(entries));
            assert(args.len() % 2 == 0 && args.len() <= 128);
            assert(pair_values(metrics, 0, n) <= 4096 * 64);
            assert(pair_text(args, metrics, 0, n) <= 2 * 1048576 * 64);
            let m = DataMetrics {
                footprint: DataFootprint {
                    values: (1 + pair_values(metrics, 0, n)) as usize,
                    text_bytes: pair_text(args, metrics, 0, n) as usize,
                },
                max_depth: pair_depth(metrics, 0, n) as usize,
            };
            assert(record_fast(args, metrics) == Some(checked_metrics(m)));
            assert(m.footprint.values == node_count(d));
            assert(m.footprint.text_bytes == text_size(d));
            assert(m.max_depth == nesting(d));
        },
        Builtin::Push => {
            assert(metrics_of(metrics[0], args[0]));
            assert(metrics_of(metrics[1], args[1]));
            assert(within_budget(args[0]));
            assert(within_budget(args[1]));
            let items = args[0]->List_0;
            lemma_items_push(items, args[1]);
        },
        Builtin::Len => {
            assert(d is Integer);
        },
        Builtin::Contains => {
            assert(d is Boolean);
        },
        _ => {},
    }
}

/// In-budget pair values keep the record totals small.
proof fn lemma_record_bounds(args: Seq<Datum>, metrics: Seq<DataMetrics>, i: nat)
    requires
        exact_metrics(args, metrics),
        args.len() <= crate::value::MAX_BUILTIN_ARGUMENTS,
        i <= args.len() / 2,
        forall|j: int| i <= j < args.len() / 2 ==> (#[trigger] args[2 * j]) is Text,
    ensures
        pair_values(metrics, i, args.len() / 2) <= crate::value::MAX_DATA_VALUES * (args.len() / 2 - i),
        pair_text(args, metrics, i, args.len() / 2) <= 2 * crate::value::MAX_DATA_TEXT_BYTES * (args.len() / 2 - i),
        pair_depth(metrics, i, args.len() / 2) <= crate::value::MAX_DATA_DEPTH + 1,
    decreases args.len() / 2 - i,
{
    let n = args.len() / 2;
    if i < n {
        lemma_record_bounds(args, metrics, i + 1);
        assert(metrics_of(metrics[(2 * i + 1) as int], args[(2 * i + 1) as int]));
        assert(within_budget(args[(2 * i + 1) as int]));
        assert(within_budget(args[2 * i as int]));
        assert(args[2 * i as int] is Text);
        assert(text_size(args[2 * i as int]) == utf8_len(args[2 * i as int]->Text_0));
        assert(pair_values(metrics, i, n) == metrics[(2 * i + 1) as int].footprint.values + pair_values(metrics, i + 1, n));
        assert(pair_text(args, metrics, i, n) == utf8_len(args[2 * i as int]->Text_0)
            + metrics[(2 * i + 1) as int].footprint.text_bytes + pair_text(args, metrics, i + 1, n));
        assert(4096 * (n - i) == 4096 * (n - (i + 1)) + 4096);
        assert(2 * 1048576 * (n - i) == 2 * 1048576 * (n - (i + 1)) + 2 * 1048576);
    }
}

/// Invoking a built-in with exact, in-budget argument metrics gives what the
/// plain invocation gives, and the metrics it derives are the result's own.
pub proof fn derived_metrics_match_measured(function: Builtin, args: Seq<Datum>, metrics: Seq<DataMetrics>)
    requires
        exact_metrics(args, metrics),
    ensures
        measured_outcome(function, args, metrics) == builtin_result(function, args),
        measured_outcome(function, args, metrics) matches Ok(d) ==> match known_metrics(function, args, metrics) {
            Some(Ok(k)) => metrics_of(k, d),
            _ => true,
        },
{
    if builtin_accepts(function, args.len()) {
        if let Ok(d) = owned_result(function, args) {
            lemma_known_metrics_exact(function, args, metrics, d);
        }
    }
}

/// Invokes `function` with owned arguments and their previously computed
/// metrics, using `arguments` as a buffer: the call consumes arguments from
/// its end, so what is left is a prefix of what was given.
pub fn invoke_measured_with_metrics_reusable(
    function: Builtin,
    arguments: &mut Vec<Value>,
    argument_metrics: &[DataMetrics],
    line: usize,
) -> (r: Result<(Value, DataMetrics), EvalError>)
    requires
        depths_extendable(argument_metrics@),
    ensures
        r matches Ok((v, m)) ==> measured_outcome(function, view_items(old(arguments)@), argument_metrics@)
            == Ok::<Datum, Seq<char>>(v@) && match known_metrics(
            function,
            view_items(old(arguments)@),
            argument_metrics@,
        ) {
            Some(Ok(k)) => m == k,
            _ => metrics_of(m, v@),
        },
        r matches Err(e) ==> e.line == line && measured_outcome(
            function,
            view_items(old(arguments)@),
            argument_metrics@,
        ) == Err::<Datum, Seq<char>>(e.message@),
        final(arguments)@.is_prefix_of(old(arguments)@),
{
    let ghost args = view_items(arguments@);
    proof {
        lemma_view_items(arguments@);
    }
    if arguments.len() != argument_metrics.len() {
        return Err(EvalError::new(line, "invalid built-in argument metrics"));
    }
    if !function.accepts(arguments.len()) {
        return Err(EvalError::new(line, "invalid built-in argument count"));
    }
    let known: Option<Result<DataMetrics, EvalError>> = match function {
        Builtin::List => Some(collection_metrics(argument_metrics, line)),
        Builtin::Record => record_metrics(arguments.as_slice(), argument_metrics, line),
        Builtin::Push => push_metrics(argument_metrics, line),
        Builtin::Len | Builtin::Contains => Some(Ok(scalar_metrics())),
        _ => None,
    };
    let result = match invoke_owned(function, arguments) {
        Ok(v) => v,
        Err(message) => return Err(EvalError { line, message }),
    };
    match known {
        Some(Ok(metrics)) => Ok((result, metrics)),
        Some(Err(e)) => Err(e),
        None => match result.data_metrics() {
            Ok(metrics) => Ok((result, metrics)),
            Err(message) => Err(EvalError::new(line, message)),
        },
    }
}

/// Invokes `function` with owned arguments and their previously computed
/// metrics, returning the result with its metrics.
pub fn invoke_measured_with_metrics(
    function: Builtin,
    arguments: Vec<Value>,
    argument_metrics: &[DataMetrics],
    line: usize,
) -> (r: Result<(Value, DataMetrics), EvalError>)
    requires
        depths_extendable(argument_metrics@),
    ensures
        r matches Ok((v, m)) ==> measured_outcome(function, view_items(arguments@), argument_metrics@)
            == Ok::<Datum, Seq<char>>(v@) && match known_metrics(
            function,
            view_items(arguments@),
            argument_metrics@,
        ) {
            Some(Ok(k)) => m == k,
            _ => metrics_of(m, v@),
        },
        r matches Err(e) ==> e.line == line && measured_outcome(function, view_items(arguments@), argument_metrics@)
            == Err::<Datum, Seq<char>>(e.message@),
        exact_metrics(view_items(arguments@), argument_metrics@) ==> (r matches Ok((v, m)) ==> builtin_result(
            function,
            view_items(arguments@),
        ) == Ok::<Datum, Seq<char>>(v@) && metrics_of(m, v@)),
        exact_metrics(view_items(arguments@), argument_metrics@) ==> (r matches Err(e) ==> builtin_result(
            function,
            view_items(arguments@),
        ) == Err::<Datum, Seq<char>>(e.message@)),
{
    proof {
        if exact_metrics(view_items(arguments@), argument_metrics@) {
            derived_metrics_match_measured(function, view_items(arguments@), argument_metrics@);
        }
    }
    let mut arguments = arguments;
    invoke_measured_with_metrics_reusable(function, &mut arguments, argument_metrics, line)
}

/// Invokes `function` with already evaluated arguments.
pub fn invoke(function: Builtin, arguments: Vec<Value>, line: usize) -> (r: Result<Value, EvalError>)
    ensures
        r matches Ok(v) ==> builtin_result(function, view_items(arguments@)) == Ok::<Datum, Seq<char>>(v@),
        r matches Err(e) ==> e.line == line && builtin_result(function, view_items(arguments@)) == Err::<
            Datum,
            Seq<char>,
        >(e.message@),
{
    match invoke_measured(function, arguments, line) {
        Ok((value, _)) => Ok(value),
        Err(e) => Err(e),
    }
}

/// The models of borrowed arguments.
pub open spec fn borrowed_views(s: Seq<&Value>) -> Seq<Datum> {
    Seq::new(s.len(), |i: int| s[i]@)
}

/// What a read-only invocation returns.
pub open spec fn readonly_invocation(function: Builtin, args: Seq<Datum>) -> Result<Datum, Seq<char>> {
    if !builtin_accepts(function, args.len()) {
        Err(argument_count_message())
    } else {
        match readonly_result(function, args) {
            Err(e) => Err(e),
            Ok(d) => if within_budget(d) {
                Ok(d)
            } else {
                Err(budget_error(d))
            },
        }
    }
}

/// Invokes `len`, `get` or `contains` on borrowed arguments; other built-ins
/// are rejected because they need owned arguments.
pub fn invoke_readonly_measured(function: Builtin, arguments: &[&Value], line: usize) -> (r: Result<(Value, DataMetrics), EvalError>)
    ensures
        r matches Ok((v, m)) ==> readonly_invocation(function, borrowed_views(arguments@)) == Ok::<Datum, Seq<char>>(v@)
            && metrics_of(m, v@),
        r matches Err(e) ==> e.line == line && readonly_invocation(function, borrowed_views(arguments@)) == Err::<
            Datum,
            Seq<char>,
        >(e.message@),
{
    let ghost args = borrowed_views(arguments@);
    if !function.accepts(arguments.len()) {
        return Err(EvalError::new(line, "invalid built-in argument count"));
    }
    let result = match function {
        Builtin::Len => readonly(function, arguments[0], None, None),
        Builtin::Get => {
            if arguments.len() == 3 {
                readonly(function, arguments[0], Some(arguments[1]), Some(arguments[2]))
            } else {
                readonly(function, arguments[0], Some(arguments[1]), None)
            }
        },
        Builtin::Contains => readonly(function, arguments[0], Some(arguments[1]), None),
        _ => Err(message("built-in requires owned arguments")),
    };
    proof {
        if function is Len {
            assert(readonly_args(arguments@[0]@, None, None) =~= args);
        } else if function is Contains {
            assert(readonly_args(arguments@[0]@, Some(arguments@[1]), None) =~= args);
        } else if function is Get {
            if arguments@.len() == 3 {
                assert(readonly_args(arguments@[0]@, Some(arguments@[1]), Some(arguments@[2])) =~= args);
            } else {
                assert(readonly_args(arguments@[0]@, Some(arguments@[1]), None) =~= args);
            }
        }
    }
    let result = match result {
        Ok(v) => v,
        Err(message) => return Err(EvalError { line, message }),
    };
    match result.data_metrics() {
        Ok(metrics) => Ok((result, metrics)),
        Err(message) => Err(EvalError::new(line, message)),
    }
}


// ---------------------------------------------------------------------------
// Deterministic random draws (SplitMix64)
// ---------------------------------------------------------------------------

/// The largest number of rejected draws `uniform_below` retries before it
/// accepts the next one.
pub const DRAW_RETRY_LIMIT: u64 = 0xFFFF_FFFF_FFFF_FFFF;

/// The SplitMix64 state after one step from `state`.
pub open spec fn advance_state(state: i64) -> u64 {
    vstd::wrapping::u64_specs::wrapping_add(state as u64, 0x9E37_79B9_7F4A_7C15u64)
}

/// The SplitMix64 output mixing function.
pub open spec fn mix(v: u64) -> u64 {
    let a = vstd::wrapping::u64_specs::wrapping_mul(v ^ (v >> 30u64), 0xBF58_476D_1CE4_E5B9u64);
    let b = vstd::wrapping::u64_specs::wrapping_mul(a ^ (a >> 27u64), 0x94D0_49BB_1331_11EBu64);
    b ^ (b >> 31u64)
}

/// One SplitMix64 draw: the output and the next state.
pub open spec fn next_draw(state: i64) -> (u64, i64) {
    (mix(advance_state(state)), advance_state(state) as i64)
}

pub open spec fn two_to_64() -> nat {
    0x1_0000_0000_0000_0000
}

/// A draw below `bound` by multiply-high with rejection (Lemire), retrying at
/// most `retries` more times.
pub open spec fn below_draw(state: i64, bound: u64, retries: nat) -> (u64, i64)
    decreases retries,
{
    let (x, next) = next_draw(state);
    let product = (x as nat) * (bound as nat);
    let low = product % two_to_64();
    let threshold = ((two_to_64() - bound) as nat) % (bound as nat);
    if low >= threshold || retries == 0 {
        ((product / two_to_64()) as u64, next)
    } else {
        below_draw(next, bound, (retries - 1) as nat)
    }
}

/// A uniform draw from `low..=high` and the next state.
pub open spec fn inclusive_draw(state: i64, low: i64, high: i64) -> (int, i64) {
    let width = high - low + 1;
    if width == two_to_64() {
        let (x, next) = next_draw(state);
        (low + x, next)
    } else {
        let (x, next) = below_draw(state, width as u64, DRAW_RETRY_LIMIT as nat);
        (low + x, next)
    }
}

proof fn lemma_high_half_below(x: u64, bound: u64)
    requires
        bound > 0,
    ensures
        ((x as nat) * (bound as nat)) / two_to_64() < bound,
        (x as nat) * (bound as nat) <= u128::MAX,
{
    assert((x as nat) * (bound as nat) < two_to_64() * (bound as nat)) by (nonlinear_arith)
        requires
            x < two_to_64(),
            bound > 0,
    ;
    assert(((x as nat) * (bound as nat)) / two_to_64() < bound) by (nonlinear_arith)
        requires
            (x as nat) * (bound as nat) < two_to_64() * (bound as nat),
    ;
    assert((x as nat) * (bound as nat) <= u128::MAX) by (nonlinear_arith)
        requires
            x < two_to_64(),
            bound < two_to_64(),
    ;
}

proof fn lemma_below_draw_bound(state: i64, bound: u64, retries: nat)
    requires
        bound > 0,
    ensures
        below_draw(state, bound, retries).0 < bound,
    decreases retries,
{
    let (x, next) = next_draw(state);
    lemma_high_half_below(x, bound);
    if retries > 0 {
        lemma_below_draw_bound(next, bound, (retries - 1) as nat);
    }
}

/// Advances the SplitMix64 state and returns its mixed output.
fn next_u64(state: &mut i64) -> (r: u64)
    ensures
        (r, *final(state)) == next_draw(*old(state)),
{
    let next = (*state as u64).wrapping_add(0x9E37_79B9_7F4A_7C15u64);
    *state = next as i64;
    let mut value = next;
    value = (value ^ (value >> 30u64)).wrapping_mul(0xBF58_476D_1CE4_E5B9u64);
    value = (value ^ (value >> 27u64)).wrapping_mul(0x94D0_49BB_1331_11EBu64);
    value ^ (value >> 31u64)
}

/// Draws uniformly from `0..bound`.
fn uniform_below(state: &mut i64, bound: u64) -> (r: u64)
    requires
        bound > 0,
    ensures
        (r, *final(state)) == below_draw(*old(state), bound, DRAW_RETRY_LIMIT as nat),
        r < bound,
{
    let threshold = (u64::MAX - bound + 1) % bound;
    let mut retries: u64 = DRAW_RETRY_LIMIT;
    proof {
        lemma_below_draw_bound(*state, bound, DRAW_RETRY_LIMIT as nat);
    }
    loop
        invariant
            bound > 0,
            threshold == ((two_to_64() - bound) as nat) % (bound as nat),
            below_draw(*old(state), bound, DRAW_RETRY_LIMIT as nat) == below_draw(*state, bound, retries as nat),
        decreases retries,
    {
        let ghost before = *state;
        let x = next_u64(state);
        proof {
            lemma_high_half_below(x, bound);
        }
        let product: u128 = (x as u128) * (bound as u128);
        let low = (product % 0x1_0000_0000_0000_0000u128) as u64;
        if low >= threshold || retries == 0 {
            return (product / 0x1_0000_0000_0000_0000u128) as u64;
        }
        retries = retries - 1;
    }
}

/// Draws uniformly from the inclusive interval, including the full `i64`
/// domain.
fn random_inclusive(state: &mut i64, low: i64, high: i64) -> (r: i64)
    requires
        low <= high,
    ensures
        (r as int, *final(state)) == inclusive_draw(*old(state), low, high),
        low <= r <= high,
{
    let width: i128 = (high as i128) - (low as i128) + 1;
    let offset: i128 = if width == 0x1_0000_0000_0000_0000i128 {
        next_u64(state) as i128
    } else {
        uniform_below(state, width as u64) as i128
    };
    (low as i128 + offset) as i64
}

/// What a random built-in returns and the state it leaves. Invalid arguments
/// leave the state unchanged.
pub open spec fn random_result(function: Builtin, args: Seq<Datum>, state: i64) -> (Result<Datum, Seq<char>>, i64) {
    if !builtin_accepts(function, args.len()) {
        (Err(argument_count_message()), state)
    } else {
        match function {
            Builtin::Random => match (args[0], args[1]) {
                (Datum::Integer(low), Datum::Integer(high)) => if low > high {
                    (Err("random lower bound must not exceed upper bound"@), state)
                } else {
                    let (x, next) = inclusive_draw(state, low as i64, high as i64);
                    (Ok(Datum::Integer(x)), next)
                },
                _ => (Err("random expects two integers"@), state),
            },
            Builtin::Chance => match args[0] {
                Datum::Integer(percent) => if percent < 0 || percent > 100 {
                    (Err("chance percentage must be between 0 and 100"@), state)
                } else {
                    let (draw, next) = below_draw(state, 100, DRAW_RETRY_LIMIT as nat);
                    (Ok(Datum::Boolean(draw < percent)), next)
                },
                _ => (Err("chance expects an integer percentage"@), state),
            },
            _ => (Err("built-in is not a random function"@), state),
        }
    }
}

/// The state after `n` generator steps from `state`.
pub open spec fn advanced(state: i64, n: nat) -> i64
    decreases n,
{
    if n == 0 {
        state
    } else {
        advanced(next_draw(state).1, (n - 1) as nat)
    }
}

proof fn lemma_below_draw_steps(state: i64, bound: u64, retries: nat)
    ensures
        exists|n: nat| 1 <= n <= retries + 1 && #[trigger] advanced(state, n) == below_draw(state, bound, retries).1,
    decreases retries,
{
    let (x, next) = next_draw(state);
    reveal_with_fuel(advanced, 2);
    assert(advanced(state, 1) == next);
    let product = (x as nat) * (bound as nat);
    let low = product % two_to_64();
    let threshold = ((two_to_64() - bound) as nat) % (bound as nat);
    if low >= threshold || retries == 0 {
        assert(advanced(state, 1) == below_draw(state, bound, retries).1);
    } else {
        lemma_below_draw_steps(next, bound, (retries - 1) as nat);
        let n = choose|n: nat| 1 <= n <= retries && #[trigger] advanced(next, n) == below_draw(next, bound, (retries - 1) as nat).1;
        assert(advanced(state, n + 1) == advanced(next, n));
    }
}

/// The random built-ins keep their promises: `random(low, high)` with
/// `low <= high` gives an integer in `low..=high`; `chance(0)` is always
/// false and `chance(100)` always true; a successful call advances the
/// generator by at least one and at most 2^64 steps; a rejected call leaves
/// the state as it was. The result and next state are a function of the
/// arguments and the state, so two calls from one state agree.
pub proof fn random_builtins_keep_their_ranges(function: Builtin, args: Seq<Value>, state: i64)
    ensures
        ({
            let (result, next) = random_result(function, slice_views(args), state);
            &&& function == Builtin::Random && args.len() == 2 && args[0] is Integer && args[1] is Integer
                && args[0]->Integer_0 <= args[1]->Integer_0 ==> (result matches Ok(Datum::Integer(v))
                && args[0]->Integer_0 <= v <= args[1]->Integer_0)
            &&& function == Builtin::Chance && args.len() == 1 && args[0] == Value::Integer(0) ==> result
                == Ok::<Datum, Seq<char>>(Datum::Boolean(false))
            &&& function == Builtin::Chance && args.len() == 1 && args[0] == Value::Integer(100) ==> result
                == Ok::<Datum, Seq<char>>(Datum::Boolean(true))
            &&& result is Ok ==> exists|n: nat| 1 <= n <= two_to_64() && #[trigger] advanced(state, n) == next
            &&& result is Err ==> next == state
        }),
{
    let views = slice_views(args);
    let (result, next) = random_result(function, views, state);
    reveal_with_fuel(advanced, 2);
    if builtin_accepts(function, views.len()) {
        match function {
            Builtin::Random => {
                if let (Value::Integer(low), Value::Integer(high)) = (args[0], args[1]) {
                    assert(views[0] == Datum::Integer(low as int));
                    assert(views[1] == Datum::Integer(high as int));
                    if low <= high {
                        let width = high - low + 1;
                        if width == two_to_64() {
                            assert(advanced(state, 1) == next_draw(state).1);
                        } else {
                            lemma_below_draw_bound(state, width as u64, DRAW_RETRY_LIMIT as nat);
                            lemma_below_draw_steps(state, width as u64, DRAW_RETRY_LIMIT as nat);
                        }
                    }
                }
            },
            Builtin::Chance => {
                if let Value::Integer(percent) = args[0] {
                    assert(views[0] == Datum::Integer(percent as int));
                    if 0 <= percent <= 100 {
                        lemma_below_draw_bound(state, 100, DRAW_RETRY_LIMIT as nat);
                        lemma_below_draw_steps(state, 100, DRAW_RETRY_LIMIT as nat);
                    }
                }
            },
            _ => {},
        }
    }
}

proof fn lemma_find_key_first(entries: Seq<(Seq<char>, Datum)>, key: Seq<char>, j: int)
    requires
        0 <= j < entries.len(),
        entries[j].0 == key,
        forall|i: int| 0 <= i < j ==> (#[trigger] entries[i]).0 != key,
    ensures
        find_key(entries, key) == Some(j),
    decreases entries.len(),
{
    if j > 0 {
        let rest = entries.subrange(1, entries.len() as int);
        assert forall|i: int| 0 <= i < j - 1 implies (#[trigger] rest[i]).0 != key by {
            assert(rest[i] == entries[i + 1]);
        }
        assert(entries[0].0 != key);
        lemma_find_key_first(rest, key, j - 1);
    }
}

proof fn lemma_find_key_missing(entries: Seq<(Seq<char>, Datum)>, key: Seq<char>)
    requires
        forall|i: int| 0 <= i < entries.len() ==> (#[trigger] entries[i]).0 != key,
    ensures
        find_key(entries, key) is None,
    decreases entries.len(),
{
    if entries.len() > 0 {
        let rest = entries.subrange(1, entries.len() as int);
        assert forall|i: int| 0 <= i < rest.len() implies (#[trigger] rest[i]).0 != key by {
            assert(rest[i] == entries[i + 1]);
        }
        lemma_find_key_missing(rest, key);
    }
}

/// `get` reads an entry that exists whatever default is given: element `i`
/// of a list for `0 <= i < len`, and the value of the first entry with key
/// `k` of a record. The default is returned only when the entry is missing,
/// and a missing entry without a default is an error. When the value read
/// fits the data budget, invoking the built-in returns it.
pub proof fn get_reads_existing_entries(
    items: Seq<Datum>,
    index: int,
    entries: Seq<(Seq<char>, Datum)>,
    key: Seq<char>,
    at: int,
    default: Datum,
)
    ensures
        0 <= index < items.len() ==> {
            &&& owned_result(Builtin::Get, seq![Datum::List(items), Datum::Integer(index)]) == Ok::<Datum, Seq<char>>(
                items[index],
            )
            &&& owned_result(Builtin::Get, seq![Datum::List(items), Datum::Integer(index), default]) == Ok::<
                Datum,
                Seq<char>,
            >(items[index])
            &&& within_budget(items[index]) ==> builtin_result(
                Builtin::Get,
                seq![Datum::List(items), Datum::Integer(index), default],
            ) == Ok::<Datum, Seq<char>>(items[index])
        },
        !(0 <= index < items.len()) ==> {
            &&& owned_result(Builtin::Get, seq![Datum::List(items), Datum::Integer(index), default]) == Ok::<
                Datum,
                Seq<char>,
            >(default)
            &&& owned_result(Builtin::Get, seq![Datum::List(items), Datum::Integer(index)]) is Err
        },
        0 <= at < entries.len() && entries[at].0 == key && (forall|i: int| 0 <= i < at ==> (#[trigger] entries[i]).0 != key)
            ==> {
            &&& owned_result(Builtin::Get, seq![Datum::Record(entries), Datum::Text(key)]) == Ok::<Datum, Seq<char>>(
                entries[at].1,
            )
            &&& owned_result(Builtin::Get, seq![Datum::Record(entries), Datum::Text(key), default]) == Ok::<
                Datum,
                Seq<char>,
            >(entries[at].1)
            &&& within_budget(entries[at].1) ==> builtin_result(
                Builtin::Get,
                seq![Datum::Record(entries), Datum::Text(key), default],
            ) == Ok::<Datum, Seq<char>>(entries[at].1)
        },
        (forall|i: int| 0 <= i < entries.len() ==> (#[trigger] entries[i]).0 != key) ==> {
            &&& owned_result(Builtin::Get, seq![Datum::Record(entries), Datum::Text(key), default]) == Ok::<
                Datum,
                Seq<char>,
            >(default)
            &&& owned_result(Builtin::Get, seq![Datum::Record(entries), Datum::Text(key)]) is Err
        },
{
    if 0 <= at < entries.len() && entries[at].0 == key && (forall|i: int| 0 <= i < at ==> (#[trigger] entries[i]).0 != key) {
        lemma_find_key_first(entries, key, at);
    }
    if forall|i: int| 0 <= i < entries.len() ==> (#[trigger] entries[i]).0 != key {
        lemma_find_key_missing(entries, key);
    }
}

proof fn lemma_find_key_some(entries: Seq<(Seq<char>, Datum)>, key: Seq<char>)
    ensures
        find_key(entries, key) matches Some(i) ==> 0 <= i < entries.len() && entries[i].0 == key && forall|j: int|
            0 <= j < i ==> (#[trigger] entries[j]).0 != key,
        find_key(entries, key) is None ==> forall|j: int| 0 <= j < entries.len() ==> (#[trigger] entries[j]).0 != key,
    decreases entries.len(),
{
    if entries.len() > 0 {
        let rest = entries.subrange(1, entries.len() as int);
        lemma_find_key_some(rest, key);
        assert forall|j: int| 1 <= j < entries.len() implies entries[j] == rest[j - 1] by {}
    }
}

/// What `get` without a default gives for key `k` of a record: its value
/// when present.
pub open spec fn record_lookup(entries: Seq<(Seq<char>, Datum)>, key: Seq<char>) -> Option<Datum> {
    match owned_result(Builtin::Get, seq![Datum::Record(entries), Datum::Text(key)]) {
        Ok(d) => Some(d),
        Err(_) => None,
    }
}

/// Writing to a record reads back: after `put(r, k, v)`, `get` of `k` is
/// `v` and every other key reads as before; after `remove(r, k)` of a key
/// that is present, every other key reads as before; and `contains(r, k)`
/// holds exactly when `get(r, k)` finds an entry.
pub proof fn records_read_back_what_was_written(entries: Seq<(Seq<char>, Datum)>, key: Seq<char>, other: Seq<char>, value: Datum)
    requires
        key != other,
    ensures
        owned_result(Builtin::Put, seq![Datum::Record(entries), Datum::Text(key), value]) matches Ok(Datum::Record(
            after,
        )) && record_lookup(after, key) == Some(value) && record_lookup(after, other) == record_lookup(entries, other),
        record_lookup(entries, key) is Some ==> (owned_result(
            Builtin::Remove,
            seq![Datum::Record(entries), Datum::Text(key)],
        ) matches Ok(Datum::Record(after)) && record_lookup(after, other) == record_lookup(entries, other)),
        record_lookup(entries, key) is None ==> owned_result(Builtin::Remove, seq![Datum::Record(entries), Datum::Text(key)])
            is Err,
        owned_result(Builtin::Contains, seq![Datum::Record(entries), Datum::Text(key)]) == Ok::<Datum, Seq<char>>(
            Datum::Boolean(record_lookup(entries, key) is Some),
        ),
{
    lemma_find_key_some(entries, key);
    lemma_find_key_some(entries, other);
    let put = record_put(entries, key, value);
    match find_key(entries, key) {
        Some(i) => {
            let after = entries.update(i, (key, value));
            assert(put == after);
            assert(after[i].0 == key);
            assert forall|j: int| 0 <= j < i implies (#[trigger] after[j]).0 != key by {
                assert(after[j] == entries[j]);
            }
            lemma_find_key_first(after, key, i);
            match find_key(entries, other) {
                Some(o) => {
                    assert(o != i);
                    assert forall|j: int| 0 <= j < o implies (#[trigger] after[j]).0 != other by {
                        if j != i {
                            assert(after[j] == entries[j]);
                        }
                    }
                    assert(after[o] == entries[o]);
                    lemma_find_key_first(after, other, o);
                },
                None => {
                    assert forall|j: int| 0 <= j < after.len() implies (#[trigger] after[j]).0 != other by {
                        if j != i {
                            assert(after[j] == entries[j]);
                        }
                    }
                    lemma_find_key_missing(after, other);
                },
            }
            let removed = entries.remove(i);
            match find_key(entries, other) {
                Some(o) => {
                    if o < i {
                        assert forall|j: int| 0 <= j < o implies (#[trigger] removed[j]).0 != other by {
                            assert(removed[j] == entries[j]);
                        }
                        assert(removed[o] == entries[o]);
                        lemma_find_key_first(removed, other, o);
                    } else {
                        assert(o > i);
                        assert forall|j: int| 0 <= j < o - 1 implies (#[trigger] removed[j]).0 != other by {
                            if j < i {
                                assert(removed[j] == entries[j]);
                            } else {
                                assert(removed[j] == entries[j + 1]);
                            }
                        }
                        assert(removed[o - 1] == entries[o]);
                        lemma_find_key_first(removed, other, o - 1);
                    }
                },
                None => {
                    assert forall|j: int| 0 <= j < removed.len() implies (#[trigger] removed[j]).0 != other by {
                        if j < i {
                            assert(removed[j] == entries[j]);
                        } else {
                            assert(removed[j] == entries[j + 1]);
                        }
                    }
                    lemma_find_key_missing(removed, other);
                },
            }
        },
        None => {
            let pos = lower_bound(entries, key);
            lemma_lower_bound_range(entries, key);
            let after = entries.insert(pos, (key, value));
            assert(put == after);
            assert forall|j: int| 0 <= j < pos implies (#[trigger] after[j]).0 != key by {
                assert(after[j] == entries[j]);
            }
            assert(after[pos] == (key, value));
            lemma_find_key_first(after, key, pos);
            match find_key(entries, other) {
                Some(o) => {
                    if o < pos {
                        assert forall|j: int| 0 <= j < o implies (#[trigger] after[j]).0 != other by {
                            assert(after[j] == entries[j]);
                        }
                        assert(after[o] == entries[o]);
                        lemma_find_key_first(after, other, o);
                    } else {
                        assert forall|j: int| 0 <= j < o + 1 implies (#[trigger] after[j]).0 != other by {
                            if j < pos {
                                assert(after[j] == entries[j]);
                            } else if j > pos {
                                assert(after[j] == entries[j - 1]);
                            }
                        }
                        assert(after[o + 1] == entries[o]);
                        lemma_find_key_first(after, other, o + 1);
                    }
                },
                None => {
                    assert forall|j: int| 0 <= j < after.len() implies (#[trigger] after[j]).0 != other by {
                        if j < pos {
                            assert(after[j] == entries[j]);
                        } else if j > pos {
                            assert(after[j] == entries[j - 1]);
                        }
                    }
                    lemma_find_key_missing(after, other);
                },
            }
        },
    }
}

/// Lists read back what was written: `len` counts the elements; `push`
/// appends one element at the end and keeps the others; `put` at an
/// existing index changes only that element; `remove` at an existing index
/// drops it and keeps the order of the rest; `contains` finds exactly the
/// elements present.
pub proof fn lists_read_back_what_was_written(items: Seq<Datum>, index: int, other: int, value: Datum)
    requires
        items.len() < i64::MAX,
    ensures
        owned_result(Builtin::Len, seq![Datum::List(items)]) == Ok::<Datum, Seq<char>>(Datum::Integer(items.len() as int)),
        owned_result(Builtin::Push, seq![Datum::List(items), value]) matches Ok(Datum::List(after)) && after.len()
            == items.len() + 1 && owned_result(Builtin::Get, seq![Datum::List(after), Datum::Integer(items.len() as int)])
            == Ok::<Datum, Seq<char>>(value) && (0 <= other < items.len() ==> after[other] == items[other]),
        0 <= index < items.len() ==> (owned_result(Builtin::Put, seq![Datum::List(items), Datum::Integer(index), value])
            matches Ok(Datum::List(after)) && after.len() == items.len() && owned_result(
            Builtin::Get,
            seq![Datum::List(after), Datum::Integer(index)],
        ) == Ok::<Datum, Seq<char>>(value) && (0 <= other < items.len() && other != index ==> after[other]
            == items[other])),
        0 <= index < items.len() ==> (owned_result(Builtin::Remove, seq![Datum::List(items), Datum::Integer(index)])
            matches Ok(Datum::List(after)) && after.len() == items.len() - 1 && (0 <= other < index ==> after[other]
            == items[other]) && (index <= other < items.len() - 1 ==> after[other] == items[other + 1])),
        !(0 <= index < items.len()) ==> owned_result(Builtin::Put, seq![Datum::List(items), Datum::Integer(index), value])
            is Err,
        owned_result(Builtin::Contains, seq![Datum::List(items), value]) == Ok::<Datum, Seq<char>>(
            Datum::Boolean(exists|j: int| 0 <= j < items.len() && #[trigger] items[j] == value),
        ),
        owned_result(Builtin::Contains, seq![Datum::List(items.push(value)), value]) == Ok::<Datum, Seq<char>>(
            Datum::Boolean(true),
        ),
{
    assert(items.push(value)[items.len() as int] == value);
}

/// `list(...)` holds its arguments in order; `record(k1, v1, k2, v2)` with
/// two different string keys maps each key to its value; a repeated key or
/// a key that is not a string is an error.
pub proof fn constructors_hold_their_arguments(args: Seq<Datum>, k1: Seq<char>, v1: Datum, k2: Seq<char>, v2: Datum, bad: Datum)
    requires
        !(bad is Text),
    ensures
        owned_result(Builtin::List, args) == Ok::<Datum, Seq<char>>(Datum::List(args)),
        k1 != k2 ==> (owned_result(Builtin::Record, seq![Datum::Text(k1), v1, Datum::Text(k2), v2]) matches Ok(
            Datum::Record(entries),
        ) && entries.len() == 2 && record_lookup(entries, k1) == Some(v1) && record_lookup(entries, k2) == Some(v2)),
        owned_result(Builtin::Record, seq![Datum::Text(k1), v1, Datum::Text(k1), v2]) is Err,
        owned_result(Builtin::Record, seq![bad, v1]) is Err,
{
    let a = seq![Datum::Text(k1), v1, Datum::Text(k2), v2];
    let empty = Seq::<(Seq<char>, Datum)>::empty();
    assert(record_pairs(a, 2) == Ok::<Seq<(Seq<char>, Datum)>, Seq<char>>(empty));
    assert(find_key(empty, k2) is None);
    let one = record_put(empty, k2, v2);
    assert(lower_bound(empty, k2) == 0);
    assert(one =~= seq![(k2, v2)]);
    assert(record_pairs(a, 1) == Ok::<Seq<(Seq<char>, Datum)>, Seq<char>>(one));
    assert(one[0].0 == k2);
    lemma_find_key_first(one, k2, 0);
    if k1 != k2 {
        assert forall|i: int| 0 <= i < one.len() implies (#[trigger] one[i]).0 != k1 by {}
        lemma_find_key_missing(one, k1);
        records_read_back_what_was_written(one, k1, k2, v1);
        let entries = record_put(one, k1, v1);
        assert(record_lookup(one, k2) == Some(v2)) by {
            lemma_find_key_first(one, k2, 0);
        }
        lemma_lower_bound_range(one, k1);
        assert(entries.len() == 2);
    }
    let b = seq![Datum::Text(k1), v1, Datum::Text(k1), v2];
    assert(record_pairs(b, 2) == Ok::<Seq<(Seq<char>, Datum)>, Seq<char>>(empty));
    let one1 = record_put(empty, k1, v2);
    assert(one1 =~= seq![(k1, v2)]);
    assert(record_pairs(b, 1) == Ok::<Seq<(Seq<char>, Datum)>, Seq<char>>(one1));
    lemma_find_key_first(one1, k1, 0);
    let c = seq![bad, v1];
    assert(record_pairs(c, 1) == Ok::<Seq<(Seq<char>, Datum)>, Seq<char>>(empty));
}

/// The models of a slice of values.
pub open spec fn slice_views(s: Seq<Value>) -> Seq<Datum> {
    Seq::new(s.len(), |i: int| s[i]@)
}

/// Invokes `random(low, high)` or `chance(percent)`, advancing `state`.
pub fn invoke_random(function: Builtin, arguments: &[Value], state: &mut i64, line: usize) -> (r: Result<Value, EvalError>)
    ensures
        ({
            let (expected, next) = random_result(function, slice_views(arguments@), *old(state));
            &&& *final(state) == next
            &&& r matches Ok(v) ==> expected == Ok::<Datum, Seq<char>>(v@)
            &&& r matches Err(e) ==> e.line == line && expected == Err::<Datum, Seq<char>>(e.message@)
        }),
{
    if !function.accepts(arguments.len()) {
        return Err(EvalError::new(line, "invalid built-in argument count"));
    }
    match function {
        Builtin::Random => {
            match (&arguments[0], &arguments[1]) {
                (Value::Integer(low), Value::Integer(high)) => {
                    if *low > *high {
                        return Err(EvalError::new(line, "random lower bound must not exceed upper bound"));
                    }
                    Ok(Value::Integer(random_inclusive(state, *low, *high)))
                },
                _ => Err(EvalError::new(line, "random expects two integers")),
            }
        },
        Builtin::Chance => {
            match &arguments[0] {
                Value::Integer(percent) => {
                    if *percent < 0 || *percent > 100 {
                        return Err(EvalError::new(line, "chance percentage must be between 0 and 100"));
                    }
                    let draw = uniform_below(state, 100);
                    Ok(Value::Boolean(draw < (*percent as u64)))
                },
                _ => Err(EvalError::new(line, "chance expects an integer percentage")),
            }
        },
        _ => Err(EvalError::new(line, "built-in is not a random function")),
    }
}

} // verus!
