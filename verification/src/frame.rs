//! Prevalidated initial variable frames for repeated program instantiation.
//!
//! Default values are prepared once: each is resolved to its slot and
//! measured against the data budget, so starting a run only copies the
//! frame.

use crate::slots::{name_views, SlotTable};
use crate::text::{lemma_text_less_asymmetric, lemma_text_less_irreflexive, lemma_text_less_total, lemma_text_less_transitive, text_is_less, text_less};
use crate::value::{budget_error, metrics_of, nesting, node_count, text_size, values_equal, within_budget, DataFootprint, DataMetrics, Datum, Value};
use vstd::prelude::*;
use vstd::string::*;

verus! {

/// A failure while preparing an [`InitialFrame`].
#[derive(Debug, Clone, PartialEq, Eq)]
pub struct InitialFrameError {
    pub name: String,
    pub message: &'static str,
}

impl InitialFrameError {
    /// The error as text.
    pub fn to_string(&self) -> (r: String)
        ensures
            r@ == "cannot prepare initial value `"@ + self.name@ + "`: "@ + self.message@,
    {
        let mut out = String::from_str("cannot prepare initial value `");
        out.append(self.name.as_str());
        out.append("`: ");
        out.append(self.message);
        out
    }
}

/// One validated value resolved to its destination slot.
#[derive(Debug)]
pub struct InitialValue {
    slot: u32,
    value: Value,
    metrics: DataMetrics,
}

impl InitialValue {
    /// The stored metrics are those of the stored value, which fits the
    /// per-value data budget.
    #[verifier::type_invariant]
    spec fn measured(&self) -> bool {
        &&& metrics_of(self.metrics, self.value@)
        &&& within_budget(self.value@)
    }

    /// The destination slot.
    pub closed spec fn target(&self) -> u32 {
        self.slot
    }

    /// The value.
    pub closed spec fn initial(&self) -> Value {
        self.value
    }

    /// The value's metrics.
    pub closed spec fn measure(&self) -> DataMetrics {
        self.metrics
    }

    /// Measures `value` once and binds it to the already resolved `slot`.
    /// Fails with the budget error, naming `name`, when the value exceeds the
    /// per-value data budget.
    pub fn new(name: &str, slot: u32, value: Value) -> (r: Result<InitialValue, InitialFrameError>)
        ensures
            r is Ok <==> within_budget(value@),
            r matches Ok(v) ==> v.target() == slot && v.initial() == value && metrics_of(v.measure(), value@),
            r matches Err(e) ==> e.name@ == name@ && e.message@ == budget_error(value@),
    {
        match value.data_metrics() {
            Ok(metrics) => Ok(InitialValue { slot, value, metrics }),
            Err(message) => Err(InitialFrameError { name: name.to_owned(), message }),
        }
    }
}

/// A dense, prevalidated variable frame, cloned when a run starts.
#[derive(Debug)]
pub struct InitialFrame {
    values: Vec<Option<Value>>,
    footprints: Vec<DataFootprint>,
    depths: Vec<u8>,
    total: DataFootprint,
    bindings: Vec<u32>,
    layout: Vec<String>,
}

/// The name errors use for `slot`.
pub open spec fn frame_label(names: Seq<Seq<char>>, slot: u32) -> Seq<char> {
    if (slot as int) < names.len() {
        names[slot as int]
    } else {
        "<unknown>"@
    }
}

/// The frame state after the first `k` entries, each a slot, a value and
/// its metrics: the value, footprint and depth of each slot, the totals, and
/// the slots bound in order; or the first failure as a name and a message.
pub open spec fn frame_scan(names: Seq<Seq<char>>, width: nat, vals: Seq<(u32, Datum, DataMetrics)>, k: int) -> Result<
    (Seq<Option<Datum>>, Seq<DataFootprint>, Seq<u8>, DataFootprint, Seq<u32>),
    (Seq<char>, Seq<char>),
>
    decreases k,
{
    if k <= 0 {
        Ok(
            (
                Seq::new(width, |i: int| None::<Datum>),
                Seq::new(width, |i: int| DataFootprint { values: 0, text_bytes: 0 }),
                Seq::new(width, |i: int| 0u8),
                DataFootprint { values: 0, text_bytes: 0 },
                Seq::empty(),
            ),
        )
    } else {
        match frame_scan(names, width, vals, k - 1) {
            Err(e) => Err(e),
            Ok((vs, fs, ds, t, bs)) => {
                let (slot, d, m) = vals[k - 1];
                let name = frame_label(names, slot);
                if slot >= width {
                    Err((name, "unknown variable slot"@))
                } else if vs[slot as int] is Some {
                    Err((name, "duplicate initial value"@))
                } else if t.values + m.footprint.values > usize::MAX {
                    Err((name, "initial value count overflow"@))
                } else if t.text_bytes + m.footprint.text_bytes > usize::MAX {
                    Err((name, "initial text size overflow"@))
                } else if m.max_depth > u8::MAX {
                    Err((name, "initial value depth overflow"@))
                } else {
                    Ok(
                        (
                            vs.update(slot as int, Some(d)),
                            fs.update(slot as int, m.footprint),
                            ds.update(slot as int, m.max_depth as u8),
                            DataFootprint {
                                values: (t.values + m.footprint.values) as usize,
                                text_bytes: (t.text_bytes + m.footprint.text_bytes) as usize,
                            },
                            bs.push(slot),
                        ),
                    )
                }
            },
        }
    }
}

/// The entries of prepared values.
pub open spec fn initial_entries(vals: Seq<InitialValue>) -> Seq<(u32, Datum, DataMetrics)> {
    Seq::new(vals.len(), |i: int| (vals[i].target(), vals[i].initial()@, vals[i].measure()))
}

/// The metrics of a value within the data budget.
pub open spec fn metrics_value(d: Datum) -> DataMetrics {
    DataMetrics {
        footprint: DataFootprint { values: node_count(d) as usize, text_bytes: text_size(d) as usize },
        max_depth: nesting(d) as usize,
    }
}

/// The entries for named values: each name resolved to its slot and each
/// value measured; or the first name that is unknown or whose value exceeds
/// the data budget, with the message.
pub open spec fn named_entries(slots: SlotTable, named: Seq<(Seq<char>, Datum)>, k: int) -> Result<
    Seq<(u32, Datum, DataMetrics)>,
    (Seq<char>, Seq<char>),
>
    decreases k,
{
    if k <= 0 {
        Ok(Seq::empty())
    } else {
        match named_entries(slots, named, k - 1) {
            Err(e) => Err(e),
            Ok(entries) => {
                let (name, d) = named[k - 1];
                match slots.slot_of(name) {
                    None => Err((name, "unknown variable"@)),
                    Some(slot) => if within_budget(d) {
                        Ok(entries.push((slot as u32, d, metrics_value(d))))
                    } else {
                        Err((name, budget_error(d)))
                    },
                }
            },
        }
    }
}

/// The values of a frame as data.
pub open spec fn value_data(values: Seq<Option<Value>>) -> Seq<Option<Datum>> {
    Seq::new(
        values.len(),
        |i: int|
            match values[i] {
                Some(v) => Some(v@),
                None => None,
            },
    )
}

/// `r` is the frame prepared from `entries` over `slots`, or the first
/// failure.
pub open spec fn prepared(slots: SlotTable, entries: Seq<(u32, Datum, DataMetrics)>, r: Result<InitialFrame, InitialFrameError>) -> bool {
    let names = slots.slot_names();
    match frame_scan(names, slots.width(), entries, entries.len() as int) {
        Err((name, message)) => r matches Err(e) && e.name@ == name && e.message@ == message,
        Ok((vs, fs, ds, t, bs)) => r matches Ok(f) && {
            &&& value_data(f.slot_values()) == vs
            &&& f.slot_footprints() == fs
            &&& f.slot_depths() == ds
            &&& f.totals() == t
            &&& distinct_slots(f.bound())
            &&& sorted_by_name(names, f.bound())
            &&& f.bound().len() == bs.len()
            &&& forall|x: u32| f.bound().contains(x) <==> bs.contains(x)
            &&& f.layout_names() == names
        },
    }
}

impl InitialFrame {
    /// One value, footprint and depth per slot, and bound slots inside the
    /// frame.
    #[verifier::type_invariant]
    spec fn consistent(&self) -> bool {
        &&& self.footprints@.len() == self.values@.len()
        &&& self.depths@.len() == self.values@.len()
        &&& forall|i: int| 0 <= i < self.bindings@.len() ==> #[trigger] self.bindings@[i] < self.values@.len()
    }

    pub closed spec fn slot_values(&self) -> Seq<Option<Value>> {
        self.values@
    }

    pub closed spec fn slot_footprints(&self) -> Seq<DataFootprint> {
        self.footprints@
    }

    pub closed spec fn slot_depths(&self) -> Seq<u8> {
        self.depths@
    }

    pub closed spec fn totals(&self) -> DataFootprint {
        self.total
    }

    pub closed spec fn bound(&self) -> Seq<u32> {
        self.bindings@
    }

    /// The slot names of the layout the frame was prepared for.
    pub closed spec fn layout_names(&self) -> Seq<Seq<char>> {
        name_views(self.layout@)
    }
}

/// The name errors report for `slot`.
fn frame_name(slots: &SlotTable, slot: u32) -> (r: String)
    ensures
        r@ == frame_label(slots.slot_names(), slot),
{
    match slots.name(slot) {
        Some(name) => name.to_owned(),
        None => "<unknown>".to_owned(),
    }
}

proof fn lemma_scan_error_persists(names: Seq<Seq<char>>, width: nat, vals: Seq<(u32, Datum, DataMetrics)>, k: int, m: int)
    requires
        0 <= k <= m,
        frame_scan(names, width, vals, k) is Err,
    ensures
        frame_scan(names, width, vals, m) == frame_scan(names, width, vals, k),
    decreases m - k,
{
    if m > k {
        lemma_scan_error_persists(names, width, vals, k, m - 1);
    }
}

proof fn lemma_scan_state(names: Seq<Seq<char>>, width: nat, vals: Seq<(u32, Datum, DataMetrics)>, k: int)
    requires
        0 <= k,
        frame_scan(names, width, vals, k) is Ok,
    ensures
        ({
            let (vs, fs, ds, t, bs) = frame_scan(names, width, vals, k)->Ok_0;
            &&& vs.len() == width
            &&& fs.len() == width
            &&& ds.len() == width
            &&& distinct_slots(bs)
            &&& forall|x: u32| bs.contains(x) <==> ((x as int) < width && vs[x as int] is Some)
        }),
    decreases k,
{
    if k > 0 {
        lemma_scan_state(names, width, vals, k - 1);
        let (vs, fs, ds, t, bs) = frame_scan(names, width, vals, k - 1)->Ok_0;
        let (slot, d, m) = vals[k - 1];
        let (vs2, fs2, ds2, t2, bs2) = frame_scan(names, width, vals, k)->Ok_0;
        assert(bs2 == bs.push(slot));
        assert forall|i: int, j: int| 0 <= i < j < bs2.len() implies #[trigger] bs2[i] != #[trigger] bs2[j] by {
            if j == bs.len() {
                assert(bs.contains(bs2[i]));
            }
        }
        assert forall|x: u32| bs2.contains(x) <==> ((x as int) < width && vs2[x as int] is Some) by {
            if bs2.contains(x) {
                let i = choose|i: int| 0 <= i < bs2.len() && bs2[i] == x;
                if i < bs.len() {
                    assert(bs.contains(x));
                }
            }
            if (x as int) < width && vs2[x as int] is Some {
                if x != slot {
                    assert(bs.contains(x));
                    let i = choose|i: int| 0 <= i < bs.len() && bs[i] == x;
                    assert(bs2[i] == x);
                } else {
                    assert(bs2[bs.len() as int] == x);
                }
            }
        }
    } else {
        let (vs, fs, ds, t, bs) = frame_scan(names, width, vals, k)->Ok_0;
        assert(bs.len() == 0);
    }
}

impl InitialFrame {
    /// Builds a dense frame from values whose slots and metrics were prepared
    /// in advance. The bound slots are ordered by name.
    ///
    /// Fails, naming the variable, for a slot outside the frame, a second
    /// value for one slot, or an overflow of the totals or of a depth.
    pub fn from_initial_values(slots: &SlotTable, values: Vec<InitialValue>) -> (r: Result<InitialFrame, InitialFrameError>)
        ensures
            prepared(*slots, initial_entries(values@), r),
    {
        let ghost names = slots.slot_names();
        let ghost entries = initial_entries(values@);
        let width = slots.len();
        let ghost w = width as nat;
        let mut frame_values: Vec<Option<Value>> = Vec::new();
        let mut footprints: Vec<DataFootprint> = Vec::new();
        let mut depths: Vec<u8> = Vec::new();
        let mut i: usize = 0;
        while i < width
            invariant
                i <= width,
                frame_values@.len() == i,
                footprints@.len() == i,
                depths@.len() == i,
                forall|x: int| 0 <= x < i ==> #[trigger] frame_values@[x] is None,
                forall|x: int| 0 <= x < i ==> #[trigger] footprints@[x] == (DataFootprint { values: 0, text_bytes: 0 }),
                forall|x: int| 0 <= x < i ==> #[trigger] depths@[x] == 0u8,
            decreases width - i,
        {
            frame_values.push(None);
            footprints.push(DataFootprint { values: 0, text_bytes: 0 });
            depths.push(0u8);
            i = i + 1;
        }
        let mut total = DataFootprint { values: 0, text_bytes: 0 };
        let mut bindings: Vec<u32> = Vec::new();
        let n = values.len();
        let mut rest = values;
        let mut k: usize = 0;
        proof {
            assert(value_data(frame_values@) =~= Seq::new(w, |x: int| None::<Datum>));
            assert(footprints@ =~= Seq::new(w, |x: int| DataFootprint { values: 0, text_bytes: 0 }));
            assert(depths@ =~= Seq::new(w, |x: int| 0u8));
        }
        while rest.len() > 0
            invariant
                names == slots.slot_names(),
                w == slots.width(),
                width == w,
                entries == initial_entries(values@),
                n == entries.len(),
                k <= n,
                rest@.len() == n - k,
                forall|x: int| 0 <= x < rest@.len() ==> #[trigger] initial_entries(rest@)[x] == entries[k + x],
                frame_scan(names, w, entries, k as int) == Ok::<_, (Seq<char>, Seq<char>)>(
                    (value_data(frame_values@), footprints@, depths@, total, bindings@),
                ),
            decreases rest@.len(),
        {
            let ghost rest0 = rest@;
            let initial = rest.remove(0);
            assert(initial_entries(rest0)[0] == entries[k as int]);
            proof {
                assert forall|x: int| 0 <= x < rest@.len() implies #[trigger] initial_entries(rest@)[x] == entries[k + 1 + x] by {
                    assert(rest@[x] == rest0[x + 1]);
                    assert(initial_entries(rest0)[x + 1] == entries[k + x + 1]);
                }
                lemma_scan_state(names, w, entries, k as int);
            }
            let InitialValue { slot, value, metrics } = initial;
            let index = slot as usize;
            if index >= width {
                let error = InitialFrameError { name: frame_name(slots, slot), message: "unknown variable slot" };
                proof {
                    lemma_scan_error_persists(names, w, entries, k + 1, n as int);
                }
                return Err(error);
            }
            if frame_values[index].is_some() {
                let error = InitialFrameError { name: frame_name(slots, slot), message: "duplicate initial value" };
                proof {
                    lemma_scan_error_persists(names, w, entries, k + 1, n as int);
                }
                return Err(error);
            }
            let count = match total.values.checked_add(metrics.footprint.values) {
                Some(count) => count,
                None => {
                    let error = InitialFrameError { name: frame_name(slots, slot), message: "initial value count overflow" };
                proof {
                    lemma_scan_error_persists(names, w, entries, k + 1, n as int);
                }
                return Err(error);
                },
            };
            let text_bytes = match total.text_bytes.checked_add(metrics.footprint.text_bytes) {
                Some(bytes) => bytes,
                None => {
                    let error = InitialFrameError { name: frame_name(slots, slot), message: "initial text size overflow" };
                proof {
                    lemma_scan_error_persists(names, w, entries, k + 1, n as int);
                }
                return Err(error);
                },
            };
            total = DataFootprint { values: count, text_bytes };
            let ghost datum = value@;
            frame_values.set(index, Some(value));
            footprints.set(index, metrics.footprint);
            if metrics.max_depth > 255 {
                let error = InitialFrameError { name: frame_name(slots, slot), message: "initial value depth overflow" };
                proof {
                    lemma_scan_error_persists(names, w, entries, k + 1, n as int);
                }
                return Err(error);
            }
            depths.set(index, metrics.max_depth as u8);
            bindings.push(slot);
            proof {
                let (vs, fs, ds, t, bs) = frame_scan(names, w, entries, k as int)->Ok_0;
                assert(value_data(frame_values@) =~= vs.update(index as int, Some(datum)));
            }
            k = k + 1;
        }
        proof {
            lemma_scan_state(names, w, entries, k as int);
        }
        let bindings = sort_by_name(slots, bindings);
        let mut layout: Vec<String> = Vec::new();
        let table = slots.names();
        let mut j: usize = 0;
        while j < table.len()
            invariant
                j <= table@.len(),
                layout@.len() == j,
                forall|x: int| 0 <= x < j ==> (#[trigger] layout@[x])@ == table@[x]@,
            decreases table@.len() - j,
        {
            let copy = table[j].clone();
            layout.push(copy);
            j = j + 1;
        }
        assert(name_views(layout@) =~= name_views(table@));
        proof {
            assert forall|x: int| 0 <= x < bindings@.len() implies #[trigger] bindings@[x] < frame_values@.len() by {
                assert(bindings@.contains(bindings@[x]));
            }
        }
        let frame = InitialFrame { values: frame_values, footprints, depths, total, bindings, layout };
        Ok(frame)
    }
}

/// The name of `slot` as an ordering key; a slot without a name sorts
/// first.
pub open spec fn name_key(names: Seq<Seq<char>>, slot: u32) -> Option<Seq<char>> {
    if (slot as int) < names.len() {
        Some(names[slot as int])
    } else {
        None
    }
}

/// `a` sorts strictly before `b`.
pub open spec fn key_less(a: Option<Seq<char>>, b: Option<Seq<char>>) -> bool {
    match (a, b) {
        (None, Some(_)) => true,
        (Some(x), Some(y)) => text_less(x, y),
        _ => false,
    }
}

/// The slots are in order of their names.
pub open spec fn sorted_by_name(names: Seq<Seq<char>>, s: Seq<u32>) -> bool {
    forall|i: int, j: int| 0 <= i < j < s.len() ==> !key_less(name_key(names, #[trigger] s[j]), name_key(names, #[trigger] s[i]))
}

/// No slot occurs twice.
pub open spec fn distinct_slots(s: Seq<u32>) -> bool {
    forall|i: int, j: int| 0 <= i < j < s.len() ==> #[trigger] s[i] != #[trigger] s[j]
}

proof fn lemma_key_order(a: Option<Seq<char>>, b: Option<Seq<char>>, c: Option<Seq<char>>)
    ensures
        !key_less(a, a),
        key_less(a, b) && key_less(b, c) ==> key_less(a, c),
        key_less(a, b) ==> !key_less(b, a),
{
    if let Some(x) = a {
        lemma_text_less_irreflexive(x);
        if let Some(y) = b {
            lemma_text_less_asymmetric(x, y);
            if let Some(z) = c {
                lemma_text_less_transitive(x, y, z);
            }
        }
    }
}

fn slot_key_less(slots: &SlotTable, a: u32, b: u32) -> (r: bool)
    ensures
        r == key_less(name_key(slots.slot_names(), a), name_key(slots.slot_names(), b)),
{
    match (slots.name(a), slots.name(b)) {
        (None, Some(_)) => true,
        (Some(x), Some(y)) => text_is_less(x, y),
        _ => false,
    }
}

/// The slots of `bound`, reordered by name: each slot is placed after every
/// slot whose name does not sort after its own.
fn sort_by_name(slots: &SlotTable, bound: Vec<u32>) -> (r: Vec<u32>)
    requires
        distinct_slots(bound@),
    ensures
        distinct_slots(r@),
        sorted_by_name(slots.slot_names(), r@),
        r@.len() == bound@.len(),
        forall|x: u32| r@.contains(x) <==> bound@.contains(x),
{
    let ghost names = slots.slot_names();
    let mut out: Vec<u32> = Vec::new();
    let mut k: usize = 0;
    while k < bound.len()
        invariant
            k <= bound@.len(),
            names == slots.slot_names(),
            distinct_slots(bound@),
            distinct_slots(out@),
            sorted_by_name(names, out@),
            out@.len() == k,
            forall|x: u32| out@.contains(x) <==> bound@.subrange(0, k as int).contains(x),
        decreases bound@.len() - k,
    {
        let slot = bound[k];
        let mut p: usize = 0;
        while p < out.len() && !slot_key_less(slots, slot, out[p])
            invariant
                p <= out@.len(),
                names == slots.slot_names(),
                forall|i: int| 0 <= i < p ==> !key_less(name_key(names, slot), name_key(names, #[trigger] out@[i])),
            decreases out@.len() - p,
        {
            p = p + 1;
        }
        let ghost before = out@;
        proof {
            assert(!bound@.subrange(0, k as int).contains(slot)) by {
                if bound@.subrange(0, k as int).contains(slot) {
                    let i = choose|i: int| 0 <= i < k && bound@.subrange(0, k as int)[i] == slot;
                    assert(bound@[i] == bound@[k as int]);
                }
            }
        }
        out.insert(p, slot);
        proof {
            assert(out@ == before.insert(p as int, slot));
            assert forall|i: int, j: int| 0 <= i < j < out@.len() implies #[trigger] out@[i] != #[trigger] out@[j] by {
                if i < p && j == p {
                    assert(before.contains(out@[i]));
                } else if i == p && j > p {
                    assert(out@[j] == before[j - 1]);
                    assert(before.contains(out@[j]));
                } else if i < p {
                    if j < p {
                        assert(out@[i] == before[i] && out@[j] == before[j]);
                    } else {
                        assert(out@[i] == before[i] && out@[j] == before[j - 1]);
                    }
                } else {
                    assert(out@[i] == before[i - 1] && out@[j] == before[j - 1]);
                }
            }
            assert forall|i: int, j: int| 0 <= i < j < out@.len() implies !key_less(
                name_key(names, #[trigger] out@[j]),
                name_key(names, #[trigger] out@[i]),
            ) by {
                let ks = name_key(names, slot);
                if j == p as int {
                    assert(out@[i] == before[i]);
                } else if i == p as int {
                    assert(out@[j] == before[j - 1]);
                    if p < before.len() {
                        assert(key_less(ks, name_key(names, before[p as int])));
                        if j - 1 > p {
                            assert(!key_less(name_key(names, before[j - 1]), name_key(names, before[p as int])));
                        }
                        lemma_key_order(name_key(names, before[j - 1]), ks, name_key(names, before[p as int]));
                        lemma_key_order(ks, ks, ks);
                    }
                } else if i < p {
                    if j < p {
                        assert(out@[i] == before[i] && out@[j] == before[j]);
                    } else {
                        assert(out@[i] == before[i] && out@[j] == before[j - 1]);
                    }
                } else {
                    assert(out@[i] == before[i - 1] && out@[j] == before[j - 1]);
                }
            }
            assert forall|x: u32| out@.contains(x) <==> bound@.subrange(0, k + 1).contains(x) by {
                let pre = bound@.subrange(0, k as int);
                let next = bound@.subrange(0, k + 1);
                assert(next == pre.push(slot));
                if out@.contains(x) {
                    let i = choose|i: int| 0 <= i < out@.len() && out@[i] == x;
                    if i < p {
                        assert(before[i] == x);
                        assert(before.contains(x));
                        let q = choose|q: int| 0 <= q < pre.len() && pre[q] == x;
                        assert(next[q] == x);
                    } else if i > p {
                        assert(before[i - 1] == x);
                        assert(before.contains(x));
                        let q = choose|q: int| 0 <= q < pre.len() && pre[q] == x;
                        assert(next[q] == x);
                    } else {
                        assert(next[k as int] == x);
                    }
                }
                if next.contains(x) {
                    let q = choose|q: int| 0 <= q < next.len() && next[q] == x;
                    if q < k {
                        assert(pre[q] == x);
                        assert(before.contains(x));
                        let i = choose|i: int| 0 <= i < before.len() && before[i] == x;
                        if i < p {
                            assert(out@[i] == x);
                        } else {
                            assert(out@[i + 1] == x);
                        }
                    } else {
                        assert(out@[p as int] == x);
                    }
                }
            }
        }
        k = k + 1;
    }
    assert(bound@.subrange(0, bound@.len() as int) =~= bound@);
    out
}

/// Named values as names and data.
pub open spec fn named_views(values: Seq<(&str, &Value)>) -> Seq<(Seq<char>, Datum)> {
    Seq::new(values.len(), |i: int| (values[i].0@, values[i].1@))
}

proof fn lemma_named_error_persists(slots: SlotTable, named: Seq<(Seq<char>, Datum)>, k: int, m: int)
    requires
        0 <= k <= m,
        named_entries(slots, named, k) is Err,
    ensures
        named_entries(slots, named, m) == named_entries(slots, named, k),
    decreases m - k,
{
    if m > k {
        lemma_named_error_persists(slots, named, k, m - 1);
    }
}

impl InitialFrame {
    /// Whether this frame was prepared for exactly this slot layout.
    pub open spec fn same_layout(&self, slots: SlotTable) -> bool {
        &&& self.slot_values().len() == slots.width()
        &&& self.layout_names() == slots.slot_names()
    }

    /// Resolves named values against `slots`, measures them, and prepares
    /// the frame. Fails, naming the variable, for an unknown name or a value
    /// over the data budget, and otherwise as
    /// [`from_initial_values`](InitialFrame::from_initial_values) does.
    pub fn from_named_values(slots: &SlotTable, values: &[(&str, &Value)]) -> (r: Result<InitialFrame, InitialFrameError>)
        requires
            slots.wf(),
        ensures
            match named_entries(*slots, named_views(values@), values@.len() as int) {
                Err((name, message)) => r matches Err(e) && e.name@ == name && e.message@ == message,
                Ok(entries) => prepared(*slots, entries, r),
            },
    {
        let ghost named = named_views(values@);
        let mut initial_values: Vec<InitialValue> = Vec::new();
        let mut i: usize = 0;
        assert(initial_entries(initial_values@) =~= Seq::<(u32, Datum, DataMetrics)>::empty());
        while i < values.len()
            invariant
                slots.wf(),
                i <= values@.len(),
                named == named_views(values@),
                named_entries(*slots, named, i as int) == Ok::<_, (Seq<char>, Seq<char>)>(initial_entries(initial_values@)),
            decreases values@.len() - i,
        {
            let (name, value) = values[i];
            assert(named[i as int] == (name@, value@));
            let slot = match slots.get(name) {
                Some(slot) => slot,
                None => {
                    let error = InitialFrameError { name: name.to_owned(), message: "unknown variable" };
                    proof {
                        lemma_named_error_persists(*slots, named, i + 1, values@.len() as int);
                    }
                    return Err(error);
                },
            };
            let initial = match InitialValue::new(name, slot, value.duplicate()) {
                Ok(initial) => initial,
                Err(error) => {
                    proof {
                        lemma_named_error_persists(*slots, named, i + 1, values@.len() as int);
                    }
                    return Err(error);
                },
            };
            let ghost before = initial_values@;
            initial_values.push(initial);
            proof {
                let m = initial.measure();
                assert(m == metrics_value(value@));
                assert(initial_entries(initial_values@) =~= initial_entries(before).push((slot, value@, m)));
            }
            i = i + 1;
        }
        Self::from_initial_values(slots, initial_values)
    }

    /// Whether this frame was prepared for exactly this slot layout.
    pub fn matches_layout(&self, slots: &SlotTable) -> (r: bool)
        ensures
            r == self.same_layout(*slots),
    {
        if self.values.len() != slots.len() {
            return false;
        }
        let table = slots.names();
        if table.len() != self.layout.len() {
            assert(name_views(table@).len() != self.layout_names().len());
            return false;
        }
        let mut i: usize = 0;
        while i < table.len()
            invariant
                i <= table@.len(),
                table@.len() == self.layout@.len(),
                name_views(table@) == slots.slot_names(),
                self.values@.len() == slots.width(),
                forall|x: int| 0 <= x < i ==> (#[trigger] table@[x])@ == self.layout@[x]@,
            decreases table@.len() - i,
        {
            if table[i] != self.layout[i] {
                proof {
                    assert(name_views(table@)[i as int] == table@[i as int]@);
                    assert(self.layout_names()[i as int] == self.layout@[i as int]@);
                    assert(name_views(table@)[i as int] != self.layout_names()[i as int]);
                    assert(slots.slot_names() == name_views(table@));
                }
                return false;
            }
            i = i + 1;
        }
        assert(name_views(table@) =~= self.layout_names());
        true
    }

    /// Whether `values`, in order, are exactly the named values this frame
    /// binds, in the order of their names, on the same layout.
    pub fn matches_named_values(&self, slots: &SlotTable, values: &[(&str, &Value)]) -> (r: bool)
        ensures
            r == (self.same_layout(*slots) && self.bound().len() == values@.len() && forall|i: int|
                0 <= i < values@.len() ==> {
                    &&& name_key(slots.slot_names(), #[trigger] self.bound()[i]) == Some(values@[i].0@)
                    &&& value_data(self.slot_values())[self.bound()[i] as int] == Some(values@[i].1@)
                }),
    {
        proof {
            use_type_invariant(self);
        }
        if !self.matches_layout(slots) {
            return false;
        }
        if self.bindings.len() != values.len() {
            return false;
        }
        let mut i: usize = 0;
        while i < values.len()
            invariant
                i <= values@.len(),
                self.bindings@.len() == values@.len(),
                forall|x: int| 0 <= x < self.bindings@.len() ==> #[trigger] self.bindings@[x] < self.values@.len(),
                forall|x: int|
                    0 <= x < i ==> {
                        &&& name_key(slots.slot_names(), #[trigger] self.bound()[x]) == Some(values@[x].0@)
                        &&& value_data(self.slot_values())[self.bound()[x] as int] == Some(values@[x].1@)
                    },
            decreases values@.len() - i,
        {
            let slot = self.bindings[i];
            let (name, value) = values[i];
            let name_matches = match slots.name(slot) {
                Some(bound_name) => {
                    let left = String::from_str(bound_name);
                    let right = String::from_str(name);
                    left == right
                },
                None => false,
            };
            if !name_matches {
                return false;
            }
            let value_matches = match &self.values[slot as usize] {
                Some(held) => values_equal(held, value),
                None => false,
            };
            if !value_matches {
                return false;
            }
            i = i + 1;
        }
        true
    }

    /// The value of each slot, if it has one.
    pub fn values(&self) -> (r: &[Option<Value>])
        ensures
            r@ == self.slot_values(),
    {
        self.values.as_slice()
    }

    /// The footprint of each slot's value.
    pub fn footprints(&self) -> (r: &[DataFootprint])
        ensures
            r@ == self.slot_footprints(),
    {
        self.footprints.as_slice()
    }

    /// The nesting depth of each slot's value.
    pub fn depths(&self) -> (r: &[u8])
        ensures
            r@ == self.slot_depths(),
    {
        self.depths.as_slice()
    }

    /// The footprint of all values together.
    pub fn total(&self) -> (r: DataFootprint)
        ensures
            r == self.totals(),
    {
        self.total
    }

    /// The slots this frame fills, in order of their names.
    pub fn assigned_slots(&self) -> (r: &[u32])
        ensures
            r@ == self.bound(),
    {
        self.bindings.as_slice()
    }
}

} // verus!
