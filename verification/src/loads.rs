//! The frame-slot loads an expression may perform, with their columns.

use vstd::prelude::*;

verus! {

/// A frame slot read and the source column of the read.
pub type Load = (u32, usize);

/// A small set of loads: inline while it holds at most one entry.
#[derive(Debug)]
pub enum LoadSet {
    Uncomputed,
    Empty,
    One(Load),
    Many(Vec<Load>),
}

/// `std::slice::from_ref`: per its documentation, it turns a reference
/// into a slice of length one holding the referenced value, without
/// copying.
pub assume_specification<T>[ std::slice::from_ref::<T> ](s: &T) -> (r: &[T])
    ensures
        r@ == seq![*s],
;

/// Loads ordered by slot, then by column.
pub open spec fn load_less(a: Load, b: Load) -> bool {
    a.0 < b.0 || (a.0 == b.0 && a.1 < b.1)
}

/// Strictly increasing, so free of repeats.
pub open spec fn strictly_sorted(s: Seq<Load>) -> bool {
    forall|i: int, j: int| 0 <= i < j < s.len() ==> load_less(#[trigger] s[i], #[trigger] s[j])
}

impl LoadSet {
    /// The loads, in the order the set holds them.
    pub open spec fn items(&self) -> Seq<Load> {
        match *self {
            LoadSet::Uncomputed | LoadSet::Empty => Seq::empty(),
            LoadSet::One(load) => seq![load],
            LoadSet::Many(loads) => loads@,
        }
    }

    /// An empty set.
    pub fn new() -> (r: LoadSet)
        ensures
            r is Empty,
            r.items() == Seq::<Load>::empty(),
    {
        LoadSet::Empty
    }

    /// Adds `load` unless it is already present.
    pub fn insert(&mut self, load: Load)
        requires
            !(*old(self) is Uncomputed),
        ensures
            !(*final(self) is Uncomputed),
            old(self).items().contains(load) ==> final(self).items() == old(self).items(),
            !old(self).items().contains(load) ==> final(self).items() == old(self).items().push(load),
    {
        match self {
            LoadSet::Uncomputed => {},
            LoadSet::Empty => {
                *self = LoadSet::One(load);
                assert(self.items() =~= seq![load]);
            },
            LoadSet::One(existing) => {
                let first = *existing;
                if first.0 == load.0 && first.1 == load.1 {
                    assert(seq![first][0] == load);
                } else {
                    let mut loads: Vec<Load> = Vec::new();
                    loads.push(first);
                    loads.push(load);
                    *self = LoadSet::Many(loads);
                    assert(self.items() =~= seq![first].push(load));
                }
            },
            LoadSet::Many(loads) => {
                let mut items: Vec<Load> = Vec::new();
                std::mem::swap(&mut items, loads);
                if !holds_load(&items, load) {
                    items.push(load);
                }
                *self = LoadSet::Many(items);
            },
        }
    }

    /// Orders the loads by slot and column, keeping one of each.
    pub fn sort_and_deduplicate(&mut self)
        ensures
            strictly_sorted(final(self).items()),
            forall|x: Load| final(self).items().contains(x) <==> old(self).items().contains(x),
            (*final(self) is Uncomputed) == (*old(self) is Uncomputed),
            (*final(self) is Empty) == (*old(self) is Empty),
            (*final(self) is One) == (*old(self) is One),
    {
        let mut current = LoadSet::Empty;
        std::mem::swap(&mut current, self);
        match current {
            LoadSet::Many(loads) => {
                let sorted = sorted_distinct(&loads);
                *self = LoadSet::Many(sorted);
            },
            other => {
                *self = other;
            },
        }
    }

    /// The loads as a slice.
    pub fn as_slice(&self) -> (r: &[Load])
        ensures
            r@ == self.items(),
    {
        match self {
            LoadSet::Uncomputed | LoadSet::Empty => &[],
            LoadSet::One(load) => std::slice::from_ref(load),
            LoadSet::Many(loads) => loads.as_slice(),
        }
    }
}

fn holds_load(loads: &Vec<Load>, load: Load) -> (r: bool)
    ensures
        r == loads@.contains(load),
{
    let mut i: usize = 0;
    while i < loads.len()
        invariant
            i <= loads@.len(),
            forall|j: int| 0 <= j < i ==> loads@[j] != load,
        decreases loads@.len() - i,
    {
        if loads[i].0 == load.0 && loads[i].1 == load.1 {
            assert(loads@[i as int] == load);
            return true;
        }
        i = i + 1;
    }
    false
}

fn less(a: Load, b: Load) -> (r: bool)
    ensures
        r == load_less(a, b),
{
    a.0 < b.0 || (a.0 == b.0 && a.1 < b.1)
}

/// The distinct loads of `loads` in increasing order.
fn sorted_distinct(loads: &Vec<Load>) -> (r: Vec<Load>)
    ensures
        strictly_sorted(r@),
        forall|x: Load| r@.contains(x) <==> loads@.contains(x),
{
    let mut out: Vec<Load> = Vec::new();
    let mut i: usize = 0;
    while i < loads.len()
        invariant
            i <= loads@.len(),
            strictly_sorted(out@),
            forall|x: Load| out@.contains(x) <==> loads@.subrange(0, i as int).contains(x),
        decreases loads@.len() - i,
    {
        let item = loads[i];
        let ghost before = out@;
        let mut k: usize = 0;
        while k < out.len() && less(out[k], item)
            invariant
                out@ == before,
                k <= out@.len(),
                forall|j: int| 0 <= j < k ==> load_less(#[trigger] out@[j], item),
            decreases out@.len() - k,
        {
            k = k + 1;
        }
        if k < out.len() && out[k].0 == item.0 && out[k].1 == item.1 {
            assert(out@[k as int] == item);
        } else {
            out.insert(k, item);
            proof {
                assert forall|a: int, b: int| 0 <= a < b < out@.len() implies load_less(
                    #[trigger] out@[a],
                    #[trigger] out@[b],
                ) by {
                    if k < before.len() {
                        assert(!load_less(before[k as int], item));
                        assert(before[k as int] != item);
                    }
                    if b < k {
                        assert(out@[a] == before[a] && out@[b] == before[b]);
                    } else if b == k {
                        assert(out@[a] == before[a]);
                    } else if a == k {
                        assert(out@[b] == before[b - 1]);
                        if b - 1 > k {
                            assert(load_less(before[k as int], before[b - 1]));
                        }
                    } else if a < k {
                        assert(out@[a] == before[a] && out@[b] == before[b - 1]);
                    } else {
                        assert(out@[a] == before[a - 1] && out@[b] == before[b - 1]);
                    }
                }
            }
        }
        proof {
            assert(loads@.subrange(0, i + 1) =~= loads@.subrange(0, i as int).push(item));
            assert forall|x: Load| out@.contains(x) <==> loads@.subrange(0, i + 1).contains(x) by {
                if out@.contains(x) {
                    let j = choose|j: int| 0 <= j < out@.len() && #[trigger] out@[j] == x;
                    if x != item {
                        if out@.len() == before.len() {
                            assert(before.contains(x));
                        } else if j < k {
                            assert(before[j] == x);
                        } else {
                            assert(j != k as int);
                            assert(before[j - 1] == x);
                        }
                        assert(before.contains(x));
                        assert(loads@.subrange(0, i as int).contains(x));
                        let m = choose|m: int| 0 <= m < i && #[trigger] loads@.subrange(0, i as int)[m] == x;
                        assert(loads@.subrange(0, i + 1)[m] == x);
                    } else {
                        assert(loads@.subrange(0, i + 1)[i as int] == x);
                    }
                }
                if loads@.subrange(0, i + 1).contains(x) {
                    let m = choose|m: int| 0 <= m < i + 1 && #[trigger] loads@.subrange(0, i + 1)[m] == x;
                    if m < i {
                        assert(loads@.subrange(0, i as int)[m] == x);
                        assert(before.contains(x));
                        let j = choose|j: int| 0 <= j < before.len() && #[trigger] before[j] == x;
                        if out@.len() == before.len() {
                            assert(out@[j] == x);
                        } else if j < k {
                            assert(out@[j] == x);
                        } else {
                            assert(out@[j + 1] == x);
                        }
                    } else {
                        if out@.len() == before.len() {
                            assert(out@[k as int] == x);
                        } else {
                            assert(out@[k as int] == x);
                        }
                    }
                }
            }
        }
        i = i + 1;
    }
    assert(loads@.subrange(0, loads@.len() as int) =~= loads@);
    out
}

} // verus!
