//! Compile-time mapping between variable names and dense frame slots.
//!
//! Interning is monotonic: a name always maps to the same slot for the life
//! of the table, and the reverse mapping is kept for diagnostics. A table can
//! drop its names for a compact execution image; it keeps its width and its
//! random-state slot.

use vstd::prelude::*;
use vstd::string::*;

verus! {

/// Reserved slot name used to thread deterministic random state through a
/// frame. Its NUL prefix cannot appear in a script identifier.
pub const RNG_STATE_SLOT: &'static str = "\0velin_rng_state";

/// A stable assignment of variable names to frame indices.
#[derive(Debug)]
pub struct SlotTable {
    names: Vec<String>,
    width: usize,
    rng: Option<u32>,
}

/// Index of the first occurrence of `name` in `names`.
pub open spec fn index_of(names: Seq<Seq<char>>, name: Seq<char>) -> Option<nat>
    decreases names.len(),
{
    if names.len() == 0 {
        None
    } else if names[0] == name {
        Some(0)
    } else {
        match index_of(names.subrange(1, names.len() as int), name) {
            Some(i) => Some(i + 1),
            None => None,
        }
    }
}

pub proof fn lemma_index_of(names: Seq<Seq<char>>, name: Seq<char>)
    ensures
        index_of(names, name) matches Some(i) ==> i < names.len() && names[i as int] == name && forall|j: int| 0 <= j < i ==> names[j] != name,
        index_of(names, name) is None ==> forall|j: int| 0 <= j < names.len() ==> names[j] != name,
    decreases names.len(),
{
    if names.len() > 0 {
        let rest = names.subrange(1, names.len() as int);
        lemma_index_of(rest, name);
        assert forall|j: int| 1 <= j < names.len() implies names[j] == rest[j - 1] by {}
    }
}

pub proof fn lemma_index_of_push(names: Seq<Seq<char>>, name: Seq<char>, other: Seq<char>)
    requires
        index_of(names, name) is None,
    ensures
        index_of(names.push(name), name) == Some(names.len()),
        other != name ==> index_of(names.push(name), other) == index_of(names, other),
    decreases names.len(),
{
    if names.len() > 0 {
        let rest = names.subrange(1, names.len() as int);
        assert(names.push(name).subrange(1, names.len() as int + 1) =~= rest.push(name));
        assert(names.push(name)[0] == names[0]);
        lemma_index_of_push(rest, name, other);
        let pushed = names.push(name);
        assert(pushed.subrange(1, pushed.len() as int) == rest.push(name));
        if other != name && names[0] != other {
            assert(index_of(pushed, other) == (match index_of(rest.push(name), other) { Some(i) => Some(i + 1), None => None }));
            assert(index_of(names, other) == (match index_of(rest, other) { Some(i) => Some(i + 1), None => None }));
        }
    } else {
        let pushed = names.push(name);
        assert(pushed.subrange(1, pushed.len() as int) =~= Seq::<Seq<char>>::empty());
        assert(pushed[0] == name);
        assert(index_of(pushed.subrange(1, pushed.len() as int), other) is None);
        assert(other != name ==> index_of(pushed, other) is None);
        assert(index_of(names, other) is None);
    }
}

/// The slot names in slot order, as text.
pub open spec fn name_views(names: Seq<String>) -> Seq<Seq<char>> {
    Seq::new(names.len(), |i: int| names[i]@)
}

impl SlotTable {
    /// The names of the slots in slot order; empty once names are dropped.
    pub closed spec fn slot_names(&self) -> Seq<Seq<char>> {
        name_views(self.names@)
    }

    /// The number of slots.
    pub closed spec fn width(&self) -> nat {
        self.width as nat
    }

    /// The slot reserved for random state, if any.
    pub closed spec fn rng_slot(&self) -> Option<nat> {
        match self.rng {
            Some(slot) => Some(slot as nat),
            None => None,
        }
    }

    /// Whether the table still carries its names.
    pub open spec fn named(&self) -> bool {
        self.slot_names().len() == self.width()
    }

    /// The slot bound to `name`.
    pub open spec fn slot_of(&self, name: Seq<char>) -> Option<nat> {
        index_of(self.slot_names(), name)
    }

    /// The table is consistent: names (when kept) are distinct and one per
    /// slot, the random slot is inside the frame and, when names are kept, is
    /// the slot named by [`RNG_STATE_SLOT`].
    pub closed spec fn wf(&self) -> bool {
        &&& self.names@.len() == self.width || self.names@.len() == 0
        &&& self.width <= u32::MAX
        &&& forall|i: int, j: int|
            0 <= i < j < self.names@.len() ==> #[trigger] self.names@[i]@ != #[trigger] self.names@[j]@
        &&& self.rng matches Some(slot) ==> slot < self.width
        &&& self.names@.len() == self.width ==> self.rng_slot() == index_of(
            name_views(self.names@),
            RNG_STATE_SLOT@,
        )
    }

    pub fn new() -> (r: SlotTable)
        ensures
            r.wf(),
            r.width() == 0,
            r.slot_names() == Seq::<Seq<char>>::empty(),
            r.rng_slot() is None,
    {
        let r = SlotTable { names: Vec::new(), width: 0, rng: None };
        assert(name_views(r.names@) =~= Seq::<Seq<char>>::empty());
        r
    }

    /// Returns the slot for `name`, allocating the next slot on first use.
    pub fn intern(&mut self, name: &str) -> (r: u32)
        requires
            old(self).wf(),
            old(self).width() < u32::MAX,
        ensures
            final(self).wf(),
            old(self).slot_of(name@) matches Some(s) ==> r == s && *final(self) == *old(self),
            old(self).slot_of(name@) is None ==> {
                &&& r == old(self).width()
                &&& final(self).width() == old(self).width() + 1
                &&& old(self).named() ==> final(self).slot_names() == old(self).slot_names().push(name@)
                &&& !old(self).named() ==> final(self).slot_names() == old(self).slot_names()
                &&& final(self).rng_slot() == (if name@ == RNG_STATE_SLOT@ && old(self).named() {
                    Some(r as nat)
                } else {
                    old(self).rng_slot()
                })
            },
            final(self).named() == old(self).named(),
            final(self).named() ==> final(self).slot_of(name@) == Some(r as nat),
    {
        proof {
            lemma_index_of(name_views(self.names@), name@);
        }
        match self.get(name) {
            Some(slot) => {
                return slot;
            },
            None => {},
        }
        let slot = self.width as u32;
        let ghost before = name_views(self.names@);
        let named = self.names.len() == self.width;
        if named {
            self.names.push(String::from_str(name));
            proof {
                assert(name_views(self.names@) =~= before.push(name@));
                lemma_index_of_push(before, name@, RNG_STATE_SLOT@);
            }
            if is_rng_name(name) {
                self.rng = Some(slot);
            }
        }
        self.width = self.width + 1;
        proof {
            if named {
                assert forall|i: int, j: int|
                    0 <= i < j < self.names@.len() implies #[trigger] self.names@[i]@ != #[trigger] self.names@[j]@ by {
                    if j == self.names@.len() - 1 {
                        assert(before[i] == self.names@[i]@);
                    }
                }
                lemma_index_of_push(before, name@, name@);
            } else {
                if self.width == 1 {
                    // A table with no slots counts as named.
                    assert(false);
                }
            }
        }
        slot
    }

    /// Returns the dedicated random-state slot, allocating it on first use.
    pub fn intern_rng_state(&mut self) -> (r: u32)
        requires
            old(self).wf(),
            old(self).width() < u32::MAX,
        ensures
            final(self).wf(),
            old(self).slot_of(RNG_STATE_SLOT@) matches Some(s) ==> r == s && *final(self) == *old(self),
            old(self).slot_of(RNG_STATE_SLOT@) is None ==> r == old(self).width() && final(self).width()
                == old(self).width() + 1,
            old(self).slot_of(RNG_STATE_SLOT@) is None && old(self).named() ==> final(self).slot_names()
                == old(self).slot_names().push(RNG_STATE_SLOT@),
            final(self).named() == old(self).named(),
            final(self).named() ==> final(self).rng_slot() == Some(r as nat),
            final(self).named() ==> final(self).slot_of(RNG_STATE_SLOT@) == Some(r as nat),
    {
        self.intern(RNG_STATE_SLOT)
    }

    /// The random-state slot, when the program uses random operations.
    pub fn rng_state(&self) -> (r: Option<u32>)
        ensures
            r matches Some(s) ==> self.rng_slot() == Some(s as nat),
            r is None <==> self.rng_slot() is None,
    {
        self.rng
    }

    /// The slot for `name` if it has been interned.
    pub fn get(&self, name: &str) -> (r: Option<u32>)
        requires
            self.wf(),
        ensures
            r matches Some(s) ==> self.slot_of(name@) == Some(s as nat),
            r is None <==> self.slot_of(name@) is None,
    {
        let key = String::from_str(name);
        let ghost names = name_views(self.names@);
        let mut i: usize = 0;
        assert(names.subrange(0, names.len() as int) =~= names);
        while i < self.names.len()
            invariant
                key@ == name@,
                self.wf(),
                names == name_views(self.names@),
                i <= self.names@.len(),
                index_of(names, name@) == (match index_of(names.subrange(i as int, names.len() as int), name@) {
                    Some(k) => Some((k + i) as nat),
                    None => None,
                }),
            decreases self.names@.len() - i,
        {
            let ghost rest = names.subrange(i as int, names.len() as int);
            assert(rest[0] == names[i as int]);
            assert(rest.subrange(1, rest.len() as int) =~= names.subrange(i + 1, names.len() as int));
            if self.names[i] == key {
                return Some(i as u32);
            }
            i = i + 1;
        }
        None
    }

    /// The name bound to `slot`, if the table keeps names.
    pub fn name(&self, slot: u32) -> (r: Option<&str>)
        ensures
            r matches Some(n) ==> (slot as int) < self.slot_names().len() && n@ == self.slot_names()[slot as int],
            r is None <==> (slot as int) >= self.slot_names().len(),
    {
        if (slot as usize) < self.names.len() {
            Some(self.names[slot as usize].as_str())
        } else {
            None
        }
    }

    /// A consistent table's slots are numbered by `u32`.
    pub proof fn lemma_width_fits(&self)
        requires
            self.wf(),
        ensures
            self.width() <= u32::MAX,
    {
    }

    /// The number of slots: the frame width.
    pub fn len(&self) -> (r: usize)
        ensures
            r == self.width(),
    {
        self.width
    }

    pub fn is_empty(&self) -> (r: bool)
        ensures
            r == (self.width() == 0),
    {
        self.width == 0
    }

    /// All slot names in slot order.
    pub fn names(&self) -> (r: &[String])
        ensures
            name_views(r@) == self.slot_names(),
    {
        self.names.as_slice()
    }

    /// Whether the table still carries its slot names.
    pub fn has_names(&self) -> (r: bool)
        ensures
            r == self.named(),
    {
        self.names.len() == self.width
    }

    /// A copy of this table without names: same width and random slot, no
    /// name lookups.
    pub fn without_names(&self) -> (r: SlotTable)
        requires
            self.wf(),
        ensures
            r.wf(),
            r.width() == self.width(),
            r.rng_slot() == self.rng_slot(),
            r.slot_names() == Seq::<Seq<char>>::empty(),
            r.width() > 0 ==> !r.named(),
    {
        let r = SlotTable { names: Vec::new(), width: self.width, rng: self.rng };
        assert(name_views(r.names@) =~= Seq::<Seq<char>>::empty());
        r
    }

    /// Builds a table from slot names in slot order, rejecting a repeated
    /// name.
    pub fn from_names(names: Vec<String>) -> (r: Result<SlotTable, String>)
        requires
            names@.len() < u32::MAX,
        ensures
            r matches Ok(t) ==> t.wf() && t.slot_names() == name_views(names@) && t.named(),
            r is Ok <==> forall|i: int, j: int|
                0 <= i < j < names@.len() ==> names@[i]@ != names@[j]@,
            r matches Err(e) ==> exists|b: int|
                0 <= b < names@.len() && first_repeat(name_views(names@), b) && e@ == duplicate_message(names@[b]@),
    {
        let mut table = SlotTable::new();
        let mut i: usize = 0;
        while i < names.len()
            invariant
                table.wf(),
                table.named(),
                i <= names@.len(),
                names@.len() < u32::MAX,
                table.width() == i,
                table.slot_names() == name_views(names@.subrange(0, i as int)),
                forall|a: int, b: int| 0 <= a < b < i ==> names@[a]@ != names@[b]@,
            decreases names@.len() - i,
        {
            proof {
                lemma_index_of(table.slot_names(), names@[i as int]@);
            }
            if table.get(names[i].as_str()).is_some() {
                let ghost k = index_of(table.slot_names(), names@[i as int]@)->0;
                assert(names@[k as int]@ == names@[i as int]@);
                let mut message = String::from_str("duplicate slot name `");
                message.append(names[i].as_str());
                message.append("`");
                proof {
                    assert(name_views(names@.subrange(0, i as int))[k as int] == names@[k as int]@);
                    let all = name_views(names@);
                    assert(all[k as int] == all[i as int]);
                    assert forall|c: int| 0 <= c < i implies !repeats_earlier(all, c) by {
                        assert forall|a: int| 0 <= a < c implies all[a] != all[c] by {
                            assert(names@[a]@ != names@[c]@);
                        }
                    }
                    assert(first_repeat(all, i as int));
                }
                return Err(message);
            }
            table.intern(names[i].as_str());
            proof {
                assert(name_views(names@.subrange(0, i + 1)) =~= name_views(names@.subrange(0, i as int)).push(names@[i as int]@));
                assert forall|a: int, b: int| 0 <= a < b < i + 1 implies names@[a]@ != names@[b]@ by {
                    if b == i {
                        assert(name_views(names@.subrange(0, i as int))[a] == names@[a]@);
                    }
                }
            }
            i = i + 1;
        }
        proof {
            assert(names@.subrange(0, names@.len() as int) =~= names@);
        }
        Ok(table)
    }
}

/// A consistent table names each slot at most once, keeps either no names or
/// one name per slot, and places the random-state slot inside the frame.
pub proof fn consistent_tables_name_slots_once(t: SlotTable)
    requires
        t.wf(),
    ensures
        forall|i: int, j: int|
            0 <= i < j < t.slot_names().len() ==> #[trigger] t.slot_names()[i] != #[trigger] t.slot_names()[j],
        t.slot_names().len() == t.width() || t.slot_names().len() == 0,
        t.rng_slot() matches Some(s) ==> s < t.width(),
        t.named() ==> t.rng_slot() == t.slot_of(RNG_STATE_SLOT@),
{
}

/// The name at position `b` already occurs before it.
pub open spec fn repeats_earlier(names: Seq<Seq<char>>, b: int) -> bool {
    exists|a: int| 0 <= a < b && #[trigger] names[a] == names[b]
}

/// Position `b` holds the first name that occurs twice.
pub open spec fn first_repeat(names: Seq<Seq<char>>, b: int) -> bool {
    &&& repeats_earlier(names, b)
    &&& forall|c: int| 0 <= c < b ==> !#[trigger] repeats_earlier(names, c)
}

/// The error for a slot name given twice.
pub open spec fn duplicate_message(name: Seq<char>) -> Seq<char> {
    "duplicate slot name `"@ + name + "`"@
}

/// Whether `name` is the reserved random-state slot name.
fn is_rng_name(name: &str) -> (r: bool)
    ensures
        r == (name@ == RNG_STATE_SLOT@),
{
    String::from_str(name) == String::from_str(RNG_STATE_SLOT)
}

} // verus!
