//! Tables and sets of names, hashed with `rustc_hash`.
use rustc_hash::FxHashMap;
use rustc_hash::FxHashSet;
use vstd::prelude::*;

use crate::text::Text;

verus! {

/// The hasher builder of `rustc_hash`; nothing is known of it but that it is a type.
#[verifier::external_type_specification]
#[verifier::external_body]
pub struct ExFxBuildHasher(rustc_hash::FxBuildHasher);

/// The slot that an `FxHashMap` holds for each name.
pub uninterp spec fn slots_of(table: FxHashMap<String, usize>) -> Map<Text, usize>;

/// The names that an `FxHashSet` holds.
pub uninterp spec fn names_of(table: FxHashSet<String>) -> Set<Text>;

/// The pairs of names that an `FxHashSet` holds.
pub uninterp spec fn pairs_of(table: FxHashSet<(String, String)>) -> Set<(Text, Text)>;

/// `FxHashMap::default`: the new map holds no name.
#[verifier::external_body]
fn slots_new() -> (table: FxHashMap<String, usize>)
    ensures
        slots_of(table).dom() == Set::<Text>::empty(),
{
    FxHashMap::default()
}

/// `FxHashMap::get`: the slot of the name, where the map holds the name.
#[verifier::external_body]
fn slots_get(table: &FxHashMap<String, usize>, name: &str) -> (slot: Option<usize>)
    ensures
        slot == slots_of(*table).get(name@),
{
    table.get(name).copied()
}

/// `FxHashMap::insert`: the name has the slot from now on, all others keep theirs.
#[verifier::external_body]
fn slots_insert(table: &mut FxHashMap<String, usize>, name: String, slot: usize)
    ensures
        slots_of(*final(table)) == slots_of(*old(table)).insert(name@, slot),
{
    table.insert(name, slot);
}

/// `FxHashSet::default`: the new set is empty.
#[verifier::external_body]
pub(crate) fn names_new() -> (table: FxHashSet<String>)
    ensures
        names_of(table) == Set::<Text>::empty(),
{
    FxHashSet::default()
}

/// `FxHashSet::insert`: the set holds the name from now on; true where it did not before.
#[verifier::external_body]
pub(crate) fn names_insert(table: &mut FxHashSet<String>, name: String) -> (fresh: bool)
    ensures
        fresh == !names_of(*old(table)).contains(name@),
        names_of(*final(table)) == names_of(*old(table)).insert(name@),
{
    table.insert(name)
}

/// `FxHashSet::remove`: the set holds the name no longer.
#[verifier::external_body]
pub(crate) fn names_remove(table: &mut FxHashSet<String>, name: &str)
    ensures
        names_of(*final(table)) == names_of(*old(table)).remove(name@),
{
    table.remove(name);
}

/// `FxHashSet::contains`: whether the set holds the name.
#[verifier::external_body]
pub(crate) fn names_contain(table: &FxHashSet<String>, name: &str) -> (held: bool)
    ensures
        held == names_of(*table).contains(name@),
{
    table.contains(name)
}

/// `FxHashSet::default`: the new set is empty.
#[verifier::external_body]
pub(crate) fn pairs_new() -> (table: FxHashSet<(String, String)>)
    ensures
        pairs_of(table) == Set::<(Text, Text)>::empty(),
{
    FxHashSet::default()
}

/// `FxHashSet::insert`: the set holds the pair from now on; true where it did not before.
#[verifier::external_body]
pub(crate) fn pairs_insert(table: &mut FxHashSet<(String, String)>, pair: (String, String)) -> (fresh: bool)
    ensures
        fresh == !pairs_of(*old(table)).contains(pair.deep_view()),
        pairs_of(*final(table)) == pairs_of(*old(table)).insert(pair.deep_view()),
{
    table.insert(pair)
}

/// `FxHashSet::remove`: the set holds the pair no longer.
#[verifier::external_body]
pub(crate) fn pairs_remove(table: &mut FxHashSet<(String, String)>, pair: &(String, String))
    ensures
        pairs_of(*final(table)) == pairs_of(*old(table)).remove(pair.deep_view()),
{
    table.remove(pair);
}

/// Whether the slot of a name is `i`.
spec fn at_slot(slots: Map<Text, usize>, name: Text, i: int) -> bool {
    slots.contains_key(name) && slots[name] == i
}

/// A table from names to values that also keeps the order in which the names came.
pub struct NameMap<V> {
    slots: FxHashMap<String, usize>,
    keys: Vec<String>,
    values: Vec<V>,
}

impl<V> NameMap<V> {
    /// Every slot is that of the name that stands there, and no name stands in two places.
    pub closed spec fn wf(&self) -> bool {
        &&& self.keys@.len() == self.values@.len()
        &&& forall|i: int|
            0 <= i < self.keys@.len() ==> #[trigger] at_slot(slots_of(self.slots), self.keys@[i]@, i as int)
        &&& forall|name: Text| #[trigger]
            slots_of(self.slots).contains_key(name) ==> slots_of(self.slots)[name] < self.keys@.len()
                && self.keys@[slots_of(self.slots)[name] as int]@ == name
    }

    /// The value of each name.
    pub closed spec fn entries(&self) -> Map<Text, V> {
        slots_of(self.slots).map_values(|slot: usize| self.values@[slot as int])
    }

    /// The names in the order in which they came.
    pub closed spec fn order(&self) -> Seq<Text> {
        self.keys.deep_view()
    }

    /// The names are those of the order, each once.
    pub proof fn lemma_order(&self)
        requires
            self.wf(),
        ensures
            self.order().no_duplicates(),
            self.entries().dom() == self.order().to_set(),
            self.entries().dom().finite(),
    {
        assert forall|i: int, j: int| 0 <= i < j < self.order().len() implies self.order()[i]
            != self.order()[j] by {
            assert(at_slot(slots_of(self.slots), self.keys@[i]@, i as int));
            assert(at_slot(slots_of(self.slots), self.keys@[j]@, j as int));
        }
        assert forall|name: Text|
            self.entries().dom().contains(name) <==> self.order().to_set().contains(name) by {
            if self.entries().dom().contains(name) {
                assert(self.order()[slots_of(self.slots)[name] as int] == name);
            }
            if self.order().contains(name) {
                let i = choose|i: int| 0 <= i < self.order().len() && self.order()[i] == name;
                assert(at_slot(slots_of(self.slots), self.keys@[i]@, i as int));
            }
        }
        assert(self.entries().dom() =~= self.order().to_set());
        vstd::seq_lib::seq_to_set_is_finite(self.order());
    }

    /// A table without names.
    pub fn new() -> (map: Self)
        ensures
            map.wf(),
            map.entries() == Map::<Text, V>::empty(),
            map.order() == Seq::<Text>::empty(),
    {
        let map = NameMap { slots: slots_new(), keys: Vec::new(), values: Vec::new() };
        assert(map.entries() =~= Map::<Text, V>::empty());
        assert(map.order() =~= Seq::<Text>::empty());
        map
    }

    /// How many names the table holds.
    pub fn len(&self) -> (n: usize)
        ensures
            n == self.order().len(),
    {
        self.keys.len()
    }

    /// The place of a name in the order.
    pub fn position(&self, name: &str) -> (place: Option<usize>)
        requires
            self.wf(),
        ensures
            place is Some == self.entries().contains_key(name@),
            place is Some ==> place->0 < self.order().len() && self.order()[place->0 as int] == name@,
    {
        slots_get(&self.slots, name)
    }

    /// The value of a name.
    pub fn get(&self, name: &str) -> (value: Option<&V>)
        requires
            self.wf(),
        ensures
            value is Some == self.entries().contains_key(name@),
            value is Some ==> *value->0 == self.entries()[name@],
    {
        match slots_get(&self.slots, name) {
            Some(slot) => Some(&self.values[slot]),
            None => None,
        }
    }

    /// Whether the table holds a name.
    pub fn contains(&self, name: &str) -> (held: bool)
        requires
            self.wf(),
        ensures
            held == self.entries().contains_key(name@),
    {
        slots_get(&self.slots, name).is_some()
    }

    /// The name at a place in the order.
    pub fn key_at(&self, i: usize) -> (name: &String)
        requires
            i < self.order().len(),
        ensures
            name@ == self.order()[i as int],
    {
        &self.keys[i]
    }

    /// The value at a place in the order.
    pub fn value_at(&self, i: usize) -> (value: &V)
        requires
            self.wf(),
            i < self.order().len(),
        ensures
            self.entries().contains_key(self.order()[i as int]),
            *value == self.entries()[self.order()[i as int]],
    {
        assert(at_slot(slots_of(self.slots), self.keys@[i as int]@, i as int));
        &self.values[i]
    }

    /// The value at a place in the order, to change it.
    pub fn value_at_mut(&mut self, i: usize) -> (value: &mut V)
        requires
            old(self).wf(),
            i < old(self).order().len(),
        ensures
            *value == old(self).entries()[old(self).order()[i as int]],
            final(self).wf(),
            final(self).order() == old(self).order(),
            final(self).entries() == old(self).entries().insert(old(self).order()[i as int], *final(value)),
    {
        assert(at_slot(slots_of(self.slots), self.keys@[i as int]@, i as int));
        proof {
            let slots = slots_of(self.slots);
            let key = self.keys@[i as int]@;
            assert forall|v: V|
                #![trigger self.values@.update(i as int, v)]
                slots.map_values(|slot: usize| self.values@.update(i as int, v)[slot as int])
                    =~= slots.map_values(|slot: usize| self.values@[slot as int]).insert(key, v) by {
                assert forall|name: Text| slots.contains_key(name) && name != key implies slots[name] != i by {
                    assert(self.keys@[slots[name] as int]@ == name);
                }
            }
        }
        &mut self.values[i]
    }

    /// Gives a name its value, in place of the one that it had.
    pub fn insert(&mut self, name: String, value: V)
        requires
            old(self).wf(),
        ensures
            final(self).wf(),
            final(self).entries() == old(self).entries().insert(name@, value),
            final(self).order() == (if old(self).entries().contains_key(name@) {
                old(self).order()
            } else {
                old(self).order().push(name@)
            }),
    {
        let ghost before = *self;
        match slots_get(&self.slots, name.as_str()) {
            Some(slot) => {
                self.values.set(slot, value);
                assert forall|other: Text|
                    slots_of(self.slots).contains_key(other) && other != name@ implies slots_of(
                    self.slots,
                )[other] != slot by {
                    assert(self.keys@[slots_of(self.slots)[other] as int]@ == other);
                }
                assert(self.entries() =~= before.entries().insert(name@, value));
            },
            None => {
                let slot = self.keys.len();
                slots_insert(&mut self.slots, name.clone(), slot);
                self.keys.push(name);
                self.values.push(value);
                assert(self.order() =~= before.order().push(name@));
                assert(self.entries() =~= before.entries().insert(name@, value));
                assert forall|i: int| 0 <= i < self.keys@.len() implies #[trigger] at_slot(slots_of(self.slots), self.keys@[i]@, i) by {
                    if i < slot {
                        assert(at_slot(slots_of(before.slots), before.keys@[i]@, i as int));
                    }
                }
            },
        }
    }

    /// Takes a name out of the table.
    pub fn remove(&mut self, name: &str)
        requires
            old(self).wf(),
        ensures
            final(self).wf(),
            final(self).entries() == old(self).entries().remove(name@),
    {
        let ghost before = *self;
        match slots_get(&self.slots, name) {
            Some(slot) => {
                let _ = self.keys.remove(slot);
                let _ = self.values.remove(slot);
                let mut slots = slots_new();
                let mut i: usize = 0;
                assert forall|a: int, b: int|
                    0 <= a < b < before.keys@.len() implies before.keys@[a]@ != before.keys@[b]@ by {
                    assert(at_slot(slots_of(before.slots), before.keys@[a]@, a as int));
                    assert(at_slot(slots_of(before.slots), before.keys@[b]@, b as int));
                }
                while i < self.keys.len()
                    invariant
                        i <= self.keys@.len(),
                        slot < before.keys@.len(),
                        self.keys@ == before.keys@.remove(slot as int),
                        self.values@ == before.values@.remove(slot as int),
                        before.keys@.len() == before.values@.len(),
                        forall|a: int, b: int|
                            0 <= a < b < before.keys@.len() ==> before.keys@[a]@ != before.keys@[b]@,
                        forall|k: int|
                            0 <= k < i ==> #[trigger] at_slot(slots_of(slots), self.keys@[k]@, k as int),
                        forall|other: Text| #[trigger]
                            slots_of(slots).contains_key(other) ==> slots_of(slots)[other] < i
                                && self.keys@[slots_of(slots)[other] as int]@ == other,
                    decreases self.keys@.len() - i,
                {
                    let ghost old_slots = slots_of(slots);
                    slots_insert(&mut slots, self.keys[i].clone(), i);
                    assert forall|k: int| 0 <= k < i + 1 implies #[trigger] at_slot(slots_of(slots), self.keys@[k]@, k) by {
                        if k < i {
                            assert(at_slot(old_slots, self.keys@[k]@, k));
                            assert(self.keys@[k]@ != self.keys@[i as int]@);
                        }
                    }
                    i = i + 1;
                }
                self.slots = slots;
                assert forall|other: Text|
                    self.entries().contains_key(other) <==> before.entries().remove(
                        name@,
                    ).contains_key(other) by {
                    if slots_of(self.slots).contains_key(other) {
                        let k = slots_of(self.slots)[other] as int;
                        let b = if k < slot { k } else { k + 1 };
                        assert(before.keys@[b]@ == other);
                        assert(at_slot(slots_of(before.slots), before.keys@[b]@, b as int));
                        assert(slots_of(before.slots)[name@] == slot);
                    }
                    if slots_of(before.slots).contains_key(other) && other != name@ {
                        let b = slots_of(before.slots)[other] as int;
                        assert(before.keys@[b]@ == other);
                        let k = if b < slot { b } else { b - 1 };
                        assert(self.keys@[k]@ == other);
                        assert(at_slot(slots_of(self.slots), self.keys@[k]@, k as int));
                    }
                }
                assert forall|other: Text| self.entries().contains_key(other) implies
                    self.entries()[other] == before.entries().remove(name@)[other] by {
                    let k = slots_of(self.slots)[other] as int;
                    let b = if k < slot { k } else { k + 1 };
                    assert(before.keys@[b]@ == other);
                    assert(at_slot(slots_of(before.slots), before.keys@[b]@, b as int));
                }
                assert(self.entries() =~= before.entries().remove(name@));
            },
            None => {
                assert(self.entries() =~= before.entries().remove(name@));
            },
        }
    }
}

impl<V: DeepView> NameMap<V> {
    /// What the value of each name stands for.
    pub open spec fn deep_entries(&self) -> Map<Text, V::V> {
        self.entries().map_values(|value: V| value.deep_view())
    }
}

} // verus!
