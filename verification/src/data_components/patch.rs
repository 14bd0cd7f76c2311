//! Modifications of a component prototype.
use rustc_hash::FxHashMap;
use vstd::prelude::*;

use crate::data_components::map::{
    component_at, distinct_ids, law_stored_component_is_found, DataComponentMap,
};
use crate::data_components::{Component, ComponentData, DataComponentGetter, DataComponentType};
use crate::ident::{Id, Identifier};
use crate::keyed::{by_key, find, holds_id};
use crate::nbt::NbtTag;

verus! {

/// The hasher of `rustc_hash`'s maps and sets, carried through as it is.
#[verifier::external_type_specification]
#[verifier::external_body]
pub struct ExFxBuildHasher(rustc_hash::FxBuildHasher);

/// What a patch does to one component, as a mathematical value.
pub ghost enum Change {
    SetTo(Component),
    Removed,
}

/// Entry in a component patch.
#[derive(Debug)]
pub enum ComponentPatchEntry {
    /// The component is set to this value.
    SetTo(ComponentData),
    /// The component is explicitly removed.
    Removed,
}

impl View for ComponentPatchEntry {
    type V = Change;

    open spec fn view(&self) -> Change {
        match self {
            ComponentPatchEntry::SetTo(data) => Change::SetTo(data@),
            ComponentPatchEntry::Removed => Change::Removed,
        }
    }
}

impl ComponentPatchEntry {
    /// A copy of this entry.
    pub fn copy(&self) -> (entry: Self)
        ensures
            entry@ == self@,
    {
        match self {
            ComponentPatchEntry::SetTo(data) => ComponentPatchEntry::SetTo(data.copy()),
            ComponentPatchEntry::Removed => ComponentPatchEntry::Removed,
        }
    }

    /// Whether both entries do the same.
    pub fn same(&self, other: &ComponentPatchEntry) -> (same: bool)
        ensures
            same == (self@ == other@),
    {
        match (self, other) {
            (ComponentPatchEntry::SetTo(a), ComponentPatchEntry::SetTo(b)) => a.same(b),
            (ComponentPatchEntry::Removed, ComponentPatchEntry::Removed) => true,
            _ => false,
        }
    }
}

/// The entries of a hash map from identifiers to patch entries.
pub uninterp spec fn changes(entries: FxHashMap<Identifier, ComponentPatchEntry>) -> Map<
    Id,
    Change,
>;

/// `FxHashMap::default`: a map without entries.
#[verifier::external_body]
fn no_changes() -> (entries: FxHashMap<Identifier, ComponentPatchEntry>)
    ensures
        changes(entries).dom() =~= Set::empty(),
{
    FxHashMap::default()
}

/// A set of exactly `count` identifiers.
pub open spec fn counts(count: nat, ids: Set<Id>) -> bool {
    exists|listed: Seq<Id>|
        #![trigger listed.to_set()]
        listed.len() == count && listed.no_duplicates() && listed.to_set() == ids
}

proof fn lemma_counts(count: nat, ids: Set<Id>)
    requires
        counts(count, ids),
    ensures
        ids.finite(),
        ids.len() == count,
{
    let listed = choose|listed: Seq<Id>|
        #![trigger listed.to_set()]
        listed.len() == count && listed.no_duplicates() && listed.to_set() == ids;
    listed.unique_seq_to_set();
    vstd::seq_lib::seq_to_set_is_finite(listed);
}

/// `FxHashMap::len`: the number of entries.
#[verifier::external_body]
fn change_count(entries: &FxHashMap<Identifier, ComponentPatchEntry>) -> (count: usize)
    ensures
        counts(count as nat, changes(*entries).dom()),
{
    entries.len()
}

/// `FxHashMap::insert`: the entry takes the place of an earlier one under the same
/// key. Keys are the same where both parts of the identifiers are.
#[verifier::external_body]
fn put_change(
    entries: &mut FxHashMap<Identifier, ComponentPatchEntry>,
    key: Identifier,
    entry: ComponentPatchEntry,
)
    ensures
        changes(*final(entries)) == changes(*old(entries)).insert(key@, entry@),
{
    entries.insert(key, entry);
}

/// `FxHashMap::remove`: no entry is left under the key, and the others stay.
#[verifier::external_body]
fn drop_change(entries: &mut FxHashMap<Identifier, ComponentPatchEntry>, key: &Identifier)
    ensures
        changes(*final(entries)) == changes(*old(entries)).remove(key@),
{
    entries.remove(key);
}

/// `FxHashMap::get`: the entry under the key.
#[verifier::external_body]
fn change_at<'a>(
    entries: &'a FxHashMap<Identifier, ComponentPatchEntry>,
    key: &Identifier,
) -> (entry: Option<&'a ComponentPatchEntry>)
    ensures
        match entry {
            Some(entry) => changes(*entries).contains_key(key@) && changes(*entries)[key@]
                == entry@,
            None => !changes(*entries).contains_key(key@),
        },
{
    entries.get(key)
}

/// The listed pairs are the entries of `map`, each once.
pub open spec fn lists(
    pairs: Seq<(&Identifier, &ComponentPatchEntry)>,
    map: Map<Id, Change>,
) -> bool {
    &&& forall|i: int|
        0 <= i < pairs.len() ==> map.contains_key((#[trigger] pairs[i]).0@) && map[pairs[i].0@]
            == pairs[i].1@
    &&& forall|i: int, j: int|
        0 <= i < j < pairs.len() ==> (#[trigger] pairs[i]).0@ != (#[trigger] pairs[j]).0@
    &&& forall|id: Id|
        map.contains_key(id) ==> exists|i: int| 0 <= i < pairs.len() && #[trigger] pairs[i].0@ == id
}

/// `FxHashMap::iter`: every entry once, in an order that is left open.
#[verifier::external_body]
fn list_changes<'a>(entries: &'a FxHashMap<Identifier, ComponentPatchEntry>) -> (pairs: Vec<
    (&'a Identifier, &'a ComponentPatchEntry),
>)
    ensures
        lists(pairs@, changes(*entries)),
{
    entries.iter().collect()
}

/// The differences from a component prototype: components that are added or
/// overridden, and components that are explicitly removed.
#[derive(Debug)]
pub struct DataComponentPatch {
    entries: FxHashMap<Identifier, ComponentPatchEntry>,
}

impl View for DataComponentPatch {
    type V = Map<Id, Change>;

    closed spec fn view(&self) -> Map<Id, Change> {
        changes(self.entries)
    }
}

/// The set and removed halves of a patch.
#[derive(Debug)]
pub struct SplitResult {
    pub added: DataComponentMap,
    pub removed: Vec<Identifier>,
}

/// The effective value of a component under a patch of a prototype.
pub open spec fn patched(
    patch: Map<Id, Change>,
    prototype: Seq<(Id, Component)>,
    id: Id,
) -> Option<Component> {
    if patch.contains_key(id) {
        match patch[id] {
            Change::SetTo(data) => Some(data),
            Change::Removed => None,
        }
    } else {
        component_at(prototype, id)
    }
}

/// Whether a change differs from what the prototype has anyway.
pub open spec fn is_effective(change: Change, default: Option<Component>) -> bool {
    match change {
        Change::SetTo(data) => default != Some(data),
        Change::Removed => default is Some,
    }
}

/// The entries of `patch` that set a value.
pub open spec fn set_ids(patch: Map<Id, Change>) -> Set<Id> {
    patch.dom().filter(|id: Id| patch[id] is SetTo)
}

/// The entries of `patch` that remove a component.
pub open spec fn removed_ids(patch: Map<Id, Change>) -> Set<Id> {
    patch.dom().filter(|id: Id| patch[id] is Removed)
}

/// The identifiers of the listed entries of the wanted sort.
spec fn listed_ids(pairs: Seq<(&Identifier, &ComponentPatchEntry)>, set: bool) -> Set<Id>
    decreases pairs.len(),
{
    if pairs.len() == 0 {
        Set::empty()
    } else {
        let before = listed_ids(pairs.drop_last(), set);
        if (pairs.last().1@ is SetTo) == set {
            before.insert(pairs.last().0@)
        } else {
            before
        }
    }
}

proof fn lemma_listed_ids(pairs: Seq<(&Identifier, &ComponentPatchEntry)>, set: bool)
    ensures
        listed_ids(pairs, set).finite(),
        forall|id: Id| #[trigger]
            listed_ids(pairs, set).contains(id) <==> exists|i: int|
                0 <= i < pairs.len() && #[trigger] pairs[i].0@ == id && (pairs[i].1@ is SetTo) == set,
    decreases pairs.len(),
{
    if pairs.len() > 0 {
        let before = pairs.drop_last();
        lemma_listed_ids(before, set);
        assert forall|id: Id| #[trigger] listed_ids(pairs, set).contains(id) implies exists|i: int|
            0 <= i < pairs.len() && #[trigger] pairs[i].0@ == id && (pairs[i].1@ is SetTo) == set by {
            if listed_ids(before, set).contains(id) {
                let i = choose|i: int|
                    0 <= i < before.len() && #[trigger] before[i].0@ == id && (before[i].1@ is SetTo)
                        == set;
                assert(pairs[i] == before[i]);
            } else {
                assert(pairs[pairs.len() - 1].0@ == id);
            }
        }
        assert forall|id: Id|
            (exists|i: int|
                0 <= i < pairs.len() && #[trigger] pairs[i].0@ == id && (pairs[i].1@ is SetTo)
                    == set) implies #[trigger] listed_ids(pairs, set).contains(id) by {
            let i = choose|i: int|
                0 <= i < pairs.len() && #[trigger] pairs[i].0@ == id && (pairs[i].1@ is SetTo) == set;
            if i < before.len() {
                assert(before[i] == pairs[i]);
            }
        }
    }
}

impl DataComponentPatch {
    pub fn new() -> (patch: Self)
        ensures
            patch@ == Map::<Id, Change>::empty(),
    {
        let entries = no_changes();
        assert(changes(entries) =~= Map::empty());
        DataComponentPatch { entries }
    }

    pub fn is_empty(&self) -> (empty: bool)
        ensures
            empty == (self@ == Map::<Id, Change>::empty()),
    {
        let count: usize = change_count(&self.entries);
        proof {
            lemma_counts(count as nat, self@.dom());
            if count == 0 {
                assert(self@.dom() =~= Set::empty());
                assert(self@ =~= Map::empty());
            }
        }
        count == 0
    }

    pub fn len(&self) -> (len: usize)
        ensures
            self@.dom().finite(),
            len == self@.dom().len(),
    {
        let count: usize = change_count(&self.entries);
        proof {
            lemma_counts(count as nat, self@.dom());
        }
        count
    }

    /// Sets a component value in the patch.
    pub fn set(&mut self, component: &DataComponentType, value: NbtTag)
        ensures
            final(self)@ == old(self)@.insert(
                component.key@,
                Change::SetTo(Component { kind: component.kind, value: value@ }),
            ),
    {
        put_change(
            &mut self.entries,
            component.key.clone(),
            ComponentPatchEntry::SetTo(ComponentData { kind: component.kind, value }),
        );
    }

    /// Sets a component value under an identifier.
    pub fn set_component_data(&mut self, key: Identifier, data: ComponentData)
        ensures
            final(self)@ == old(self)@.insert(key@, Change::SetTo(data@)),
    {
        put_change(&mut self.entries, key, ComponentPatchEntry::SetTo(data));
    }

    /// Sets raw component data, and tells whether that was done. It is refused where
    /// the key is unregistered or the value is not of its type.
    pub fn set_raw(
        &mut self,
        key: Identifier,
        data: ComponentData,
        types: &Vec<DataComponentType>,
    ) -> (done: bool)
        ensures
            done == match find(types@, key@) {
                Some(component) => component.kind == data.kind,
                None => false,
            },
            final(self)@ == if done {
                old(self)@.insert(key@, Change::SetTo(data@))
            } else {
                old(self)@
            },
    {
        match by_key(types, &key) {
            Some(component) => {
                if !component.validates(&data) {
                    return false;
                }
            },
            None => {
                return false;
            },
        }
        put_change(&mut self.entries, key, ComponentPatchEntry::SetTo(data));
        true
    }

    /// Marks a component as removed.
    pub fn remove(&mut self, component: &DataComponentType)
        ensures
            final(self)@ == old(self)@.insert(component.key@, Change::Removed),
    {
        put_change(&mut self.entries, component.key.clone(), ComponentPatchEntry::Removed);
    }

    /// Marks the component of an identifier as removed.
    pub fn set_removed(&mut self, key: Identifier)
        ensures
            final(self)@ == old(self)@.insert(key@, Change::Removed),
    {
        put_change(&mut self.entries, key, ComponentPatchEntry::Removed);
    }

    /// Marks a registered component as removed, and tells whether it is registered.
    pub fn remove_raw(&mut self, key: Identifier, types: &Vec<DataComponentType>) -> (done: bool)
        ensures
            done == find(types@, key@) is Some,
            final(self)@ == if done {
                old(self)@.insert(key@, Change::Removed)
            } else {
                old(self)@
            },
    {
        if by_key(types, &key).is_none() {
            return false;
        }
        put_change(&mut self.entries, key, ComponentPatchEntry::Removed);
        true
    }

    /// Clears any patch entry for a component.
    pub fn clear(&mut self, component: &DataComponentType)
        ensures
            final(self)@ == old(self)@.remove(component.key@),
    {
        drop_change(&mut self.entries, &component.key);
    }

    /// Gets the patch entry for a key.
    pub fn get_entry(&self, key: &Identifier) -> (entry: Option<&ComponentPatchEntry>)
        ensures
            match entry {
                Some(entry) => self@.contains_key(key@) && self@[key@] == entry@,
                None => !self@.contains_key(key@),
            },
    {
        change_at(&self.entries, key)
    }

    /// Checks if a component is marked as removed.
    pub fn is_removed(&self, key: &Identifier) -> (removed: bool)
        ensures
            removed == (self@.contains_key(key@) && self@[key@] is Removed),
    {
        match change_at(&self.entries, key) {
            Some(ComponentPatchEntry::Removed) => true,
            _ => false,
        }
    }

    fn count(&self, set: bool) -> (count: usize)
        ensures
            set ==> set_ids(self@).finite() && count == set_ids(self@).len(),
            !set ==> removed_ids(self@).finite() && count == removed_ids(self@).len(),
    {
        let pairs = list_changes(&self.entries);
        let mut count: usize = 0;
        let mut i: usize = 0;
        while i < pairs.len()
            invariant
                i <= pairs.len(),
                count <= i,
                lists(pairs@, self@),
                count == listed_ids(pairs@.take(i as int), set).len(),
            decreases pairs.len() - i,
        {
            let is_set = match pairs[i].1 {
                ComponentPatchEntry::SetTo(_) => true,
                ComponentPatchEntry::Removed => false,
            };
            proof {
                let before = pairs@.take(i as int);
                assert(pairs@.take(i + 1).drop_last() =~= before);
                assert(pairs@.take(i + 1).last() == pairs@[i as int]);
                lemma_listed_ids(before, set);
                if listed_ids(before, set).contains(pairs@[i as int].0@) {
                    let j = choose|j: int|
                        0 <= j < before.len() && #[trigger] before[j].0@ == pairs@[i as int].0@ && (
                        before[j].1@ is SetTo) == set;
                    assert(pairs@[j].0@ == pairs@[i as int].0@);
                }
            }
            if is_set == set {
                count = count + 1;
            }
            i = i + 1;
        }
        proof {
            assert(pairs@.take(i as int) =~= pairs@);
            lemma_listed_ids(pairs@, set);
            let wanted = if set {
                set_ids(self@)
            } else {
                removed_ids(self@)
            };
            assert forall|id: Id| listed_ids(pairs@, set).contains(id) <==> wanted.contains(id) by {
                if wanted.contains(id) {
                    let i = choose|i: int| 0 <= i < pairs@.len() && #[trigger] pairs@[i].0@ == id;
                    assert(pairs@[i].0@ == id);
                }
            }
            assert(listed_ids(pairs@, set) =~= wanted);
        }
        count
    }

    /// Counts set entries.
    pub fn count_set(&self) -> (count: usize)
        ensures
            set_ids(self@).finite(),
            count == set_ids(self@).len(),
    {
        self.count(true)
    }

    /// Counts removed entries.
    pub fn count_removed(&self) -> (count: usize)
        ensures
            removed_ids(self@).finite(),
            count == removed_ids(self@).len(),
    {
        self.count(false)
    }

    /// All entries, each once, in an order that is left open.
    pub fn iter(&self) -> (pairs: Vec<(&Identifier, &ComponentPatchEntry)>)
        ensures
            lists(pairs@, self@),
    {
        list_changes(&self.entries)
    }

    /// A copy of this patch.
    pub fn copy(&self) -> (patch: Self)
        ensures
            patch@ == self@,
    {
        let pairs = list_changes(&self.entries);
        let mut entries = no_changes();
        let mut i: usize = 0;
        while i < pairs.len()
            invariant
                i <= pairs.len(),
                lists(pairs@, self@),
                forall|id: Id| #[trigger]
                    changes(entries).contains_key(id) <==> exists|j: int|
                        0 <= j < i && #[trigger] pairs@[j].0@ == id,
                forall|id: Id| #[trigger]
                    changes(entries).contains_key(id) ==> self@.contains_key(id) && changes(
                        entries,
                    )[id] == self@[id],
            decreases pairs.len() - i,
        {
            let ghost before = changes(entries);
            let key = pairs[i].0.clone();
            put_change(&mut entries, key, pairs[i].1.copy());
            proof {
                let here = pairs@[i as int].0@;
                assert forall|id: Id| #[trigger] changes(entries).contains_key(id) <==> exists|
                    j: int,
                |
                    0 <= j < i + 1 && #[trigger] pairs@[j].0@ == id by {
                    if id == here {
                        assert(pairs@[i as int].0@ == id);
                    } else {
                        assert(changes(entries).contains_key(id) == before.contains_key(id));
                        if before.contains_key(id) {
                            let j = choose|j: int| 0 <= j < i && #[trigger] pairs@[j].0@ == id;
                            assert(pairs@[j].0@ == id && j < i + 1);
                        }
                    }
                }
            }
            i = i + 1;
        }
        proof {
            assert forall|id: Id| changes(entries).contains_key(id) <==> self@.contains_key(id) by {
                if self@.contains_key(id) {
                    let j = choose|j: int| 0 <= j < pairs@.len() && #[trigger] pairs@[j].0@ == id;
                    assert(pairs@[j].0@ == id);
                }
            }
            assert(changes(entries) =~= self@);
        }
        DataComponentPatch { entries }
    }

    /// This patch without the entries whose keys are accepted by `predicate`.
    pub fn forget<F: Fn(&Identifier) -> bool>(&self, predicate: F) -> (patch: Self)
        requires
            forall|key: &Identifier| #[trigger] call_requires(predicate, (key,)),
        ensures
            forall|id: Id| #[trigger]
                patch@.contains_key(id) ==> self@.contains_key(id) && patch@[id] == self@[id],
            forall|id: Id| #[trigger]
                self@.contains_key(id) ==> exists|key: &Identifier, accepted: bool|
                    key@ == id && #[trigger] call_ensures(predicate, (key,), accepted)
                        && patch@.contains_key(id) == !accepted,
    {
        let pairs = list_changes(&self.entries);
        let mut patch = self.copy();
        let ghost mut answers: Seq<bool> = Seq::empty();
        let mut i: usize = 0;
        while i < pairs.len()
            invariant
                i <= pairs.len(),
                lists(pairs@, self@),
                forall|key: &Identifier| #[trigger] call_requires(predicate, (key,)),
                forall|id: Id| #[trigger]
                    patch@.contains_key(id) ==> self@.contains_key(id) && patch@[id] == self@[id],
                forall|j: int| i <= j < pairs.len() ==> patch@.contains_key((#[trigger] pairs@[j]).0@),
                answers.len() == i,
                forall|j: int|
                    0 <= j < i ==> call_ensures(predicate, (pairs@[j].0,), #[trigger] answers[j])
                        && patch@.contains_key(pairs@[j].0@) == !answers[j],
            decreases pairs.len() - i,
        {
            let key = pairs[i].0;
            let accepted = predicate(key);
            if accepted {
                drop_change(&mut patch.entries, key);
            }
            proof {
                answers = answers.push(accepted);
            }
            i = i + 1;
        }
        proof {
            assert forall|id: Id| #[trigger] self@.contains_key(id) implies exists|
                key: &Identifier,
                accepted: bool,
            |
                key@ == id && #[trigger] call_ensures(predicate, (key,), accepted)
                    && patch@.contains_key(id) == !accepted by {
                let j = choose|j: int| 0 <= j < pairs@.len() && #[trigger] pairs@[j].0@ == id;
                assert(call_ensures(predicate, (pairs@[j].0,), answers[j]));
            }
        }
        patch
    }

    /// Separates set values from removals.
    pub fn split(&self) -> (result: SplitResult)
        ensures
            distinct_ids(result.added@),
            forall|id: Id| #[trigger]
                component_at(result.added@, id) == if self@.contains_key(id) {
                    match self@[id] {
                        Change::SetTo(data) => Some(data),
                        Change::Removed => None,
                    }
                } else {
                    None
                },
            forall|id: Id| #[trigger]
                holds_id(result.removed@, id) <==> self@.contains_key(id) && self@[id] is Removed,
            forall|i: int, j: int|
                0 <= i < j < result.removed@.len() ==> (#[trigger] result.removed@[i])@ != (
                #[trigger] result.removed@[j])@,
    {
        let pairs = list_changes(&self.entries);
        let mut added = DataComponentMap::new();
        let mut removed: Vec<Identifier> = Vec::new();
        let mut i: usize = 0;
        while i < pairs.len()
            invariant
                i <= pairs.len(),
                lists(pairs@, self@),
                distinct_ids(added@),
                forall|id: Id| #[trigger] component_at(added@, id) is Some ==> self@.contains_key(id)
                    && self@[id] == Change::SetTo(component_at(added@, id)->Some_0),
                forall|j: int|
                    0 <= j < i && (#[trigger] pairs@[j]).1@ is SetTo ==> component_at(
                        added@,
                        pairs@[j].0@,
                    ) is Some,
                forall|j: int|
                    0 <= j < i && (#[trigger] pairs@[j]).1@ is Removed ==> holds_id(
                        removed@,
                        pairs@[j].0@,
                    ),
                forall|k: int|
                    0 <= k < removed@.len() ==> exists|j: int|
                        0 <= j < i && #[trigger] pairs@[j].0@ == (#[trigger] removed@[k])@
                            && pairs@[j].1@ is Removed,
                forall|a: int, b: int|
                    0 <= a < b < removed@.len() ==> (#[trigger] removed@[a])@ != (
                    #[trigger] removed@[b])@,
            decreases pairs.len() - i,
        {
            let ghost before_added = added@;
            let ghost before_removed = removed@;
            let key = pairs[i].0.clone();
            match pairs[i].1 {
                ComponentPatchEntry::SetTo(data) => {
                    proof {
                        assert forall|id: Id| true implies #[trigger] component_at(
                            crate::data_components::map::with_component(
                                before_added,
                                key@,
                                data@,
                            ),
                            id,
                        ) == if id == key@ {
                            Some(data@)
                        } else {
                            component_at(before_added, id)
                        } by {
                            law_stored_component_is_found(before_added, key@, data@, id);
                        }
                        law_stored_component_is_found(before_added, key@, data@, key@);
                    }
                    added.set_raw(key, data.copy());
                },
                ComponentPatchEntry::Removed => {
                    removed.push(key);
                },
            }
            proof {
                assert forall|id: Id| holds_id(before_removed, id) implies #[trigger] holds_id(
                    removed@,
                    id,
                ) by {
                    let k = choose|k: int|
                        0 <= k < before_removed.len() && (#[trigger] before_removed[k])@ == id;
                    assert(removed@[k] == before_removed[k]);
                }
                assert forall|k: int| 0 <= k < removed@.len() implies exists|j: int|
                    0 <= j < i + 1 && #[trigger] pairs@[j].0@ == (#[trigger] removed@[k])@
                        && pairs@[j].1@ is Removed by {
                    if k < before_removed.len() {
                        assert(removed@[k] == before_removed[k]);
                        let j = choose|j: int|
                            0 <= j < i && #[trigger] pairs@[j].0@ == before_removed[k]@
                                && pairs@[j].1@ is Removed;
                        assert(pairs@[j].0@ == removed@[k]@);
                    } else {
                        assert(pairs@[i as int].0@ == removed@[k]@);
                    }
                }
                if removed@.len() > before_removed.len() {
                    assert(removed@.last()@ == pairs@[i as int].0@);
                    assert forall|a: int| 0 <= a < before_removed.len() implies (
                    #[trigger] removed@[a])@ != pairs@[i as int].0@ by {
                        let j = choose|j: int|
                            0 <= j < i && #[trigger] pairs@[j].0@ == before_removed[a]@
                                && pairs@[j].1@ is Removed;
                        assert(pairs@[j].0@ != pairs@[i as int].0@);
                    }
                }
            }
            i = i + 1;
        }
        proof {
            assert forall|id: Id| #[trigger]
                component_at(added@, id) == if self@.contains_key(id) {
                    match self@[id] {
                        Change::SetTo(data) => Some(data),
                        Change::Removed => None,
                    }
                } else {
                    None
                } by {
                if self@.contains_key(id) {
                    let j = choose|j: int| 0 <= j < pairs@.len() && #[trigger] pairs@[j].0@ == id;
                    assert(pairs@[j].1@ == self@[id]);
                }
            }
            assert forall|id: Id| #[trigger] holds_id(removed@, id) <==> self@.contains_key(id)
                && self@[id] is Removed by {
                if holds_id(removed@, id) {
                    let k = choose|k: int|
                        0 <= k < removed@.len() && (#[trigger] removed@[k])@ == id;
                    let j = choose|j: int|
                        0 <= j < pairs@.len() && #[trigger] pairs@[j].0@ == removed@[k]@
                            && pairs@[j].1@ is Removed;
                    assert(pairs@[j].0@ == id);
                }
                if self@.contains_key(id) && self@[id] is Removed {
                    let j = choose|j: int| 0 <= j < pairs@.len() && #[trigger] pairs@[j].0@ == id;
                    assert(pairs@[j].1@ == self@[id]);
                }
            }
        }
        SplitResult { added, removed }
    }

    /// Drops the entries that change nothing of the prototype.
    pub fn sanitize_against(&mut self, prototype: &DataComponentMap)
        ensures
            forall|id: Id| #[trigger]
                final(self)@.contains_key(id) <==> old(self)@.contains_key(id) && is_effective(
                    old(self)@[id],
                    component_at(prototype@, id),
                ),
            forall|id: Id| #[trigger]
                final(self)@.contains_key(id) ==> final(self)@[id] == old(self)@[id],
    {
        let source = self.copy();
        let pairs = list_changes(&source.entries);
        let mut i: usize = 0;
        while i < pairs.len()
            invariant
                i <= pairs.len(),
                source@ == old(self)@,
                lists(pairs@, source@),
                forall|id: Id| #[trigger]
                    self@.contains_key(id) ==> source@.contains_key(id) && self@[id] == source@[id],
                forall|j: int| i <= j < pairs.len() ==> self@.contains_key((#[trigger] pairs@[j]).0@),
                forall|j: int|
                    0 <= j < i ==> self@.contains_key((#[trigger] pairs@[j]).0@) == is_effective(
                        pairs@[j].1@,
                        component_at(prototype@, pairs@[j].0@),
                    ),
            decreases pairs.len() - i,
        {
            let key = pairs[i].0;
            let keep = match (pairs[i].1, prototype.get_raw(key)) {
                (ComponentPatchEntry::SetTo(value), Some(default)) => !default.same(value),
                (ComponentPatchEntry::SetTo(_), None) => true,
                (ComponentPatchEntry::Removed, Some(_)) => true,
                (ComponentPatchEntry::Removed, None) => false,
            };
            if !keep {
                drop_change(&mut self.entries, key);
            }
            i = i + 1;
        }
        proof {
            assert forall|id: Id| #[trigger] self@.contains_key(id) <==> source@.contains_key(id)
                && is_effective(source@[id], component_at(prototype@, id)) by {
                if source@.contains_key(id) {
                    let j = choose|j: int| 0 <= j < pairs@.len() && #[trigger] pairs@[j].0@ == id;
                    assert(pairs@[j].0@ == id);
                }
            }
        }
    }

    /// Whether both patches do the same.
    pub fn same(&self, other: &DataComponentPatch) -> (same: bool)
        ensures
            same == (self@ == other@),
    {
        let count: usize = change_count(&self.entries);
        let other_count: usize = change_count(&other.entries);
        proof {
            lemma_counts(count as nat, self@.dom());
            lemma_counts(other_count as nat, other@.dom());
        }
        if count != other_count {
            return false;
        }
        let pairs = list_changes(&self.entries);
        let mut i: usize = 0;
        while i < pairs.len()
            invariant
                i <= pairs.len(),
                lists(pairs@, self@),
                self@.dom().finite(),
                other@.dom().finite(),
                self@.dom().len() == other@.dom().len(),
                forall|j: int|
                    0 <= j < i ==> other@.contains_key((#[trigger] pairs@[j]).0@)
                        && other@[pairs@[j].0@] == pairs@[j].1@,
            decreases pairs.len() - i,
        {
            match change_at(&other.entries, pairs[i].0) {
                Some(entry) => {
                    if !entry.same(pairs[i].1) {
                        return false;
                    }
                },
                None => {
                    return false;
                },
            }
            i = i + 1;
        }
        proof {
            assert forall|id: Id| self@.contains_key(id) implies other@.contains_key(id)
                && other@[id] == self@[id] by {
                let j = choose|j: int| 0 <= j < pairs@.len() && #[trigger] pairs@[j].0@ == id;
                assert(pairs@[j].0@ == id);
            }
            assert(self@.dom().subset_of(other@.dom()));
            vstd::set_lib::lemma_subset_equality(self@.dom(), other@.dom());
            assert(self@ =~= other@);
        }
        true
    }
}

/// Dropping the entries that change nothing leaves every effective value as it was.
pub proof fn law_sanitizing_keeps_effective_values(
    before: Map<Id, Change>,
    after: Map<Id, Change>,
    prototype: Seq<(Id, Component)>,
    id: Id,
)
    requires
        forall|id: Id| #[trigger]
            after.contains_key(id) <==> before.contains_key(id) && is_effective(
                before[id],
                component_at(prototype, id),
            ),
        forall|id: Id| #[trigger] after.contains_key(id) ==> after[id] == before[id],
    ensures
        patched(after, prototype, id) == patched(before, prototype, id),
{
    assert(after.contains_key(id) <==> before.contains_key(id) && is_effective(
        before[id],
        component_at(prototype, id),
    ));
}

/// The set entries and the removed entries are all of the entries.
pub proof fn law_every_entry_sets_or_removes(patch: Map<Id, Change>)
    requires
        patch.dom().finite(),
    ensures
        set_ids(patch).len() + removed_ids(patch).len() == patch.dom().len(),
        set_ids(patch).disjoint(removed_ids(patch)),
{
    assert(set_ids(patch) + removed_ids(patch) =~= patch.dom());
    assert(set_ids(patch).disjoint(removed_ids(patch)));
    vstd::set_lib::lemma_set_disjoint_lens(set_ids(patch), removed_ids(patch));
}

} // verus!
