//! Component maps and their saved form.
use vstd::prelude::*;

use crate::data_components::{
    Component, ComponentData, DataComponentGetter, DataComponentType,
};
use crate::ident::{law_text_is_parsed_back, parse_id, vanilla_id, Id, Identifier};
use crate::keyed::{by_key, contains_id, find, holds_id};
use crate::nbt::{Nbt, NbtCompound, NbtTag};

verus! {

/// Component values by identifier, in the order in which their identifiers were first set.
#[derive(Debug)]
pub struct DataComponentMap {
    entries: Vec<(Identifier, ComponentData)>,
}

impl View for DataComponentMap {
    type V = Seq<(Id, Component)>;

    closed spec fn view(&self) -> Seq<(Id, Component)> {
        Seq::new(self.entries@.len(), |i: int| (self.entries@[i].0@, self.entries@[i].1@))
    }
}

/// The place of the first entry with an identifier, or the number of entries where
/// there is none.
pub open spec fn position(entries: Seq<(Id, Component)>, id: Id) -> int
    decreases entries.len(),
{
    if entries.len() == 0 || entries[0].0 == id {
        0
    } else {
        1 + position(entries.drop_first(), id)
    }
}

/// The value stored under an identifier.
pub open spec fn component_at(entries: Seq<(Id, Component)>, id: Id) -> Option<Component> {
    let at = position(entries, id);
    if at < entries.len() {
        Some(entries[at].1)
    } else {
        None
    }
}

/// The entries after a value was stored: in place of the identifier's earlier
/// value, or at the end.
pub open spec fn with_component(
    entries: Seq<(Id, Component)>,
    id: Id,
    data: Component,
) -> Seq<(Id, Component)> {
    let at = position(entries, id);
    if at < entries.len() {
        entries.update(at, (id, data))
    } else {
        entries.push((id, data))
    }
}

/// The entries after an identifier's value was taken out.
pub open spec fn without_component(entries: Seq<(Id, Component)>, id: Id) -> Seq<(Id, Component)> {
    let at = position(entries, id);
    if at < entries.len() {
        entries.remove(at)
    } else {
        entries
    }
}

/// The entries after a value was stored, or taken out where there is none.
pub open spec fn with_optional(
    entries: Seq<(Id, Component)>,
    id: Id,
    data: Option<Component>,
) -> Seq<(Id, Component)> {
    match data {
        Some(data) => with_component(entries, id, data),
        None => without_component(entries, id),
    }
}

/// No identifier has two values.
pub open spec fn distinct_ids(entries: Seq<(Id, Component)>) -> bool {
    forall|i: int, j: int|
        0 <= i < j < entries.len() ==> (#[trigger] entries[i]).0 != (#[trigger] entries[j]).0
}

/// `position` is the first place with the identifier.
pub proof fn lemma_position(entries: Seq<(Id, Component)>, id: Id)
    ensures
        0 <= position(entries, id) <= entries.len(),
        position(entries, id) < entries.len() ==> entries[position(entries, id)].0 == id,
        forall|j: int| 0 <= j < position(entries, id) ==> (#[trigger] entries[j]).0 != id,
    decreases entries.len(),
{
    if entries.len() > 0 && entries[0].0 != id {
        let rest = entries.drop_first();
        lemma_position(rest, id);
        assert forall|j: int| 0 <= j < position(entries, id) implies (#[trigger] entries[j]).0
            != id by {
            if j > 0 {
                assert(rest[j - 1] == entries[j]);
            }
        }
    }
}

/// Storing a value makes it the one found under its identifier, changes no other
/// lookup, and gives no identifier a second value.
pub proof fn law_stored_component_is_found(
    entries: Seq<(Id, Component)>,
    id: Id,
    data: Component,
    other: Id,
)
    ensures
        component_at(with_component(entries, id, data), other) == if other == id {
            Some(data)
        } else {
            component_at(entries, other)
        },
        distinct_ids(entries) ==> distinct_ids(with_component(entries, id, data)),
{
    let stored = with_component(entries, id, data);
    lemma_position(entries, id);
    lemma_position(entries, other);
    lemma_position(stored, id);
    lemma_position(stored, other);
    let at = position(entries, id);
    assert forall|j: int| 0 <= j < entries.len() implies (#[trigger] stored[j]).0
        == entries[j].0 by {}
    if other == id {
        assert(stored[at].0 == id);
    } else {
        let there = position(entries, other);
        let now = position(stored, other);
        if now < there {
            assert(now < entries.len());
            assert(stored[now].0 == entries[now].0);
        }
        if there < entries.len() {
            assert(stored[there].0 == other);
        } else if now < stored.len() {
            assert(now < entries.len());
        }
    }
    if distinct_ids(entries) {
        assert forall|i: int, j: int| 0 <= i < j < stored.len() implies (#[trigger] stored[i]).0
            != (#[trigger] stored[j]).0 by {
            assert(stored[i].0 == entries[i].0);
            if j < entries.len() {
                assert(stored[j].0 == entries[j].0);
            }
        }
    }
}

/// The entries whose identifiers `only` names; all of them where it is absent.
pub open spec fn included(
    entries: Seq<(Id, Component)>,
    only: Option<Seq<Identifier>>,
) -> Seq<(Id, Component)> {
    match only {
        Some(ids) => entries.filter(|entry: (Id, Component)| holds_id(ids, entry.0)),
        None => entries,
    }
}

/// The saved form of the components: each persistent component's tag under its
/// identifier. Transient components and values that are not of their type are left out.
pub open spec fn encoded_components(
    entries: Seq<(Id, Component)>,
    types: Seq<DataComponentType>,
) -> Seq<(Seq<char>, Nbt)>
    decreases entries.len(),
{
    if entries.len() == 0 {
        Seq::empty()
    } else {
        let before = encoded_components(entries.drop_last(), types);
        match encoded_component(entries.last(), types) {
            Some(tag) => before.push((entries.last().0.text(), tag)),
            None => before,
        }
    }
}

/// The tag under which one component is saved, where it is.
pub open spec fn encoded_component(
    entry: (Id, Component),
    types: Seq<DataComponentType>,
) -> Option<Nbt> {
    match find(types, entry.0) {
        Some(component) => if component.persistent {
            component.encoded(entry.1)
        } else {
            None
        },
        None => None,
    }
}

/// The component that one saved entry denotes. Unknown and transient components
/// and tags of the wrong shape denote none.
pub open spec fn decoded_component(
    entry: (Seq<char>, Nbt),
    types: Seq<DataComponentType>,
) -> Option<(Id, Component)> {
    match parse_id(entry.0) {
        Some(id) => match find(types, id) {
            Some(component) => if component.persistent {
                match component.decoded(entry.1) {
                    Some(data) => Some((id, data)),
                    None => None,
                }
            } else {
                None
            },
            None => None,
        },
        None => None,
    }
}

/// The components that a saved compound denotes; none at all where one of its
/// entries denotes none.
pub open spec fn decoded_components(
    saved: Seq<(Seq<char>, Nbt)>,
    types: Seq<DataComponentType>,
) -> Option<Seq<(Id, Component)>>
    decreases saved.len(),
{
    if saved.len() == 0 {
        Some(Seq::empty())
    } else {
        match (
            decoded_components(saved.drop_last(), types),
            decoded_component(saved.last(), types),
        ) {
            (Some(before), Some(entry)) => Some(with_component(before, entry.0, entry.1)),
            _ => None,
        }
    }
}

impl DataComponentGetter for DataComponentMap {
    open spec fn component(&self, id: Id) -> Option<Component> {
        component_at(self@, id)
    }

    fn get_raw(&self, key: &Identifier) -> (data: Option<&ComponentData>) {
        let at: usize = self.find(key);
        if at < self.entries.len() {
            assert(self@[at as int].1 == self.entries@[at as int].1@);
            Some(&self.entries[at].1)
        } else {
            None
        }
    }
}

impl DataComponentMap {
    pub fn new() -> (map: Self)
        ensures
            map@ == Seq::<(Id, Component)>::empty(),
    {
        let map = DataComponentMap { entries: Vec::new() };
        assert(map@ =~= Seq::empty());
        map
    }

    pub fn len(&self) -> (len: usize)
        ensures
            len == self@.len(),
    {
        self.entries.len()
    }

    /// The identifier of the entry at a place.
    pub fn key_at(&self, at: usize) -> (key: &Identifier)
        requires
            at < self@.len(),
        ensures
            key@ == self@[at as int].0,
    {
        &self.entries[at].0
    }

    /// The value of the entry at a place.
    pub fn data_at(&self, at: usize) -> (data: &ComponentData)
        requires
            at < self@.len(),
        ensures
            data@ == self@[at as int].1,
    {
        &self.entries[at].1
    }

    fn find(&self, key: &Identifier) -> (at: usize)
        ensures
            at == position(self@, key@),
            at <= self.entries@.len() == self@.len(),
    {
        let mut at: usize = 0;
        while at < self.entries.len() && !self.entries[at].0.same(key)
            invariant
                at <= self.entries@.len() == self@.len(),
                forall|j: int| 0 <= j < at ==> (#[trigger] self@[j]).0 != key@,
            decreases self.entries.len() - at,
        {
            at = at + 1;
        }
        proof {
            lemma_position(self@, key@);
            if at < self@.len() {
                assert(self@[at as int].0 == key@);
            }
        }
        at
    }

    /// Stores a value under its identifier.
    pub fn set_raw(&mut self, key: Identifier, data: ComponentData)
        ensures
            final(self)@ == with_component(old(self)@, key@, data@),
    {
        let at: usize = self.find(&key);
        let ghost entry = (key@, data@);
        if at < self.entries.len() {
            self.entries.set(at, (key, data));
            assert(self@ =~= old(self)@.update(at as int, entry));
        } else {
            self.entries.push((key, data));
            assert(self@ =~= old(self)@.push(entry));
        }
    }

    /// Stores a value under an identifier of the vanilla namespace, or takes the
    /// value there out.
    pub fn set(&mut self, path: &str, data: Option<ComponentData>)
        ensures
            final(self)@ == with_optional(
                old(self)@,
                vanilla_id(path@),
                match data {
                    Some(data) => Some(data@),
                    None => None,
                },
            ),
    {
        let key = Identifier::vanilla(path);
        match data {
            Some(data) => {
                self.set_raw(key, data);
            },
            None => {
                let at: usize = self.find(&key);
                if at < self.entries.len() {
                    self.entries.remove(at);
                    assert(self@ =~= old(self)@.remove(at as int));
                }
            },
        }
    }

    /// A copy of this map.
    pub fn copy(&self) -> (map: Self)
        ensures
            map@ == self@,
    {
        self.filter(None)
    }

    /// The entries whose identifiers `only` names; all of them where it is absent.
    pub fn filter(&self, only: Option<&Vec<Identifier>>) -> (map: Self)
        ensures
            map@ == included(
                self@,
                match only {
                    Some(ids) => Some(ids@),
                    None => None,
                },
            ),
    {
        let mut entries: Vec<(Identifier, ComponentData)> = Vec::new();
        let ghost keep = |entry: (Id, Component)|
            match only {
                Some(ids) => holds_id(ids@, entry.0),
                None => true,
            };
        let ghost mut kept: Seq<(Id, Component)> = Seq::empty();
        let mut i: usize = 0;
        proof {
            reveal(Seq::filter);
            assert(self@.take(0).filter(keep) =~= kept);
        }
        while i < self.entries.len()
            invariant
                i <= self.entries@.len() == self@.len(),
                keep == (|entry: (Id, Component)|
                    match only {
                        Some(ids) => holds_id(ids@, entry.0),
                        None => true,
                    }),
                kept == self@.take(i as int).filter(keep),
                kept.len() == entries@.len(),
                forall|j: int|
                    0 <= j < kept.len() ==> #[trigger] kept[j] == (entries@[j].0@, entries@[j].1@),
            decreases self.entries.len() - i,
        {
            let entry = &self.entries[i];
            let wanted = match only {
                Some(ids) => contains_id(ids, &entry.0),
                None => true,
            };
            proof {
                reveal(Seq::filter);
                assert(self@.take(i + 1).drop_last() =~= self@.take(i as int));
                assert(self@.take(i + 1).last() == self@[i as int]);
                if wanted {
                    kept = kept.push((entry.0@, entry.1@));
                }
            }
            if wanted {
                entries.push((entry.0.clone(), entry.1.copy()));
            }
            i = i + 1;
        }
        let map = DataComponentMap { entries };
        proof {
            assert(self@.take(i as int) =~= self@);
            assert(map@ =~= kept);
            match only {
                Some(ids) => {
                    assert(keep =~= (|entry: (Id, Component)| holds_id(ids@, entry.0)));
                },
                None => {
                    lemma_filter_all(self@, keep);
                },
            }
        }
        map
    }

    /// Encodes the persistent components. Transient components and values that are
    /// not of their type are left out.
    pub fn to_nbt_tag_ref(&self, types: &Vec<DataComponentType>) -> (tag: NbtTag)
        ensures
            tag@ == Nbt::Compound(encoded_components(self@, types@)),
    {
        let mut compound = NbtCompound::new();
        let mut i: usize = 0;
        while i < self.entries.len()
            invariant
                i <= self.entries@.len() == self@.len(),
                compound@ == encoded_components(self@.take(i as int), types@),
            decreases self.entries.len() - i,
        {
            let entry = &self.entries[i];
            proof {
                assert(self@.take(i + 1).drop_last() =~= self@.take(i as int));
                assert(self@.take(i + 1).last() == (entry.0@, entry.1@));
            }
            if let Some(component) = by_key(types, &entry.0) {
                if component.persistent {
                    if let Some(tag) = component.write_nbt(&entry.1) {
                        let name = entry.0.text();
                        compound.insert(name.as_str(), tag);
                    }
                }
            }
            i = i + 1;
        }
        assert(self@.take(i as int) =~= self@);
        NbtTag::Compound(compound)
    }

    /// Decodes a saved map. It is refused as a whole where it holds an unknown or
    /// transient component or a value of the wrong shape.
    pub fn from_nbt_tag(tag: &NbtTag, types: &Vec<DataComponentType>) -> (map: Option<Self>)
        ensures
            match (map, tag@) {
                (Some(map), Nbt::Compound(saved)) => decoded_components(saved, types@) == Some(
                    map@,
                ),
                (None, Nbt::Compound(saved)) => decoded_components(saved, types@) is None,
                (map, _) => map is None,
            },
    {
        let compound = match tag {
            NbtTag::Compound(compound) => compound,
            _ => {
                return None;
            },
        };
        let mut map = DataComponentMap::new();
        let mut i: usize = 0;
        while i < compound.entries.len()
            invariant
                i <= compound.entries@.len() == compound@.len(),
                tag@ == Nbt::Compound(compound@),
                decoded_components(compound@.take(i as int), types@) == Some(map@),
            decreases compound.entries.len() - i,
        {
            let entry = &compound.entries[i];
            let ghost saved = compound@.take(i + 1);
            proof {
                assert(saved.drop_last() =~= compound@.take(i as int));
                assert(saved.last() == (entry.0@, entry.1@));
                if decoded_components(saved, types@) is None {
                    lemma_decoding_stops(compound@, types@, i + 1);
                }
            }
            let id = match Identifier::parse(entry.0.as_str()) {
                Some(id) => id,
                None => {
                    return None;
                },
            };
            let component = match by_key(types, &id) {
                Some(component) => component,
                None => {
                    return None;
                },
            };
            if !component.persistent {
                return None;
            }
            let data = match component.read_nbt(&entry.1) {
                Some(data) => data,
                None => {
                    return None;
                },
            };
            map.set_raw(id, data);
            i = i + 1;
        }
        assert(compound@.take(i as int) =~= compound@);
        Some(map)
    }
}

/// The components that the saved form keeps.
pub open spec fn persistent_components(
    entries: Seq<(Id, Component)>,
    types: Seq<DataComponentType>,
) -> Seq<(Id, Component)> {
    entries.filter(|entry: (Id, Component)| encoded_component(entry, types) is Some)
}

/// A saved map is read back as the persistent part of the map that was saved.
pub proof fn law_saved_components_are_read_back(
    entries: Seq<(Id, Component)>,
    types: Seq<DataComponentType>,
)
    requires
        distinct_ids(entries),
        forall|i: int|
            0 <= i < entries.len() ==> (#[trigger] entries[i]).0.valid()
                && entries[i].0.namespace.len() > 0,
    ensures
        decoded_components(encoded_components(entries, types), types) == Some(
            persistent_components(entries, types),
        ),
    decreases entries.len(),
{
    reveal(Seq::filter);
    let keep = |entry: (Id, Component)| encoded_component(entry, types) is Some;
    if entries.len() > 0 {
        let before = entries.drop_last();
        let entry = entries.last();
        law_saved_components_are_read_back(before, types);
        if let Some(tag) = encoded_component(entry, types) {
            let saved = encoded_components(entries, types);
            assert(saved.drop_last() =~= encoded_components(before, types));
            law_text_is_parsed_back(entry.0);
            let kept = before.filter(keep);
            lemma_position(kept, entry.0);
            let at = position(kept, entry.0);
            if at < kept.len() {
                before.lemma_filter_contains_rev(keep, kept[at]);
                let i = choose|i: int| 0 <= i < before.len() && before[i] == kept[at];
                assert(entries[i].0 == entry.0);
            }
            assert(decoded_component(saved.last(), types) == Some(entry));
        }
    }
}

proof fn lemma_filter_all<A>(s: Seq<A>, keep: spec_fn(A) -> bool)
    requires
        forall|x: A| #[trigger] keep(x),
    ensures
        s.filter(keep) == s,
    decreases s.len(),
{
    reveal(Seq::filter);
    if s.len() > 0 {
        lemma_filter_all(s.drop_last(), keep);
        assert(s.drop_last().push(s.last()) =~= s);
        assert(keep(s.last()));
    }
}

/// A saved map whose first entries are refused is refused.
proof fn lemma_decoding_stops(
    saved: Seq<(Seq<char>, Nbt)>,
    types: Seq<DataComponentType>,
    count: int,
)
    requires
        0 <= count <= saved.len(),
        decoded_components(saved.take(count), types) is None,
    ensures
        decoded_components(saved, types) is None,
    decreases saved.len() - count,
{
    if count < saved.len() {
        assert(saved.take(count + 1).drop_last() =~= saved.take(count));
        lemma_decoding_stops(saved, types, count + 1);
    } else {
        assert(saved.take(count) =~= saved);
    }
}

} // verus!
