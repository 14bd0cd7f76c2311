//! The saved form of item stacks.
use vstd::prelude::*;

use crate::data_components::patch::{
    lists, Change, ComponentPatchEntry, DataComponentPatch,
};
use crate::data_components::{Component, DataComponentType};
use crate::ident::{law_text_is_parsed_back, parse_id, Id, Identifier};
use crate::item_stack::{Item, ItemStack, Stack};
use crate::keyed::{by_key, find};
use crate::nbt::{lookup, Nbt, NbtCompound, NbtTag};
use crate::registry::Registry;

verus! {

/// The saved form of one change: a set value under its identifier, or an empty
/// compound under the identifier with an exclamation mark before it. Changes of
/// components that are not saved have none.
pub open spec fn saved_change(id: Id, change: Change, types: Seq<DataComponentType>) -> Option<
    (Seq<char>, Nbt),
> {
    match find(types, id) {
        Some(component) => if component.persistent {
            match change {
                Change::SetTo(data) => match component.encoded(data) {
                    Some(tag) => Some((id.text(), tag)),
                    None => None,
                },
                Change::Removed => Some((seq!['!'] + id.text(), Nbt::Compound(Seq::empty()))),
            }
        } else {
            None
        },
        None => None,
    }
}

/// The part of a patch that is saved.
pub open spec fn saved_part(patch: Map<Id, Change>, types: Seq<DataComponentType>) -> Map<
    Id,
    Change,
> {
    patch.restrict(
        patch.dom().filter(|id: Id| saved_change(id, patch[id], types) is Some),
    )
}

/// The change that a saved entry denotes.
pub open spec fn loaded_change(entry: (Seq<char>, Nbt), types: Seq<DataComponentType>) -> Option<
    (Id, Change),
> {
    let removed = entry.0.len() > 0 && entry.0[0] == '!';
    let name = if removed {
        entry.0.drop_first()
    } else {
        entry.0
    };
    match parse_id(name) {
        Some(id) => match find(types, id) {
            Some(component) => if !component.persistent {
                None
            } else if removed {
                Some((id, Change::Removed))
            } else {
                match component.decoded(entry.1) {
                    Some(data) => Some((id, Change::SetTo(data))),
                    None => None,
                }
            },
            None => None,
        },
        None => None,
    }
}

/// The patch that saved entries denote; none where one of them denotes no change.
pub open spec fn loaded_patch(
    saved: Seq<(Seq<char>, Nbt)>,
    types: Seq<DataComponentType>,
) -> Option<Map<Id, Change>>
    decreases saved.len(),
{
    if saved.len() == 0 {
        Some(Map::empty())
    } else {
        match (loaded_patch(saved.drop_last(), types), loaded_change(saved.last(), types)) {
            (Some(before), Some((id, change))) => Some(before.insert(id, change)),
            _ => None,
        }
    }
}

/// Saved entries that are those of the changes of `ids`, in that order.
pub open spec fn saves_in_order(
    saved: Seq<(Seq<char>, Nbt)>,
    ids: Seq<Id>,
    patch: Map<Id, Change>,
    types: Seq<DataComponentType>,
) -> bool {
    &&& saved.len() == ids.len()
    &&& forall|i: int|
        0 <= i < ids.len() ==> patch.contains_key(#[trigger] ids[i]) && saved_change(
            ids[i],
            patch[ids[i]],
            types,
        ) == Some(saved[i])
}

/// Saved entries that are those of a patch, each once, in some order.
pub open spec fn saves_patch(
    saved: Seq<(Seq<char>, Nbt)>,
    patch: Map<Id, Change>,
    types: Seq<DataComponentType>,
) -> bool {
    exists|ids: Seq<Id>|
        {
            &&& #[trigger] saves_in_order(saved, ids, patch, types)
            &&& ids.no_duplicates()
            &&& forall|id: Id|
                patch.contains_key(id) && saved_change(id, patch[id], types) is Some
                    ==> ids.contains(id)
        }
}

/// A compound that a stack is saved as.
pub open spec fn saves_stack(
    saved: Seq<(Seq<char>, Nbt)>,
    stack: Stack,
    types: Seq<DataComponentType>,
) -> bool {
    exists|patch: Seq<(Seq<char>, Nbt)>|
        {
            &&& #[trigger] saves_patch(patch, stack.patch, types)
            &&& saved == seq![
                ("id"@, Nbt::Text(stack.item.text())),
                ("count"@, Nbt::Int(stack.count)),
                ("components"@, Nbt::Compound(patch)),
            ]
        }
}

/// The stack that a saved compound denotes. An unknown item, a count below one or
/// components that cannot be read denote none; a count that is absent is one.
pub open spec fn loaded_stack(saved: Seq<(Seq<char>, Nbt)>, registry: Registry) -> Option<Stack> {
    match lookup(saved, "id"@) {
        Some(Nbt::Text(text)) => match parse_id(text) {
            Some(id) => match find(registry.items@, id) {
                Some(item) => {
                    let count = match lookup(saved, "count"@) {
                        Some(Nbt::Int(count)) => count,
                        _ => 1,
                    };
                    let patch = match lookup(saved, "components"@) {
                        Some(Nbt::Compound(entries)) => loaded_patch(
                            entries,
                            registry.component_types@,
                        ),
                        _ => Some(Map::empty()),
                    };
                    match patch {
                        Some(patch) => if count > 0 {
                            Some(
                                Stack {
                                    item: item.key@,
                                    prototype: item.components@,
                                    count,
                                    patch,
                                },
                            )
                        } else {
                            None
                        },
                        None => None,
                    }
                },
                None => None,
            },
            None => None,
        },
        _ => None,
    }
}

impl DataComponentPatch {
    /// The saved form of this patch.
    pub fn to_nbt(&self, types: &Vec<DataComponentType>) -> (saved: NbtCompound)
        ensures
            saves_patch(saved@, self@, types@),
    {
        let pairs = self.iter();
        let mut saved = NbtCompound::new();
        let ghost mut ids: Seq<Id> = Seq::empty();
        let mut i: usize = 0;
        while i < pairs.len()
            invariant
                i <= pairs.len(),
                lists(pairs@, self@),
                saves_in_order(saved@, ids, self@, types@),
                ids.no_duplicates(),
                forall|k: int|
                    0 <= k < ids.len() ==> exists|j: int|
                        0 <= j < i && #[trigger] pairs@[j].0@ == #[trigger] ids[k],
                forall|j: int|
                    0 <= j < i && saved_change(
                        (#[trigger] pairs@[j]).0@,
                        pairs@[j].1@,
                        types@,
                    ) is Some ==> ids.contains(pairs@[j].0@),
            decreases pairs.len() - i,
        {
            let key = pairs[i].0;
            let ghost before = saved@;
            let ghost seen = ids;
            let tag = match by_key(types, key) {
                Some(component) => if component.persistent {
                    match pairs[i].1 {
                        ComponentPatchEntry::SetTo(data) => match component.write_nbt(data) {
                            Some(tag) => Some((false, tag)),
                            None => None,
                        },
                        ComponentPatchEntry::Removed => Some(
                            (true, NbtTag::Compound(NbtCompound::new())),
                        ),
                    }
                } else {
                    None
                },
                None => None,
            };
            if let Some((removed, tag)) = tag {
                let text = key.text();
                proof {
                    reveal_strlit("!");
                    assert("!"@ =~= seq!['!']);
                }
                if removed {
                    let name = "!".to_owned().concat(text.as_str());
                    saved.insert(name.as_str(), tag);
                } else {
                    saved.insert(text.as_str(), tag);
                }
                proof {
                    ids = seen.push(key@);
                    assert(ids[seen.len() as int] == pairs@[i as int].0@);
                    assert forall|k: int| 0 <= k < seen.len() implies seen[k] != key@ by {
                        let j = choose|j: int|
                            0 <= j < i && #[trigger] pairs@[j].0@ == #[trigger] seen[k];
                        assert(pairs@[j].0@ != pairs@[i as int].0@);
                    }
                    assert forall|id: Id| seen.contains(id) implies #[trigger] ids.contains(
                        id,
                    ) by {
                        let k = choose|k: int| 0 <= k < seen.len() && seen[k] == id;
                        assert(ids[k] == id);
                    }
                    assert(ids.contains(key@));
                    assert forall|k: int| 0 <= k < ids.len() implies self@.contains_key(
                        #[trigger] ids[k],
                    ) && saved_change(ids[k], self@[ids[k]], types@) == Some(saved@[k]) by {
                        if k < seen.len() {
                            assert(ids[k] == seen[k]);
                            assert(saved@[k] == before[k]);
                        }
                    }
                    assert forall|k: int| 0 <= k < ids.len() implies exists|j: int|
                        0 <= j < i + 1 && #[trigger] pairs@[j].0@ == #[trigger] ids[k] by {
                        if k < seen.len() {
                            let j = choose|j: int|
                                0 <= j < i && #[trigger] pairs@[j].0@ == #[trigger] seen[k];
                            assert(pairs@[j].0@ == ids[k]);
                        } else {
                            assert(pairs@[i as int].0@ == ids[k]);
                        }
                    }
                }
            }
            i = i + 1;
        }
        proof {
            assert forall|id: Id|
                self@.contains_key(id) && saved_change(
                    id,
                    self@[id],
                    types@,
                ) is Some implies ids.contains(id) by {
                let j = choose|j: int| 0 <= j < pairs@.len() && #[trigger] pairs@[j].0@ == id;
                assert(pairs@[j].1@ == self@[id]);
            }
        }
        saved
    }

    /// The patch that a saved compound denotes.
    pub fn from_nbt(saved: &NbtCompound, types: &Vec<DataComponentType>) -> (patch: Option<Self>)
        ensures
            match patch {
                Some(patch) => loaded_patch(saved@, types@) == Some(patch@),
                None => loaded_patch(saved@, types@) is None,
            },
    {
        let mut patch = DataComponentPatch::new();
        let mut i: usize = 0;
        while i < saved.entries.len()
            invariant
                i <= saved.entries@.len() == saved@.len(),
                loaded_patch(saved@.take(i as int), types@) == Some(patch@),
            decreases saved.entries.len() - i,
        {
            let entry = &saved.entries[i];
            proof {
                assert(saved@.take(i + 1).drop_last() =~= saved@.take(i as int));
                assert(saved@.take(i + 1).last() == (entry.0@, entry.1@));
                if loaded_patch(saved@.take(i + 1), types@) is None {
                    lemma_loading_stops(saved@, types@, i + 1);
                }
            }
            let text = entry.0.as_str();
            let len: usize = text.unicode_len();
            let removed = len > 0 && text.get_char(0) == '!';
            let id = if removed {
                assert(text@.subrange(1, len as int) =~= text@.drop_first());
                Identifier::parse(text.substring_char(1, len))
            } else {
                Identifier::parse(text)
            };
            let id = match id {
                Some(id) => id,
                None => {
                    return None;
                },
            };
            let component = match by_key(types, &id) {
                Some(component) => component,
                None => {
                    return None;
                },
            };
            if !component.persistent {
                return None;
            }
            proof {
                crate::keyed::lemma_find(types@, id@);
            }
            if removed {
                patch.remove(component);
            } else {
                let data = match component.read_nbt(&entry.1) {
                    Some(data) => data,
                    None => {
                        return None;
                    },
                };
                patch.set_component_data(id, data);
            }
            i = i + 1;
        }
        assert(saved@.take(i as int) =~= saved@);
        Some(patch)
    }
}

proof fn lemma_loading_stops(
    saved: Seq<(Seq<char>, Nbt)>,
    types: Seq<DataComponentType>,
    count: int,
)
    requires
        0 <= count <= saved.len(),
        loaded_patch(saved.take(count), types) is None,
    ensures
        loaded_patch(saved, types) is None,
    decreases saved.len() - count,
{
    if count < saved.len() {
        assert(saved.take(count + 1).drop_last() =~= saved.take(count));
        lemma_loading_stops(saved, types, count + 1);
    } else {
        assert(saved.take(count) =~= saved);
    }
}

impl ItemStack {
    /// The saved form of this stack.
    pub fn to_nbt(&self, types: &Vec<DataComponentType>) -> (saved: NbtCompound)
        ensures
            saves_stack(saved@, self@, types@),
    {
        let patch = self.patch.to_nbt(types);
        let ghost entries = patch@;
        let mut saved = NbtCompound::new();
        saved.insert("id", NbtTag::Text(self.item.key.text()));
        saved.insert("count", NbtTag::Int(self.count));
        saved.insert("components", NbtTag::Compound(patch));
        assert(saved@ =~= seq![
            ("id"@, Nbt::Text(self@.item.text())),
            ("count"@, Nbt::Int(self@.count)),
            ("components"@, Nbt::Compound(entries)),
        ]);
        assert(saves_patch(entries, self@.patch, types@));
        saved
    }

    /// The stack that a saved compound denotes.
    pub fn from_nbt(saved: &NbtCompound, registry: &Registry) -> (stack: Option<Self>)
        ensures
            match stack {
                Some(stack) => loaded_stack(saved@, *registry) == Some(stack@),
                None => loaded_stack(saved@, *registry) is None,
            },
    {
        let id = match saved.get_text("id") {
            Some(text) => match Identifier::parse(text.as_str()) {
                Some(id) => id,
                None => {
                    return None;
                },
            },
            None => {
                return None;
            },
        };
        let item = match by_key(&registry.items, &id) {
            Some(item) => item,
            None => {
                return None;
            },
        };
        let count: i32 = match saved.get_int("count") {
            Some(count) => count,
            None => 1,
        };
        let patch = match saved.get_compound("components") {
            Some(entries) => match DataComponentPatch::from_nbt(
                entries,
                &registry.component_types,
            ) {
                Some(patch) => patch,
                None => {
                    return None;
                },
            },
            None => DataComponentPatch::new(),
        };
        if count <= 0 {
            return None;
        }
        Some(ItemStack { item: item.copy(), count, patch })
    }
}

/// All the identifiers are ones that can be written and read back.
pub open spec fn writable(patch: Map<Id, Change>) -> bool {
    forall|id: Id| #[trigger]
        patch.contains_key(id) ==> id.valid() && id.namespace.len() > 0
}

proof fn lemma_saved_change_is_read_back(id: Id, change: Change, types: Seq<DataComponentType>)
    requires
        id.valid(),
        id.namespace.len() > 0,
        saved_change(id, change, types) is Some,
    ensures
        loaded_change(saved_change(id, change, types)->Some_0, types) == Some((id, change)),
{
    law_text_is_parsed_back(id);
    let entry = saved_change(id, change, types)->Some_0;
    match change {
        Change::SetTo(data) => {
            assert(entry.0[0] == id.namespace[0]);
            assert(crate::ident::namespace_char(id.namespace[0]));
        },
        Change::Removed => {
            assert(entry.0.drop_first() =~= id.text());
        },
    }
}

proof fn lemma_saved_entries_are_read_back(
    saved: Seq<(Seq<char>, Nbt)>,
    ids: Seq<Id>,
    patch: Map<Id, Change>,
    types: Seq<DataComponentType>,
)
    requires
        writable(patch),
        saves_in_order(saved, ids, patch, types),
    ensures
        loaded_patch(saved, types) matches Some(loaded) && (forall|id: Id| #[trigger]
            loaded.contains_key(id) <==> ids.contains(id)) && (forall|id: Id| #[trigger]
            loaded.contains_key(id) ==> loaded[id] == patch[id]),
    decreases saved.len(),
{
    if saved.len() > 0 {
        let last = ids.last();
        assert(patch.contains_key(ids[ids.len() - 1]));
        lemma_saved_entries_are_read_back(saved.drop_last(), ids.drop_last(), patch, types);
        lemma_saved_change_is_read_back(last, patch[last], types);
        let before = loaded_patch(saved.drop_last(), types)->Some_0;
        let loaded = before.insert(last, patch[last]);
        assert(loaded_patch(saved, types) == Some(loaded));
        assert forall|id: Id| #[trigger] loaded.contains_key(id) <==> ids.contains(id) by {
            if ids.contains(id) && id != last {
                let k = choose|k: int| 0 <= k < ids.len() && ids[k] == id;
                assert(ids.drop_last()[k] == id);
            }
            if before.contains_key(id) {
                let k = choose|k: int| 0 <= k < ids.drop_last().len() && ids.drop_last()[k] == id;
                assert(ids[k] == id);
            }
            if id == last {
                assert(ids[ids.len() - 1] == id);
            }
        }
    }
}

/// A saved patch is read back as the part of it that is saved.
pub proof fn law_saved_patch_is_read_back(
    saved: Seq<(Seq<char>, Nbt)>,
    patch: Map<Id, Change>,
    types: Seq<DataComponentType>,
)
    requires
        writable(patch),
        saves_patch(saved, patch, types),
    ensures
        loaded_patch(saved, types) == Some(saved_part(patch, types)),
{
    let ids = choose|ids: Seq<Id>|
        {
            &&& #[trigger] saves_in_order(saved, ids, patch, types)
            &&& ids.no_duplicates()
            &&& forall|id: Id|
                patch.contains_key(id) && saved_change(id, patch[id], types) is Some
                    ==> ids.contains(id)
        };
    lemma_saved_entries_are_read_back(saved, ids, patch, types);
    let loaded = loaded_patch(saved, types)->Some_0;
    assert forall|id: Id| #[trigger] loaded.contains_key(id) <==> saved_part(
        patch,
        types,
    ).contains_key(id) by {
        if loaded.contains_key(id) {
            let k = choose|k: int| 0 <= k < ids.len() && ids[k] == id;
            assert(patch.contains_key(ids[k]));
        }
    }
    assert(loaded =~= saved_part(patch, types));
}

/// What is kept of a stack that is saved: the registered item, the count and the
/// part of the changes that is saved.
pub open spec fn kept(stack: Stack, item: Item, types: Seq<DataComponentType>) -> Stack {
    Stack {
        item: stack.item,
        prototype: item.components@,
        count: stack.count,
        patch: saved_part(stack.patch, types),
    }
}

/// A saved stack of a registered item is read back.
pub proof fn law_saved_stack_is_read_back(
    saved: Seq<(Seq<char>, Nbt)>,
    stack: Stack,
    registry: Registry,
)
    requires
        stack.count > 0,
        stack.item.valid(),
        stack.item.namespace.len() > 0,
        writable(stack.patch),
        find(registry.items@, stack.item) is Some,
        saves_stack(saved, stack, registry.component_types@),
    ensures
        loaded_stack(saved, registry) == Some(
            kept(
                stack,
                find(registry.items@, stack.item)->Some_0,
                registry.component_types@,
            ),
        ),
{
    let patch = choose|patch: Seq<(Seq<char>, Nbt)>|
        {
            &&& #[trigger] saves_patch(patch, stack.patch, registry.component_types@)
            &&& saved == seq![
                ("id"@, Nbt::Text(stack.item.text())),
                ("count"@, Nbt::Int(stack.count)),
                ("components"@, Nbt::Compound(patch)),
            ]
        };
    lemma_stack_lookups(saved, stack.item.text(), stack.count, patch);
    law_text_is_parsed_back(stack.item);
    law_saved_patch_is_read_back(patch, stack.patch, registry.component_types@);
    crate::keyed::lemma_find(registry.items@, stack.item);
}

/// The parts of a saved stack are found under their names.
pub proof fn lemma_stack_lookups(
    saved: Seq<(Seq<char>, Nbt)>,
    text: Seq<char>,
    count: i32,
    patch: Seq<(Seq<char>, Nbt)>,
)
    requires
        saved == seq![
            ("id"@, Nbt::Text(text)),
            ("count"@, Nbt::Int(count)),
            ("components"@, Nbt::Compound(patch)),
        ],
    ensures
        lookup(saved, "id"@) == Some(Nbt::Text(text)),
        lookup(saved, "count"@) == Some(Nbt::Int(count)),
        lookup(saved, "components"@) == Some(Nbt::Compound(patch)),
{
    reveal_strlit("id");
    reveal_strlit("count");
    reveal_strlit("components");
    reveal_with_fuel(lookup, 4);
    assert("id"@.len() != "count"@.len());
    assert("id"@.len() != "components"@.len());
    assert("count"@.len() != "components"@.len());
    assert(saved.drop_first().drop_first()[0] == saved[2]);
    assert(saved.drop_first()[0] == saved[1]);
}

/// A stack is saved by names: its item, its count and the changes to its components.
pub proof fn law_stack_is_saved_under_its_names(
    saved: Seq<(Seq<char>, Nbt)>,
    stack: Stack,
    types: Seq<DataComponentType>,
)
    requires
        saves_stack(saved, stack, types),
    ensures
        lookup(saved, "id"@) == Some(Nbt::Text(stack.item.text())),
        lookup(saved, "count"@) == Some(Nbt::Int(stack.count)),
        lookup(saved, "components"@) matches Some(Nbt::Compound(_)),
{
    reveal_strlit("id");
    reveal_strlit("count");
    reveal_strlit("components");
    assert("id"@.len() == 2);
    assert("count"@.len() == 5);
    assert("components"@.len() == 10);
    let patch = choose|patch: Seq<(Seq<char>, Nbt)>|
        {
            &&& #[trigger] saves_patch(patch, stack.patch, types)
            &&& saved == seq![
                ("id"@, Nbt::Text(stack.item.text())),
                ("count"@, Nbt::Int(stack.count)),
                ("components"@, Nbt::Compound(patch)),
            ]
        };
    let second = saved.drop_first();
    let third = second.drop_first();
    assert(second[0] == saved[1] && third[0] == saved[2]);
    reveal_with_fuel(lookup, 4);
}

/// A component that is taken away from an item is saved by its name behind an
/// exclamation mark, and one that is set by its name alone.
pub proof fn law_removed_component_is_marked(id: Id, types: Seq<DataComponentType>)
    requires
        find(types, id) matches Some(component) && component.persistent,
    ensures
        saved_change(id, Change::Removed, types) matches Some(saved) && saved.0.len()
            == id.text().len() + 1 && saved.0[0] == '!' && saved.0.skip(1) == id.text(),
        forall|data: Component|
            (#[trigger] saved_change(id, Change::SetTo(data), types)) matches Some(saved)
                ==> saved.0 == id.text(),
{
    let saved = saved_change(id, Change::Removed, types)->Some_0;
    assert(saved.0.skip(1) =~= id.text());
}

} // verus!
