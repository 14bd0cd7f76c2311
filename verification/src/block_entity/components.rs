//! Component exchange between block entities and items.
//!
//! Block entities hold implicit components, which they derive from their own fields
//! (a container's items, name and lock), and explicit components, carried over from
//! the placing item, that no field consumed.
use vstd::prelude::*;

use crate::data_components::map::{component_at, distinct_ids, DataComponentMap};
use crate::data_components::patch::Change;
use crate::data_components::{
    record_in, Component, ComponentData, ComponentKind, DataComponentGetter,
};
use crate::ident::{vanilla_id, Id, Identifier};
use crate::item_stack::{ItemStack, Stack};
use crate::keyed::{contains_id, holds_id};
use crate::loot_table::item_ops::{merged, with_components, with_record};
use crate::nbt::{
    law_lookup_after_insert, law_removed_entry_is_gone, lookup, without, Nbt, NbtCompound, NbtTag,
};

verus! {

/// Item components read while applying implicit components. Every component that
/// is read is consumed and does not become an explicit component of the block entity.
#[derive(Debug)]
pub struct BlockEntityComponentInput<'a> {
    pub stack: &'a ItemStack,
    pub consumed: Vec<Identifier>,
}

impl<'a> BlockEntityComponentInput<'a> {
    /// Whether a component was consumed.
    pub open spec fn consumes(self, id: Id) -> bool {
        holds_id(self.consumed@, id)
    }

    /// An input of which nothing but the block's own data is consumed.
    pub fn new(stack: &'a ItemStack) -> (input: Self)
        ensures
            input.stack == stack,
            forall|id: Id| #[trigger]
                input.consumes(id) <==> id == vanilla_id("block_entity_data"@) || id == vanilla_id(
                    "block_state"@,
                ),
    {
        let mut consumed: Vec<Identifier> = Vec::new();
        consumed.push(Identifier::vanilla("block_entity_data"));
        consumed.push(Identifier::vanilla("block_state"));
        let input = BlockEntityComponentInput { stack, consumed };
        proof {
            assert(input.consumed@[0]@ == vanilla_id("block_entity_data"@));
            assert(input.consumed@[1]@ == vanilla_id("block_state"@));
        }
        input
    }

    /// The effective value of a component, which is consumed.
    pub fn get(&mut self, path: &str) -> (data: Option<&'a ComponentData>)
        ensures
            match data {
                Some(data) => old(self).stack@.component(vanilla_id(path@)) == Some(data@),
                None => old(self).stack@.component(vanilla_id(path@)) is None,
            },
            final(self).stack == old(self).stack,
            forall|id: Id| #[trigger]
                final(self).consumes(id) <==> old(self).consumes(id) || id == vanilla_id(path@),
    {
        let key = Identifier::vanilla(path);
        let data = self.stack.get_raw(&key);
        let ghost before = self.consumed@;
        self.consumed.push(key);
        proof {
            assert forall|id: Id| #[trigger] self.consumes(id) <==> old(self).consumes(id) || id
                == vanilla_id(path@) by {
                if holds_id(before, id) {
                    let i = choose|i: int| 0 <= i < before.len() && (#[trigger] before[i])@ == id;
                    assert(self.consumed@[i]@ == id);
                }
                if holds_id(self.consumed@, id) && id != vanilla_id(path@) {
                    let i = choose|i: int|
                        0 <= i < self.consumed@.len() && (#[trigger] self.consumed@[i])@ == id;
                    assert(before[i]@ == id);
                }
                assert(self.consumed@[before.len() as int]@ == vanilla_id(path@));
            }
        }
        data
    }

    /// The effective value of a component, which is consumed, or else the default.
    pub fn get_or_default(&mut self, path: &str, default: ComponentData) -> (data: ComponentData)
        ensures
            data@ == match old(self).stack@.component(vanilla_id(path@)) {
                Some(component) => component,
                None => default@,
            },
            final(self).stack == old(self).stack,
            forall|id: Id| #[trigger]
                final(self).consumes(id) <==> old(self).consumes(id) || id == vanilla_id(path@),
    {
        match self.get(path) {
            Some(data) => data.copy(),
            None => default,
        }
    }

    /// The values that the item itself sets and that were not consumed: they become
    /// the block entity's explicit components.
    pub fn retained(&self) -> (components: DataComponentMap)
        ensures
            distinct_ids(components@),
            forall|id: Id| #[trigger]
                component_at(components@, id) == retained_component(
                    self.stack@,
                    id,
                    self.consumes(id),
                ),
    {
        let consumed = &self.consumed;
        let predicate = |key: &Identifier| -> (accepted: bool)
            ensures
                accepted == holds_id(consumed@, key@),
            { contains_id(consumed, key) };
        let ghost asked = predicate;
        let patch = self.stack.patch.forget(predicate);
        let split = patch.split();
        proof {
            assert forall|id: Id| #[trigger]
                component_at(split.added@, id) == retained_component(
                    self.stack@,
                    id,
                    self.consumes(id),
                ) by {
                assert(patch@.contains_key(id) ==> self.stack.patch@.contains_key(id));
                if self.stack.patch@.contains_key(id) {
                    let (key, accepted) = choose|key: &Identifier, accepted: bool|
                        key@ == id && #[trigger] call_ensures(asked, (key,), accepted)
                            && patch@.contains_key(id) == !accepted;
                    assert(accepted == holds_id(consumed@, id));
                }
            }
        }
        split.added
    }
}

/// The value of a component that becomes explicit: what the item's own changes set
/// it to, where it was not consumed.
pub open spec fn retained_component(stack: Stack, id: Id, consumed: bool) -> Option<Component> {
    if !consumed && stack.patch.contains_key(id) {
        match stack.patch[id] {
            Change::SetTo(data) => Some(data),
            Change::Removed => None,
        }
    } else {
        None
    }
}

/// A stack with the data of a block entity; data without anything in it is removed, and
/// data that is not well formed is not put onto the stack.
pub open spec fn with_block_entity_data(
    stack: Stack,
    kind: Id,
    saved: Seq<(Seq<char>, Nbt)>,
    well_formed: bool,
) -> Stack {
    let data = without(saved, "id"@);
    let id = vanilla_id("block_entity_data"@);
    if data.len() == 0 {
        Stack { patch: stack.patch.insert(id, Change::Removed), ..stack }
    } else if !well_formed {
        stack
    } else {
        with_record(
            stack,
            id,
            ComponentKind::BlockEntityData,
            data.push(("id"@, Nbt::Text(kind.text()))),
        )
    }
}

/// Whether saved data is well formed, which is asked of it without its type.
pub open spec fn judged<V: Fn(&NbtCompound) -> bool>(
    is_well_formed: V,
    saved: Seq<(Seq<char>, Nbt)>,
    well_formed: bool,
) -> bool {
    let data = without(saved, "id"@);
    data.len() > 0 ==> exists|asked: NbtCompound|
        asked@ == data && #[trigger] is_well_formed.ensures((&asked,), well_formed)
}

/// Puts the data of a block entity of some type onto a stack. `is_well_formed` tells
/// whether data can be custom data.
pub fn set_block_entity_data<V: Fn(&NbtCompound) -> bool>(
    stack: &mut ItemStack,
    kind: &Identifier,
    saved: NbtCompound,
    is_well_formed: &V,
)
    requires
        forall|data: &NbtCompound| #[trigger] is_well_formed.requires((data,)),
    ensures
        exists|well_formed: bool| #[trigger]
            judged(*is_well_formed, saved@, well_formed) && final(stack)@
                == with_block_entity_data(old(stack)@, kind@, saved@, well_formed),
{
    let ghost given = saved@;
    let mut data = saved;
    data.remove("id");
    if data.is_empty() {
        stack.patch.set_removed(Identifier::vanilla("block_entity_data"));
        assert(judged(*is_well_formed, given, true));
        return;
    }
    let well_formed = is_well_formed(&data);
    assert(judged(*is_well_formed, given, well_formed));
    if !well_formed {
        return;
    }
    let name = kind.text();
    data.insert("id", NbtTag::Text(name));
    stack.set(
        "block_entity_data",
        ComponentData::new(ComponentKind::BlockEntityData, NbtTag::Compound(data)),
    );
}

/// Copies a block entity onto a stack: `saved` is its data without what components
/// stand for, and `components` are the components collected from it.
pub fn add_block_data_to_item<V: Fn(&NbtCompound) -> bool>(
    stack: &mut ItemStack,
    kind: &Identifier,
    saved: NbtCompound,
    is_well_formed: &V,
    components: &DataComponentMap,
)
    requires
        forall|data: &NbtCompound| #[trigger] is_well_formed.requires((data,)),
    ensures
        exists|well_formed: bool| #[trigger]
            judged(*is_well_formed, saved@, well_formed) && final(stack)@ == with_components(
                with_block_entity_data(old(stack)@, kind@, saved@, well_formed),
                components@,
            ),
{
    set_block_entity_data(stack, kind, saved, is_well_formed);
    stack.apply_components(components);
}

/// A block entity's data with an item's data merged into it, where that changes anything.
pub fn merge_custom_data(previous: &NbtCompound, data: &NbtCompound) -> (changed: Option<
    NbtCompound,
>)
    ensures
        match changed {
            Some(changed) => changed@ == merged(previous@, data@) && changed@ != previous@,
            None => merged(previous@, data@) == previous@,
        },
{
    let mut both = previous.copy();
    both.merge(data);
    if both.same(previous) {
        None
    } else {
        Some(both)
    }
}

/// The data that is put onto a stack names the type of its block entity, and holds every
/// other entry that was saved.
pub proof fn law_put_data_names_its_type(
    stack: Stack,
    kind: Id,
    saved: Seq<(Seq<char>, Nbt)>,
    name: Seq<char>,
)
    requires
        forall|i: int, j: int|
            0 <= i < j < saved.len() ==> (#[trigger] saved[i]).0 != (#[trigger] saved[j]).0,
        without(saved, "id"@).len() > 0,
        name != "id"@,
    ensures
        ({
            let after = with_block_entity_data(stack, kind, saved, true);
            let data = record_in(
                after.component(vanilla_id("block_entity_data"@)),
                ComponentKind::BlockEntityData,
            );
            &&& data matches Some(entries) && lookup(entries, "id"@) == Some(Nbt::Text(kind.text()))
                && lookup(entries, name) == lookup(saved, name)
            &&& after.item == stack.item
            &&& after.count == stack.count
        }),
{
    let data = without(saved, "id"@);
    law_removed_entry_is_gone(saved, "id"@, name);
    let entry = ("id"@, Nbt::Text(kind.text()));
    law_lookup_after_insert(data, entry, "id"@);
    law_lookup_after_insert(data, entry, name);
}

/// A component becomes explicit just where the item itself was given it and no field of
/// the block entity took it over.
pub proof fn law_taken_component_does_not_stay(stack: Stack, id: Id)
    ensures
        retained_component(stack, id, true) is None,
        stack.patch.contains_key(id) && stack.patch[id] is SetTo ==> retained_component(
            stack,
            id,
            false,
        ) == stack.component(id) && stack.component(id) is Some,
        !stack.patch.contains_key(id) || stack.patch[id] is Removed ==> retained_component(
            stack,
            id,
            false,
        ) is None,
{
}

} // verus!
