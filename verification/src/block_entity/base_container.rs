//! Shared storage and persistence for base container block entities.
use vstd::prelude::*;

use crate::block_entity::components::BlockEntityComponentInput;
use crate::data_components::map::{with_component, with_optional, DataComponentMap};
use crate::data_components::{
    record_in, Component, ComponentData, ComponentKind, DataComponentType,
};
use crate::ident::{vanilla_id, Id};
use crate::item_nbt::{
    kept, law_saved_stack_is_read_back, loaded_stack, saves_patch, saves_stack, writable,
};
use crate::item_stack::{empty_stack, stacks_of, ItemStack, Stack};
use crate::keyed::find;
use crate::nbt::{
    law_lookup_after_insert, lemma_list_view, list_view, lookup, without, Nbt, NbtCompound, NbtTag,
};
use crate::registry::Registry;

verus! {

/// The most items that a slot holds, whatever the item.
pub const MAX_SLOT_COUNT: i32 = 99;

/// A container as a mathematical value.
#[verifier::ext_equal]
pub ghost struct Storage {
    pub items: Seq<Stack>,
    /// The custom name's tag.
    pub custom_name: Option<Nbt>,
    /// The lock: what the key item has to be.
    pub lock: Option<Seq<(Seq<char>, Nbt)>>,
}

/// Inventory, custom-name and lock data shared by container block entities.
#[derive(Debug)]
pub struct BaseContainer {
    items: Vec<ItemStack>,
    custom_name: Option<NbtTag>,
    lock: Option<NbtCompound>,
}

impl View for BaseContainer {
    type V = Storage;

    closed spec fn view(&self) -> Storage {
        Storage {
            items: stacks_of(self.items@),
            custom_name: match self.custom_name {
                Some(tag) => Some(tag@),
                None => None,
            },
            lock: match self.lock {
                Some(lock) => Some(lock@),
                None => None,
            },
        }
    }
}

/// Slots that hold nothing.
pub open spec fn empty_slots(size: nat) -> Seq<Stack> {
    Seq::new(size, |i: int| empty_stack())
}

/// A list of empty stacks.
pub fn empty_items(size: usize) -> (items: Vec<ItemStack>)
    ensures
        stacks_of(items@) == empty_slots(size as nat),
        items@.len() == size,
{
    let mut items: Vec<ItemStack> = Vec::new();
    let mut i: usize = 0;
    while i < size
        invariant
            i <= size,
            items@.len() == i,
            forall|j: int| 0 <= j < i ==> (#[trigger] items@[j])@ == empty_stack(),
        decreases size - i,
    {
        items.push(ItemStack::empty());
        i = i + 1;
    }
    assert(stacks_of(items@) =~= empty_slots(size as nat));
    items
}

/// The slot that a saved slot number stands for.
pub open spec fn saved_slot(slot: i8) -> int {
    if slot < 0 {
        slot + 256
    } else {
        slot as int
    }
}

/// Whether all the tags of a list are compounds.
pub open spec fn all_compounds(tags: Seq<Nbt>) -> bool {
    forall|i: int| 0 <= i < tags.len() ==> (#[trigger] tags[i]) is Compound
}

/// Slots after one saved entry was loaded into them. An entry without a slot, with
/// one that does not exist or with an unreadable stack changes nothing.
pub open spec fn with_saved_entry(items: Seq<Stack>, tag: Nbt, registry: Registry) -> Seq<Stack> {
    match tag {
        Nbt::Compound(entries) => match lookup(entries, "Slot"@) {
            Some(Nbt::Byte(slot)) => if saved_slot(slot) < items.len() {
                match loaded_stack(entries, registry) {
                    Some(stack) => items.update(saved_slot(slot), stack),
                    None => items,
                }
            } else {
                items
            },
            _ => items,
        },
        _ => items,
    }
}

/// The slots that saved entries fill.
pub open spec fn loaded_slots(tags: Seq<Nbt>, size: nat, registry: Registry) -> Seq<Stack>
    decreases tags.len(),
{
    if tags.len() == 0 {
        empty_slots(size)
    } else {
        with_saved_entry(loaded_slots(tags.drop_last(), size, registry), tags.last(), registry)
    }
}

/// The items that a compound saves under `Items`; none without such a list.
pub open spec fn loaded_items(
    saved: Seq<(Seq<char>, Nbt)>,
    size: nat,
    registry: Registry,
) -> Seq<Stack> {
    match lookup(saved, "Items"@) {
        Some(Nbt::List(tags)) => if all_compounds(tags) {
            loaded_slots(tags, size, registry)
        } else {
            empty_slots(size)
        },
        _ => empty_slots(size),
    }
}

proof fn lemma_loaded_slots_size(tags: Seq<Nbt>, size: nat, registry: Registry)
    ensures
        loaded_slots(tags, size, registry).len() == size,
    decreases tags.len(),
{
    if tags.len() > 0 {
        lemma_loaded_slots_size(tags.drop_last(), size, registry);
    }
}

/// As many slots are loaded as there are.
pub proof fn lemma_loaded_size(saved: Seq<(Seq<char>, Nbt)>, size: nat, registry: Registry)
    ensures
        loaded_items(saved, size, registry).len() == size,
{
    match lookup(saved, "Items"@) {
        Some(Nbt::List(tags)) => {
            lemma_loaded_slots_size(tags, size, registry);
        },
        _ => {},
    }
}

/// The slot number that is saved for a slot.
pub open spec fn slot_byte(slot: int) -> i8 {
    let rest = slot % 256;
    if rest < 128 {
        rest as i8
    } else {
        (rest - 256) as i8
    }
}

/// A compound that the stack of a slot is saved as.
pub open spec fn saves_slot(tag: Nbt, slot: int, stack: Stack, types: Seq<DataComponentType>) -> bool {
    exists|saved: Seq<(Seq<char>, Nbt)>|
        #[trigger] saves_stack(saved, stack, types) && tag == Nbt::Compound(
            saved.push(("Slot"@, Nbt::Byte(slot_byte(slot)))),
        )
}

/// Tags that the slots are saved as: one for each that is not empty, in order.
pub open spec fn saves_slots(
    tags: Seq<Nbt>,
    items: Seq<Stack>,
    types: Seq<DataComponentType>,
) -> bool
    decreases items.len(),
{
    if items.len() == 0 {
        tags.len() == 0
    } else if items.last().is_empty() {
        saves_slots(tags, items.drop_last(), types)
    } else {
        &&& tags.len() > 0
        &&& saves_slots(tags.drop_last(), items.drop_last(), types)
        &&& saves_slot(tags.last(), items.len() - 1, items.last(), types)
    }
}

/// A custom name that a tag holds.
pub open spec fn loaded_name(saved: Seq<(Seq<char>, Nbt)>) -> Option<Nbt> {
    match lookup(saved, "CustomName"@) {
        Some(tag) => if ComponentKind::Text.fits(tag) {
            Some(tag)
        } else {
            None
        },
        None => None,
    }
}

/// A lock that a tag holds.
pub open spec fn loaded_lock(saved: Seq<(Seq<char>, Nbt)>) -> Option<Seq<(Seq<char>, Nbt)>> {
    match lookup(saved, "lock"@) {
        Some(Nbt::Compound(lock)) => Some(lock),
        _ => None,
    }
}

/// A compound with an entry added, where there is something to add.
pub open spec fn with_entry(
    saved: Seq<(Seq<char>, Nbt)>,
    name: Seq<char>,
    tag: Option<Nbt>,
) -> Seq<(Seq<char>, Nbt)> {
    match tag {
        Some(tag) => saved.push((name, tag)),
        None => saved,
    }
}

impl Storage {
    /// A compound with the name and the lock added.
    pub open spec fn with_metadata(self, saved: Seq<(Seq<char>, Nbt)>) -> Seq<(Seq<char>, Nbt)> {
        with_entry(
            with_entry(saved, "CustomName"@, self.custom_name),
            "lock"@,
            match self.lock {
                Some(lock) => Some(Nbt::Compound(lock)),
                None => None,
            },
        )
    }

    /// Whether the container is locked. A lock that asks for nothing is none.
    pub open spec fn has_lock(self) -> bool {
        self.lock matches Some(lock) && lock.len() > 0
    }
}

/// A stack with no more items than a slot holds.
pub open spec fn fitted(stack: Stack) -> Stack {
    let max = if stack.max_stack_size() < MAX_SLOT_COUNT {
        stack.max_stack_size()
    } else {
        MAX_SLOT_COUNT
    };
    if !stack.is_empty() && stack.count > max {
        stack.with_count(max)
    } else {
        stack
    }
}

impl BaseContainer {
    pub fn new(size: usize) -> (container: Self)
        ensures
            container@ == (Storage {
                items: empty_slots(size as nat),
                custom_name: None,
                lock: None,
            }),
    {
        BaseContainer { items: empty_items(size), custom_name: None, lock: None }
    }

    /// Reads the name and the lock.
    pub fn load_metadata(&mut self, saved: &NbtCompound)
        ensures
            final(self)@ == (Storage {
                custom_name: loaded_name(saved@),
                lock: loaded_lock(saved@),
                ..old(self)@
            }),
    {
        self.custom_name = match saved.get("CustomName") {
            Some(tag) => if ComponentKind::Text.accepts(tag) {
                Some(tag.copy())
            } else {
                None
            },
            None => None,
        };
        self.lock = match saved.get_compound("lock") {
            Some(lock) => Some(lock.copy()),
            None => None,
        };
    }

    /// Reads the items.
    pub fn load_items(&mut self, saved: &NbtCompound, registry: &Registry)
        ensures
            final(self)@ == (Storage {
                items: loaded_items(saved@, old(self)@.items.len(), *registry),
                ..old(self)@
            }),
    {
        self.items = BaseContainer::items_from_nbt(saved, self.items.len(), registry);
    }

    /// The items that a compound saves.
    pub fn items_from_nbt(saved: &NbtCompound, size: usize, registry: &Registry) -> (items: Vec<
        ItemStack,
    >)
        ensures
            stacks_of(items@) == loaded_items(saved@, size as nat, *registry),
            items@.len() == size,
    {
        let mut result = empty_items(size);
        let tags = match saved.get_list("Items") {
            Some(tags) => tags,
            None => {
                return result;
            },
        };
        let ghost list = lookup(saved@, "Items"@)->Some_0->List_0;
        let mut i: usize = 0;
        while i < tags.len()
            invariant
                i <= tags.len(),
                tags@.len() == list.len(),
                forall|j: int| 0 <= j < list.len() ==> (#[trigger] tags@[j])@ == list[j],
                forall|j: int| 0 <= j < i ==> (#[trigger] list[j]) is Compound,
                stacks_of(result@) == empty_slots(size as nat),
                lookup(saved@, "Items"@) == Some(Nbt::List(list)),
                result@.len() == size,
            decreases tags.len() - i,
        {
            assert(tags@[i as int]@ == list[i as int]);
            match &tags[i] {
                NbtTag::Compound(_) => {},
                _ => {
                    assert(!(list[i as int] is Compound));
                    return result;
                },
            }
            i = i + 1;
        }
        assert(all_compounds(list));
        let mut i: usize = 0;
        assert(list.take(0) =~= Seq::empty());
        while i < tags.len()
            invariant
                i <= tags.len(),
                tags@.len() == list.len(),
                forall|j: int| 0 <= j < list.len() ==> (#[trigger] tags@[j])@ == list[j],
                stacks_of(result@) == loaded_slots(list.take(i as int), size as nat, *registry),
                result@.len() == size,
            decreases tags.len() - i,
        {
            let ghost before = stacks_of(result@);
            assert(list.take(i + 1).drop_last() =~= list.take(i as int));
            assert(list.take(i + 1).last() == tags@[i as int]@);
            if let NbtTag::Compound(compound) = &tags[i] {
                if let Some(byte) = compound.get_byte("Slot") {
                    let slot: usize = if byte < 0 {
                        (byte as i32 + 256) as usize
                    } else {
                        byte as usize
                    };
                    if slot < result.len() {
                        if let Some(item) = ItemStack::from_nbt(compound, registry) {
                            let ghost loaded = item@;
                            result.set(slot, item);
                            assert(stacks_of(result@) =~= before.update(slot as int, loaded));
                        }
                    }
                }
            }
            i = i + 1;
        }
        assert(list.take(i as int) =~= list);
        result
    }

    /// Writes the name and the lock.
    pub fn save_metadata(&self, saved: &mut NbtCompound)
        ensures
            final(saved)@ == self@.with_metadata(old(saved)@),
    {
        if let Some(custom_name) = &self.custom_name {
            saved.insert("CustomName", custom_name.copy());
        }
        if let Some(lock) = &self.lock {
            saved.insert("lock", NbtTag::Compound(lock.copy()));
        }
    }

    /// Writes the items.
    pub fn save_items(&self, saved: &mut NbtCompound, types: &Vec<DataComponentType>)
        ensures
            saves_list(final(saved)@, old(saved)@, self@.items, types@),
    {
        BaseContainer::save_item_slice(saved, &self.items, types);
    }

    /// Writes items under `Items`.
    pub fn save_item_slice(
        saved: &mut NbtCompound,
        items: &Vec<ItemStack>,
        types: &Vec<DataComponentType>,
    )
        ensures
            saves_list(final(saved)@, old(saved)@, stacks_of(items@), types@),
    {
        broadcast use lemma_list_view;

        let mut tags: Vec<NbtTag> = Vec::new();
        let ghost slots = stacks_of(items@);
        let mut i: usize = 0;
        assert(slots.take(0) =~= Seq::empty());
        assert(list_view(tags@) =~= Seq::empty());
        while i < items.len()
            invariant
                i <= items.len(),
                slots == stacks_of(items@),
                saves_slots(list_view(tags@), slots.take(i as int), types@),
            decreases items.len() - i,
        {
            broadcast use lemma_list_view;

            let item = &items[i];
            assert(slots.take(i + 1).drop_last() =~= slots.take(i as int));
            assert(slots.take(i + 1).last() == item@);
            if !item.is_empty() {
                let ghost before = list_view(tags@);
                let mut entry = item.to_nbt(types);
                let ghost stack_saved = entry@;
                let byte: i8 = to_byte(i);
                entry.insert("Slot", NbtTag::Byte(byte));
                let tag = NbtTag::Compound(entry);
                let ghost added = tag@;
                tags.push(tag);
                proof {
                    assert(list_view(tags@) =~= before.push(added));
                    assert(list_view(tags@).drop_last() =~= before);
                    assert(saves_stack(stack_saved, item@, types@));
                    assert(saves_slot(added, i as int, item@, types@));
                }
            }
            i = i + 1;
        }
        assert(slots.take(i as int) =~= slots);
        let ghost list = list_view(tags@);
        saved.insert("Items", NbtTag::List(tags));
        assert(saves_slots(list, slots, types@));
    }

    /// Replaces all items, where their number is that of the slots; otherwise hands
    /// them back.
    pub fn replace_items(&mut self, items: Vec<ItemStack>) -> (result: Result<(), Vec<ItemStack>>)
        ensures
            match result {
                Ok(()) => items@.len() == old(self)@.items.len() && final(self)@ == (Storage {
                    items: stacks_of(items@),
                    ..old(self)@
                }),
                Err(back) => {
                    &&& items@.len() != old(self)@.items.len()
                    &&& back == items
                    &&& final(self)@ == old(self)@
                },
            },
    {
        if items.len() != self.items.len() {
            return Err(items);
        }
        self.items = items;
        Ok(())
    }

    pub fn items(&self) -> (items: &Vec<ItemStack>)
        ensures
            stacks_of(items@) == self@.items,
            items@.len() == self@.items.len(),
    {
        &self.items
    }

    /// Puts a stack into a slot as it is.
    pub fn put_item(&mut self, slot: usize, stack: ItemStack)
        requires
            slot < old(self)@.items.len(),
        ensures
            final(self)@ == (Storage {
                items: old(self)@.items.update(slot as int, stack@),
                ..old(self)@
            }),
    {
        let ghost put = stack@;
        self.items.set(slot, stack);
        assert(self@.items =~= old(self)@.items.update(slot as int, put));
    }

    /// The stack in a slot.
    pub fn item(&self, slot: usize) -> (stack: &ItemStack)
        requires
            slot < self@.items.len(),
        ensures
            stack@ == self@.items[slot as int],
    {
        &self.items[slot]
    }

    /// Puts a stack into a slot, cut down to what the slot holds. A slot that does
    /// not exist changes nothing.
    pub fn set_item(&mut self, slot: usize, stack: ItemStack)
        ensures
            final(self)@ == (Storage {
                items: if slot < old(self)@.items.len() {
                    old(self)@.items.update(slot as int, fitted(stack@))
                } else {
                    old(self)@.items
                },
                ..old(self)@
            }),
    {
        if slot >= self.items.len() {
            return;
        }
        let mut stack = stack;
        let size: i32 = stack.max_stack_size();
        let max: i32 = if size < MAX_SLOT_COUNT {
            size
        } else {
            MAX_SLOT_COUNT
        };
        let ghost given = stack@;
        if !stack.is_empty() && stack.count > max {
            stack.count = max;
        }
        let ghost put = stack@;
        self.items.set(slot, stack);
        assert(self@.items =~= old(self)@.items.update(slot as int, fitted(given)));
    }

    /// Removes every item.
    pub fn clear_items(&mut self)
        ensures
            final(self)@ == (Storage {
                items: empty_slots(old(self)@.items.len()),
                ..old(self)@
            }),
    {
        self.items = empty_items(self.items.len());
    }

    /// Removes every item while retaining the fixed slot count.
    pub fn take_items(&mut self) -> (items: Vec<ItemStack>)
        ensures
            stacks_of(items@) == old(self)@.items,
            final(self)@ == (Storage {
                items: empty_slots(old(self)@.items.len()),
                ..old(self)@
            }),
    {
        let mut items = empty_items(self.items.len());
        std::mem::swap(&mut self.items, &mut items);
        items
    }

    /// The custom name, or else the default one.
    pub fn display_name(&self, default: NbtTag) -> (name: NbtTag)
        ensures
            name@ == match self@.custom_name {
                Some(name) => name,
                None => default@,
            },
    {
        match &self.custom_name {
            Some(name) => name.copy(),
            None => default,
        }
    }

    pub fn has_custom_name(&self) -> (named: bool)
        ensures
            named == self@.custom_name is Some,
    {
        self.custom_name.is_some()
    }

    /// Whether the container is locked.
    pub fn has_lock(&self) -> (locked: bool)
        ensures
            locked == self@.has_lock(),
    {
        match &self.lock {
            Some(lock) => !lock.is_empty(),
            None => false,
        }
    }

    /// Whether a player may open the container: a spectator always, and anyone else
    /// with no lock or with an item that fits it.
    pub fn can_open(&self, is_spectator: bool, key_fits: bool) -> (open: bool)
        ensures
            open == (is_spectator || self@.lock is None || key_fits),
    {
        is_spectator || self.lock.is_none() || key_fits
    }
}

/// The slot number that is saved for a slot.
fn to_byte(slot: usize) -> (byte: i8)
    ensures
        byte == slot_byte(slot as int),
{
    let rest: i32 = (slot % 256) as i32;
    if rest < 128 {
        rest as i8
    } else {
        (rest - 256) as i8
    }
}

/// A compound with the items added under `Items`.
pub open spec fn saves_list(
    after: Seq<(Seq<char>, Nbt)>,
    before: Seq<(Seq<char>, Nbt)>,
    items: Seq<Stack>,
    types: Seq<DataComponentType>,
) -> bool {
    exists|tags: Seq<Nbt>|
        #[trigger] saves_slots(tags, items, types) && after == before.push(
            ("Items"@, Nbt::List(tags)),
        )
}

/// Slots that can be saved and read back: at most as many as slot numbers tell
/// apart, with registered items.
pub open spec fn savable(items: Seq<Stack>, registry: Registry) -> bool {
    &&& items.len() <= 256
    &&& forall|i: int|
        0 <= i < items.len() && !(#[trigger] items[i]).is_empty() ==> {
            &&& items[i].item.valid()
            &&& items[i].item.namespace.len() > 0
            &&& writable(items[i].patch)
            &&& find(registry.items@, items[i].item) is Some
        }
}

/// What is kept of slots that are saved.
pub open spec fn kept_slots(items: Seq<Stack>, size: nat, registry: Registry) -> Seq<Stack> {
    Seq::new(
        size,
        |i: int|
            if i < items.len() && !items[i].is_empty() {
                kept(
                    items[i],
                    find(registry.items@, items[i].item)->Some_0,
                    registry.component_types@,
                )
            } else {
                empty_stack()
            },
    )
}

proof fn lemma_slot_lookups(saved: Seq<(Seq<char>, Nbt)>, stack: Stack, slot: i8, registry: Registry)
    requires
        saves_stack(saved, stack, registry.component_types@),
    ensures
        ({
            let entry = saved.push(("Slot"@, Nbt::Byte(slot)));
            &&& lookup(entry, "Slot"@) == Some(Nbt::Byte(slot))
            &&& loaded_stack(entry, registry) == loaded_stack(saved, registry)
        }),
{
    let patch = choose|patch: Seq<(Seq<char>, Nbt)>|
        {
            &&& #[trigger] saves_patch(patch, stack.patch, registry.component_types@)
            &&& saved == seq![
                ("id"@, Nbt::Text(stack.item.text())),
                ("count"@, Nbt::Int(stack.count)),
                ("components"@, Nbt::Compound(patch)),
            ]
        };
    let added = ("Slot"@, Nbt::Byte(slot));
    crate::item_nbt::lemma_stack_lookups(saved, stack.item.text(), stack.count, patch);
    law_lookup_after_insert(saved, added, "Slot"@);
    law_lookup_after_insert(saved, added, "id"@);
    law_lookup_after_insert(saved, added, "count"@);
    law_lookup_after_insert(saved, added, "components"@);
    reveal_strlit("id");
    reveal_strlit("count");
    reveal_strlit("components");
    reveal_strlit("Slot");
    reveal_with_fuel(lookup, 4);
    assert("Slot"@.len() != "id"@.len());
    assert("Slot"@.len() != "count"@.len());
    assert("Slot"@.len() != "components"@.len());
    assert(saved.drop_first()[0] == saved[1]);
    assert(saved.drop_first().drop_first()[0] == saved[2]);
    assert(saved.drop_first().drop_first().drop_first().len() == 0);
    assert(lookup(saved, "Slot"@) is None);
}

/// Saved slots are read back as far as they are kept.
pub proof fn lemma_saved_slots_are_read_back(
    tags: Seq<Nbt>,
    items: Seq<Stack>,
    size: nat,
    registry: Registry,
)
    requires
        savable(items, registry),
        items.len() <= size,
        saves_slots(tags, items, registry.component_types@),
    ensures
        all_compounds(tags),
        loaded_slots(tags, size, registry) == kept_slots(items, size, registry),
    decreases items.len(),
{
    if items.len() == 0 {
        assert(kept_slots(items, size, registry) =~= empty_slots(size));
    } else {
        let before = items.drop_last();
        assert(savable(before, registry)) by {
            assert forall|i: int| 0 <= i < before.len() && !(#[trigger] before[i]).is_empty() implies {
                &&& before[i].item.valid()
                &&& before[i].item.namespace.len() > 0
                &&& writable(before[i].patch)
                &&& find(registry.items@, before[i].item) is Some
            } by {
                assert(before[i] == items[i]);
            }
        }
        let last = items.len() - 1;
        if items.last().is_empty() {
            lemma_saved_slots_are_read_back(tags, before, size, registry);
            assert(kept_slots(items, size, registry) =~= kept_slots(before, size, registry));
        } else {
            let stack = items[last];
            lemma_saved_slots_are_read_back(tags.drop_last(), before, size, registry);
            let saved = choose|saved: Seq<(Seq<char>, Nbt)>|
                #[trigger] saves_stack(saved, stack, registry.component_types@) && tags.last()
                    == Nbt::Compound(saved.push(("Slot"@, Nbt::Byte(slot_byte(last)))));
            lemma_slot_lookups(saved, stack, slot_byte(last), registry);
            law_saved_stack_is_read_back(saved, stack, registry);
            assert(saved_slot(slot_byte(last)) == last);
            assert(kept_slots(items, size, registry) =~= kept_slots(before, size, registry).update(
                last,
                kept(
                    stack,
                    find(registry.items@, stack.item)->Some_0,
                    registry.component_types@,
                ),
            ));
            assert(all_compounds(tags)) by {
                assert forall|i: int| 0 <= i < tags.len() implies (#[trigger] tags[i]) is Compound by {
                    if i < tags.len() - 1 {
                        assert(tags.drop_last()[i] == tags[i]);
                    }
                }
            }
        }
    }
}

/// A container that is saved, metadata first, is read back with its name, its lock
/// and what is kept of its items.
pub proof fn law_saved_container_is_read_back(
    storage: Storage,
    saved: Seq<(Seq<char>, Nbt)>,
    registry: Registry,
)
    requires
        storage.custom_name matches Some(name) ==> ComponentKind::Text.fits(name),
        savable(storage.items, registry),
        saves_list(
            saved,
            storage.with_metadata(Seq::empty()),
            storage.items,
            registry.component_types@,
        ),
    ensures
        loaded_name(saved) == storage.custom_name,
        loaded_lock(saved) == storage.lock,
        loaded_items(saved, storage.items.len(), registry) == kept_slots(
            storage.items,
            storage.items.len(),
            registry,
        ),
{
    broadcast use law_lookup_after_insert;

    let metadata = storage.with_metadata(Seq::empty());
    let tags = choose|tags: Seq<Nbt>|
        #[trigger] saves_slots(tags, storage.items, registry.component_types@) && saved
            == metadata.push(("Items"@, Nbt::List(tags)));
    lemma_saved_slots_are_read_back(tags, storage.items, storage.items.len(), registry);
    reveal_strlit("CustomName");
    reveal_strlit("lock");
    reveal_strlit("Items");
    assert("CustomName"@.len() != "lock"@.len());
    assert("CustomName"@.len() != "Items"@.len());
    assert("lock"@.len() != "Items"@.len());
    law_lookup_after_insert(metadata, ("Items"@, Nbt::List(tags)), "Items"@);
    law_lookup_after_insert(metadata, ("Items"@, Nbt::List(tags)), "lock"@);
    law_lookup_after_insert(metadata, ("Items"@, Nbt::List(tags)), "CustomName"@);
}

/// Slots after one entry of container contents was put into them.
pub open spec fn with_content(items: Seq<Stack>, tag: Nbt, registry: Registry) -> Seq<Stack> {
    match tag {
        Nbt::Compound(entries) => match (lookup(entries, "slot"@), lookup(entries, "item"@)) {
            (Some(Nbt::Int(slot)), Some(Nbt::Compound(saved))) => if 0 <= slot < items.len() {
                match loaded_stack(saved, registry) {
                    Some(stack) => items.update(slot as int, stack),
                    None => items,
                }
            } else {
                items
            },
            _ => items,
        },
        _ => items,
    }
}

/// The slots that container contents fill.
pub open spec fn loaded_contents(tags: Seq<Nbt>, size: nat, registry: Registry) -> Seq<Stack>
    decreases tags.len(),
{
    if tags.len() == 0 {
        empty_slots(size)
    } else {
        with_content(loaded_contents(tags.drop_last(), size, registry), tags.last(), registry)
    }
}

/// The entries of a component that holds container contents.
pub open spec fn content_tags(data: Option<Component>) -> Seq<Nbt> {
    match data {
        Some(Component { kind: ComponentKind::ContainerContents, value: Nbt::List(tags) }) => tags,
        _ => Seq::empty(),
    }
}

/// A compound that a slot is listed as in container contents.
pub open spec fn saves_content(
    tag: Nbt,
    slot: int,
    stack: Stack,
    types: Seq<DataComponentType>,
) -> bool {
    exists|saved: Seq<(Seq<char>, Nbt)>|
        #[trigger] saves_stack(saved, stack, types) && tag == Nbt::Compound(
            seq![("slot"@, Nbt::Int(slot as i32)), ("item"@, Nbt::Compound(saved))],
        )
}

/// Tags that list the slots: one for each that is not empty, in order.
pub open spec fn saves_contents(
    tags: Seq<Nbt>,
    items: Seq<Stack>,
    types: Seq<DataComponentType>,
) -> bool
    decreases items.len(),
{
    if items.len() == 0 {
        tags.len() == 0
    } else if items.last().is_empty() {
        saves_contents(tags, items.drop_last(), types)
    } else {
        &&& tags.len() > 0
        &&& saves_contents(tags.drop_last(), items.drop_last(), types)
        &&& saves_content(tags.last(), items.len() - 1, items.last(), types)
    }
}

/// Container contents are listed for up to 256 slots, and no stack in them is of
/// more than `MAX_SLOT_COUNT` items.
pub open spec fn listable(items: Seq<Stack>) -> bool {
    items.len() <= 256 && forall|i: int|
        0 <= i < items.len() ==> (#[trigger] items[i]).count <= MAX_SLOT_COUNT
}

/// Components with those of a container's name and lock.
pub open spec fn with_metadata_components(
    components: Seq<(Id, Component)>,
    storage: Storage,
) -> Seq<(Id, Component)> {
    let named = with_optional(
        components,
        vanilla_id("custom_name"@),
        match storage.custom_name {
            Some(name) => Some(Component { kind: ComponentKind::Text, value: name }),
            None => None,
        },
    );
    if storage.has_lock() {
        with_component(
            named,
            vanilla_id("lock"@),
            Component {
                kind: ComponentKind::Lock,
                value: Nbt::Compound(storage.lock->Some_0),
            },
        )
    } else {
        named
    }
}

/// Components with those of a container: its name, its lock and its items, where
/// the items can be listed.
pub open spec fn collects(
    after: Seq<(Id, Component)>,
    before: Seq<(Id, Component)>,
    storage: Storage,
    types: Seq<DataComponentType>,
) -> bool {
    let described = with_metadata_components(before, storage);
    if listable(storage.items) {
        exists|tags: Seq<Nbt>|
            #[trigger] saves_contents(tags, storage.items, types) && after == with_component(
                described,
                vanilla_id("container"@),
                Component { kind: ComponentKind::ContainerContents, value: Nbt::List(tags) },
            )
    } else {
        after == described
    }
}

/// A name that an item's component gives.
pub open spec fn name_component(data: Option<Component>) -> Option<Nbt> {
    match data {
        Some(Component { kind: ComponentKind::Text, value }) => Some(value),
        _ => None,
    }
}

/// A lock that an item's component gives.
pub open spec fn lock_component(data: Option<Component>) -> Option<Seq<(Seq<char>, Nbt)>> {
    record_in(data, ComponentKind::Lock)
}

impl Storage {
    /// The container after the components of a placing item were applied to it.
    pub open spec fn with_item(self, stack: Stack, registry: Registry) -> Storage {
        Storage {
            items: loaded_contents(
                content_tags(stack.component(vanilla_id("container"@))),
                self.items.len(),
                registry,
            ),
            custom_name: name_component(stack.component(vanilla_id("custom_name"@))),
            lock: lock_component(stack.component(vanilla_id("lock"@))),
        }
    }
}

/// The saved form of a container without what its components stand for.
pub open spec fn without_components(saved: Seq<(Seq<char>, Nbt)>) -> Seq<(Seq<char>, Nbt)> {
    without(without(without(saved, "CustomName"@), "lock"@), "Items"@)
}

impl BaseContainer {
    /// Applies the components of a placing item, which are consumed.
    pub fn apply_implicit_components(
        &mut self,
        input: &mut BlockEntityComponentInput,
        registry: &Registry,
    )
        ensures
            final(self)@ == old(self)@.with_item(old(input).stack@, *registry),
            final(self)@.items.len() == old(self)@.items.len(),
            final(input).stack == old(input).stack,
            forall|id: Id| #[trigger]
                final(input).consumes(id) <==> old(input).consumes(id) || id == vanilla_id(
                    "custom_name"@,
                ) || id == vanilla_id("lock"@) || id == vanilla_id("container"@),
    {
        self.custom_name = match input.get("custom_name") {
            Some(data) => match data.kind {
                ComponentKind::Text => Some(data.value.copy()),
                _ => None,
            },
            None => None,
        };
        self.lock = match input.get("lock") {
            Some(data) => match data.as_record(ComponentKind::Lock) {
                Some(lock) => Some(lock.copy()),
                None => None,
            },
            None => None,
        };
        let size: usize = self.items.len();
        self.items = match input.get("container") {
            Some(data) => match (data.kind, &data.value) {
                (ComponentKind::ContainerContents, NbtTag::List(tags)) => contents_from(
                    tags,
                    size,
                    registry,
                ),
                _ => empty_items(size),
            },
            None => empty_items(size),
        };
    }

    /// Adds the components that stand for the name, the lock and the items.
    pub fn collect_implicit_components(
        &self,
        components: &mut DataComponentMap,
        types: &Vec<DataComponentType>,
    )
        ensures
            collects(final(components)@, old(components)@, self@, types@),
    {
        let name = match &self.custom_name {
            Some(name) => Some(ComponentData::new(ComponentKind::Text, name.copy())),
            None => None,
        };
        components.set("custom_name", name);
        if self.has_lock() {
            if let Some(lock) = &self.lock {
                components.set(
                    "lock",
                    Some(
                        ComponentData::new(ComponentKind::Lock, NbtTag::Compound(lock.copy())),
                    ),
                );
            }
        }
        if let Some(tags) = list_contents(&self.items, types) {
            let ghost list = list_view(tags@);
            components.set(
                "container",
                Some(ComponentData::new(ComponentKind::ContainerContents, NbtTag::List(tags))),
            );
            assert(saves_contents(list, self@.items, types@));
        }
    }

    /// Removes what the components stand for from saved data.
    pub fn remove_components_from_tag(saved: &mut NbtCompound)
        ensures
            final(saved)@ == without_components(old(saved)@),
    {
        saved.remove("CustomName");
        saved.remove("lock");
        saved.remove("Items");
    }
}

/// The slots that container contents fill.
fn contents_from(tags: &Vec<NbtTag>, size: usize, registry: &Registry) -> (items: Vec<ItemStack>)
    ensures
        stacks_of(items@) == loaded_contents(list_view(tags@), size as nat, *registry),
        items@.len() == size,
{
    broadcast use lemma_list_view;

    let mut items = empty_items(size);
    let ghost list = list_view(tags@);
    let mut i: usize = 0;
    assert(list.take(0) =~= Seq::empty());
    while i < tags.len()
        invariant
            i <= tags.len(),
            list == list_view(tags@),
            items@.len() == size,
            stacks_of(items@) == loaded_contents(list.take(i as int), size as nat, *registry),
        decreases tags.len() - i,
    {
        broadcast use lemma_list_view;

        let ghost before = stacks_of(items@);
        assert(list.take(i + 1).drop_last() =~= list.take(i as int));
        assert(list.take(i + 1).last() == tags@[i as int]@);
        if let NbtTag::Compound(entries) = &tags[i] {
            if let (Some(slot), Some(saved)) = (
                entries.get_int("slot"),
                entries.get_compound("item"),
            ) {
                if slot >= 0 && (slot as usize) < items.len() {
                    if let Some(stack) = ItemStack::from_nbt(saved, registry) {
                        let ghost loaded = stack@;
                        items.set(slot as usize, stack);
                        assert(stacks_of(items@) =~= before.update(slot as int, loaded));
                    }
                }
            }
        }
        i = i + 1;
    }
    assert(list.take(i as int) =~= list);
    items
}

/// Lists the slots, where they can be listed.
fn list_contents(items: &Vec<ItemStack>, types: &Vec<DataComponentType>) -> (tags: Option<
    Vec<NbtTag>,
>)
    ensures
        match tags {
            Some(tags) => listable(stacks_of(items@)) && saves_contents(
                list_view(tags@),
                stacks_of(items@),
                types@,
            ),
            None => !listable(stacks_of(items@)),
        },
{
    broadcast use lemma_list_view;

    let ghost slots = stacks_of(items@);
    if items.len() > 256 {
        return None;
    }
    let mut tags: Vec<NbtTag> = Vec::new();
    let mut i: usize = 0;
    assert(slots.take(0) =~= Seq::empty());
    assert(list_view(tags@) =~= Seq::empty());
    while i < items.len()
        invariant
            i <= items.len() <= 256,
            slots == stacks_of(items@),
            forall|j: int| 0 <= j < i ==> (#[trigger] slots[j]).count <= MAX_SLOT_COUNT,
            saves_contents(list_view(tags@), slots.take(i as int), types@),
        decreases items.len() - i,
    {
        broadcast use lemma_list_view;

        let item = &items[i];
        assert(slots[i as int] == item@);
        assert(slots.take(i + 1).drop_last() =~= slots.take(i as int));
        assert(slots.take(i + 1).last() == item@);
        if item.count > MAX_SLOT_COUNT {
            return None;
        }
        if !item.is_empty() {
            let ghost before = list_view(tags@);
            let saved = item.to_nbt(types);
            let ghost stack_saved = saved@;
            let mut entry = NbtCompound::new();
            entry.insert("slot", NbtTag::Int(i as i32));
            entry.insert("item", NbtTag::Compound(saved));
            assert(entry@ =~= seq![
                ("slot"@, Nbt::Int(i as i32)),
                ("item"@, Nbt::Compound(stack_saved)),
            ]);
            let tag = NbtTag::Compound(entry);
            let ghost added = tag@;
            tags.push(tag);
            proof {
                assert(list_view(tags@) =~= before.push(added));
                assert(list_view(tags@).drop_last() =~= before);
                assert(saves_stack(stack_saved, item@, types@));
                assert(saves_content(added, i as int, item@, types@));
            }
        }
        i = i + 1;
    }
    assert(slots.take(i as int) =~= slots);
    Some(tags)
}

/// The items that a container's components list are those that a container placed
/// with them holds.
pub proof fn law_listed_contents_are_read_back(
    tags: Seq<Nbt>,
    items: Seq<Stack>,
    size: nat,
    registry: Registry,
)
    requires
        savable(items, registry),
        items.len() <= size,
        saves_contents(tags, items, registry.component_types@),
    ensures
        loaded_contents(tags, size, registry) == kept_slots(items, size, registry),
    decreases items.len(),
{
    if items.len() == 0 {
        assert(kept_slots(items, size, registry) =~= empty_slots(size));
    } else {
        let before = items.drop_last();
        assert(savable(before, registry)) by {
            assert forall|i: int| 0 <= i < before.len() && !(#[trigger] before[i]).is_empty() implies {
                &&& before[i].item.valid()
                &&& before[i].item.namespace.len() > 0
                &&& writable(before[i].patch)
                &&& find(registry.items@, before[i].item) is Some
            } by {
                assert(before[i] == items[i]);
            }
        }
        let last = items.len() - 1;
        if items.last().is_empty() {
            law_listed_contents_are_read_back(tags, before, size, registry);
            assert(kept_slots(items, size, registry) =~= kept_slots(before, size, registry));
        } else {
            let stack = items[last];
            law_listed_contents_are_read_back(tags.drop_last(), before, size, registry);
            let saved = choose|saved: Seq<(Seq<char>, Nbt)>|
                #[trigger] saves_stack(saved, stack, registry.component_types@) && tags.last()
                    == Nbt::Compound(
                    seq![("slot"@, Nbt::Int(last as i32)), ("item"@, Nbt::Compound(saved))],
                );
            let entry = seq![("slot"@, Nbt::Int(last as i32)), ("item"@, Nbt::Compound(saved))];
            assert(lookup(entry, "slot"@) == Some(Nbt::Int(last as i32)) && lookup(entry, "item"@)
                == Some(Nbt::Compound(saved))) by {
                reveal_strlit("slot");
                reveal_strlit("item");
                reveal_with_fuel(lookup, 3);
                assert("slot"@[0] != "item"@[0]);
                assert(entry.drop_first()[0] == entry[1]);
            }
            law_saved_stack_is_read_back(saved, stack, registry);
            assert(kept_slots(items, size, registry) =~= kept_slots(before, size, registry).update(
                last,
                kept(
                    stack,
                    find(registry.items@, stack.item)->Some_0,
                    registry.component_types@,
                ),
            ));
        }
    }
}

/// A stack that is put into a slot is cut down to what its kind and a slot hold, and no
/// further; its kind stays.
pub proof fn law_slot_takes_what_it_holds(stack: Stack)
    requires
        !stack.is_empty(),
    ensures
        ({
            let put = fitted(stack);
            &&& put == (Stack { count: put.count, ..stack })
            &&& 1 <= put.count <= stack.count
            &&& put.count <= 99
            &&& put.count <= stack.max_stack_size()
            &&& put.count == stack.count || put.count == 99 || put.count == stack.max_stack_size()
            &&& fitted(put) == put
        }),
{
    let put = fitted(stack);
    assert(put.max_stack_size() == stack.max_stack_size());
}

/// The name and the lock are saved under their own names, where there are any.
pub proof fn law_metadata_is_saved_under_its_names(storage: Storage)
    ensures
        ({
            let saved = storage.with_metadata(Seq::empty());
            &&& lookup(saved, "CustomName"@) == storage.custom_name
            &&& storage.lock matches Some(lock) ==> lookup(saved, "lock"@) == Some(
                Nbt::Compound(lock),
            )
            &&& storage.lock is None ==> lookup(saved, "lock"@) is None
        }),
{
    broadcast use law_lookup_after_insert;

    reveal_strlit("CustomName");
    reveal_strlit("lock");
    assert("CustomName"@.len() == 10);
    assert("lock"@.len() == 4);
    let none = Seq::<(Seq<char>, Nbt)>::empty();
    assert(lookup(none, "CustomName"@) is None);
    assert(lookup(none, "lock"@) is None);
    let named = with_entry(none, "CustomName"@, storage.custom_name);
    assert(lookup(named, "CustomName"@) == storage.custom_name);
    assert(lookup(named, "lock"@) is None);
}

/// The saved form of a slot tells where the slot is, in a byte that agrees with its
/// number up to multiples of two hundred and fifty-six, and which item lies there.
pub proof fn law_saved_slot_tells_its_place(
    tag: Nbt,
    slot: int,
    stack: Stack,
    types: Seq<DataComponentType>,
)
    requires
        0 <= slot,
        saves_slot(tag, slot, stack, types),
    ensures
        tag is Compound,
        ({
            let entry = tag->Compound_0;
            &&& lookup(entry, "Slot"@) is Some
            &&& lookup(entry, "Slot"@)->Some_0 is Byte
            &&& (lookup(entry, "Slot"@)->Some_0->Byte_0 - slot) % 256 == 0
            &&& slot < 128 ==> lookup(entry, "Slot"@)->Some_0->Byte_0 == slot
            &&& lookup(entry, "id"@) == Some(Nbt::Text(stack.item.text()))
            &&& lookup(entry, "count"@) == Some(Nbt::Int(stack.count))
        }),
{
    let saved = choose|saved: Seq<(Seq<char>, Nbt)>|
        #[trigger] saves_stack(saved, stack, types) && tag == Nbt::Compound(
            saved.push(("Slot"@, Nbt::Byte(slot_byte(slot)))),
        );
    let added = ("Slot"@, Nbt::Byte(slot_byte(slot)));
    crate::item_nbt::law_stack_is_saved_under_its_names(saved, stack, types);
    law_lookup_after_insert(saved, added, "Slot"@);
    law_lookup_after_insert(saved, added, "id"@);
    law_lookup_after_insert(saved, added, "count"@);
    reveal_strlit("id");
    reveal_strlit("count");
    reveal_strlit("components");
    reveal_strlit("Slot");
    reveal_with_fuel(lookup, 4);
    assert("Slot"@.len() != "id"@.len());
    assert("Slot"@.len() != "count"@.len());
    assert("Slot"@.len() != "components"@.len());
    assert(saved.len() == 3);
    assert(saved.drop_first()[0] == saved[1]);
    assert(saved.drop_first().drop_first()[0] == saved[2]);
    assert(saved.drop_first().drop_first().drop_first().len() == 0);
    assert(lookup(saved, "Slot"@) is None);
}

} // verus!
