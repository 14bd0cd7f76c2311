//! Item stacks: an item, a count and the changes made to the item's components.
use vstd::prelude::*;

use crate::data_components::map::DataComponentMap;
use crate::data_components::patch::{
    patched, Change, ComponentPatchEntry, DataComponentPatch,
};
use crate::data_components::{
    integer_of, number_of, Component, ComponentData, ComponentKind, DataComponentGetter,
};
use crate::ident::{vanilla_id, Id, Identifier};
use crate::keyed::Keyed;

verus! {

/// A kind of item: its identifier and the components that its stacks start with.
#[derive(Debug)]
pub struct Item {
    pub key: Identifier,
    pub components: DataComponentMap,
}

impl Keyed for Item {
    open spec fn id(&self) -> Id {
        self.key@
    }

    fn key(&self) -> (key: &Identifier) {
        &self.key
    }
}

impl Item {
    /// A copy of this item.
    pub fn copy(&self) -> (item: Self)
        ensures
            item.key@ == self.key@,
            item.components@ == self.components@,
    {
        Item { key: self.key.clone(), components: self.components.copy() }
    }
}

/// An item stack as a mathematical value.
#[verifier::ext_equal]
pub ghost struct Stack {
    pub item: Id,
    pub prototype: Seq<(Id, Component)>,
    pub count: i32,
    pub patch: Map<Id, Change>,
}

impl Stack {
    /// A stack of an item with nothing changed.
    pub open spec fn of(item: Item, count: i32) -> Stack {
        Stack { item: item.key@, prototype: item.components@, count, patch: Map::empty() }
    }

    /// Whether the stack holds nothing: no item at all, or none of it.
    pub open spec fn is_empty(self) -> bool {
        self.count <= 0 || self.item == vanilla_id("air"@)
    }

    pub open spec fn with_count(self, count: i32) -> Stack {
        Stack { count, ..self }
    }

    /// The effective value of a component.
    pub open spec fn component(self, id: Id) -> Option<Component> {
        patched(self.patch, self.prototype, id)
    }

    /// This stack with a component set.
    pub open spec fn with(self, id: Id, data: Component) -> Stack {
        Stack { patch: self.patch.insert(id, Change::SetTo(data)), ..self }
    }

    /// The most items that one stack of this kind holds: at least one.
    pub open spec fn max_stack_size(self) -> i32 {
        match integer_of(self.component(vanilla_id("max_stack_size"@))) {
            Some(size) => if size > 1 {
                size
            } else {
                1
            },
            None => 1,
        }
    }

    /// Whether two stacks differ in nothing but their counts.
    pub open spec fn same_kind(self, other: Stack) -> bool {
        self.item == other.item && self.patch == other.patch
    }
}

/// The stacks of a list.
pub open spec fn stacks_of(stacks: Seq<ItemStack>) -> Seq<Stack> {
    Seq::new(stacks.len(), |i: int| stacks[i]@)
}

/// Some number of one item, with changes to the item's components.
#[derive(Debug)]
pub struct ItemStack {
    pub item: Item,
    pub count: i32,
    pub patch: DataComponentPatch,
}

impl View for ItemStack {
    type V = Stack;

    open spec fn view(&self) -> Stack {
        Stack {
            item: self.item.key@,
            prototype: self.item.components@,
            count: self.count,
            patch: self.patch@,
        }
    }
}

/// Read-only item identity, count and effective components.
pub trait ItemInstance: DataComponentGetter {
    spec fn instance_item(&self) -> Id;

    spec fn instance_count(&self) -> i32;

    /// The item's identifier.
    fn item(&self) -> (key: &Identifier)
        ensures
            key@ == self.instance_item(),
    ;

    /// The stack size.
    fn count(&self) -> (count: i32)
        ensures
            count == self.instance_count(),
    ;
}

impl DataComponentGetter for ItemStack {
    open spec fn component(&self, id: Id) -> Option<Component> {
        self@.component(id)
    }

    fn get_raw(&self, key: &Identifier) -> (data: Option<&ComponentData>) {
        match self.patch.get_entry(key) {
            Some(ComponentPatchEntry::SetTo(data)) => Some(data),
            Some(ComponentPatchEntry::Removed) => None,
            None => self.item.components.get_raw(key),
        }
    }
}

impl ItemInstance for ItemStack {
    open spec fn instance_item(&self) -> Id {
        self@.item
    }

    open spec fn instance_count(&self) -> i32 {
        self@.count
    }

    fn item(&self) -> (key: &Identifier) {
        &self.item.key
    }

    fn count(&self) -> (count: i32) {
        self.count
    }
}

/// The stack that holds nothing.
pub open spec fn empty_stack() -> Stack {
    Stack {
        item: vanilla_id("air"@),
        prototype: Seq::empty(),
        count: 0,
        patch: Map::empty(),
    }
}

impl ItemStack {
    /// A single item.
    pub fn new(item: &Item) -> (stack: Self)
        ensures
            stack@ == Stack::of(*item, 1),
    {
        ItemStack { item: item.copy(), count: 1, patch: DataComponentPatch::new() }
    }

    pub fn with_count(item: &Item, count: i32) -> (stack: Self)
        ensures
            stack@ == Stack::of(*item, count),
    {
        ItemStack { item: item.copy(), count, patch: DataComponentPatch::new() }
    }

    /// The stack that holds nothing.
    pub fn empty() -> (stack: Self)
        ensures
            stack@ == empty_stack(),
    {
        ItemStack {
            item: Item { key: Identifier::vanilla("air"), components: DataComponentMap::new() },
            count: 0,
            patch: DataComponentPatch::new(),
        }
    }

    pub fn is_empty(&self) -> (empty: bool)
        ensures
            empty == self@.is_empty(),
    {
        self.count <= 0 || self.item.key.is_vanilla("air")
    }

    /// Whether this is a stack of `minecraft:path`.
    pub fn is(&self, path: &str) -> (same: bool)
        ensures
            same == (self@.item == vanilla_id(path@)),
    {
        self.item.key.is_vanilla(path)
    }

    /// A copy of this stack.
    pub fn copy(&self) -> (stack: Self)
        ensures
            stack@ == self@,
    {
        ItemStack { item: self.item.copy(), count: self.count, patch: self.patch.copy() }
    }

    /// A copy of this stack with another count.
    pub fn copy_with_count(&self, count: i32) -> (stack: Self)
        ensures
            stack@ == self@.with_count(count),
    {
        ItemStack { item: self.item.copy(), count, patch: self.patch.copy() }
    }

    /// Takes up to `amount` items off this stack.
    pub fn split(&mut self, amount: i32) -> (taken: Self)
        requires
            amount >= 0,
            old(self)@.count >= 0,
        ensures
            taken@ == old(self)@.with_count(
                if amount <= old(self)@.count {
                    amount
                } else {
                    old(self)@.count
                },
            ),
            final(self)@ == old(self)@.with_count((old(self)@.count - taken@.count) as i32),
    {
        let count: i32 = if amount <= self.count {
            amount
        } else {
            self.count
        };
        let taken = self.copy_with_count(count);
        self.count = self.count - count;
        taken
    }

    /// The plain number that a component of the vanilla namespace holds.
    pub fn get_integer(&self, path: &str) -> (value: Option<i32>)
        ensures
            value == integer_of(self@.component(vanilla_id(path@))),
    {
        self.get_number(path, ComponentKind::Integer)
    }

    /// The number of some type that a component of the vanilla namespace holds.
    pub fn get_number(&self, path: &str, kind: ComponentKind) -> (value: Option<i32>)
        ensures
            value == number_of(self@.component(vanilla_id(path@)), kind),
    {
        let key = Identifier::vanilla(path);
        match self.get_raw(&key) {
            Some(data) => data.as_number(kind),
            None => None,
        }
    }

    /// Sets a component of the vanilla namespace.
    pub fn set(&mut self, path: &str, data: ComponentData)
        ensures
            final(self)@ == old(self)@.with(vanilla_id(path@), data@),
    {
        self.patch.set_component_data(Identifier::vanilla(path), data);
    }

    /// The most items that one stack of this kind holds.
    pub fn max_stack_size(&self) -> (size: i32)
        ensures
            size == self@.max_stack_size(),
    {
        match self.get_integer("max_stack_size") {
            Some(size) => if size > 1 {
                size
            } else {
                1
            },
            None => 1,
        }
    }

    /// Whether two stacks differ in nothing but their counts.
    pub fn is_same_item_same_components(&self, other: &ItemStack) -> (same: bool)
        ensures
            same == self@.same_kind(other@),
    {
        self.item.key.same(&other.item.key) && self.patch.same(&other.patch)
    }
}

} // verus!
