//! Slots with furnace placement and result-taking behavior.
use vstd::prelude::*;

use crate::block_entity::fuel_values::FuelValues;
use crate::block_entity::furnace::{uses_of, Furnace, FurnaceContainer};
use crate::ident::{vanilla_id, Id, Identifier};
use crate::item_stack::ItemStack;

verus! {

/// Furnace fuel slot, with a limit of one empty bucket.
#[derive(Clone, Copy, Debug, PartialEq, Eq, Structural)]
pub struct FurnaceFuelSlot {
    pub index: usize,
}

impl FurnaceFuelSlot {
    /// Creates a fuel slot over `index` in a container.
    pub fn new(index: usize) -> (slot: Self)
        ensures
            slot.index == index,
    {
        FurnaceFuelSlot { index }
    }

    /// Whether a stack may be put here: fuel, or a bucket.
    pub fn may_place(&self, stack: &ItemStack, fuels: &FuelValues) -> (placeable: bool)
        ensures
            placeable == (fuels.stack_time(stack@) > 0 || stack@.item == vanilla_id("bucket"@)),
    {
        fuels.is_fuel(stack) || stack.is("bucket")
    }

    /// The most items of a stack that fit here, where an ordinary slot holds
    /// `slot_limit`: one bucket.
    pub fn get_max_stack_size_for_item(&self, stack: &ItemStack, slot_limit: i32) -> (size: i32)
        ensures
            size == if stack@.item == vanilla_id("bucket"@) {
                1
            } else {
                slot_limit
            },
    {
        if stack.is("bucket") {
            1
        } else {
            slot_limit
        }
    }

    pub fn get_container_slot(&self) -> (index: usize)
        ensures
            index == self.index,
    {
        self.index
    }
}

/// Furnace output slot that pays accumulated recipe experience when taken.
#[derive(Clone, Copy, Debug, PartialEq, Eq, Structural)]
pub struct FurnaceResultSlot {
    pub index: usize,
}

impl FurnaceResultSlot {
    /// Creates a result slot over `index` in a container.
    pub fn new(index: usize) -> (slot: Self)
        ensures
            slot.index == index,
    {
        FurnaceResultSlot { index }
    }

    /// Nothing may be put here.
    pub fn may_place(&self, _stack: &ItemStack) -> (placeable: bool)
        ensures
            !placeable,
    {
        false
    }

    /// Takes the uses of recipes away, which are paid for with experience.
    pub fn on_take(&self, furnace: &mut FurnaceContainer) -> (recipes: Vec<(Identifier, i32)>)
        requires
            old(furnace).wf(),
        ensures
            final(furnace).wf(),
            uses_of(recipes@) == old(furnace)@.recipes_used,
            final(furnace)@ == (Furnace {
                recipes_used: Seq::<(Id, i32)>::empty(),
                ..old(furnace)@
            }),
    {
        furnace.take_recipes_used()
    }

    pub fn get_container_slot(&self) -> (index: usize)
        ensures
            index == self.index,
    {
        self.index
    }
}

} // verus!
