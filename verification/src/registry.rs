//! The registered values that game rules look up.
use vstd::prelude::*;

use crate::data_components::DataComponentType;
use crate::ident::{Id, Identifier};
use crate::item_stack::Item;
use crate::keyed::{Keyed, Named, Tag};
use crate::loot_table::entries::LootTable;
use crate::map::packet::MapDecorationType;

verus! {

/// An enchantment: what it can be put on, how often it is chosen and what each of
/// its levels costs.
#[derive(Debug)]
pub struct Enchantment {
    pub key: Identifier,
    pub min_level: i32,
    pub max_level: i32,
    pub weight: i32,
    pub min_cost: i32,
    pub min_cost_per_level: i32,
    pub max_cost: i32,
    pub max_cost_per_level: i32,
    pub supported_items: Vec<Identifier>,
    pub exclusive_with: Vec<Identifier>,
}

impl Keyed for Enchantment {
    open spec fn id(&self) -> Id {
        self.key@
    }

    fn key(&self) -> (key: &Identifier) {
        &self.key
    }
}

/// A status effect.
#[derive(Debug)]
pub struct MobEffect {
    pub key: Identifier,
    /// Whether the effect acts at once instead of over a time.
    pub instantaneous: bool,
}

impl Keyed for MobEffect {
    open spec fn id(&self) -> Id {
        self.key@
    }

    fn key(&self) -> (key: &Identifier) {
        &self.key
    }
}

/// What an item becomes in a furnace, and how many ticks that takes.
#[derive(Debug)]
pub struct Smelting {
    pub recipe: Identifier,
    pub input: Identifier,
    pub output: Identifier,
    pub count: i32,
    pub cooking_time: i32,
}

impl Keyed for Smelting {
    open spec fn id(&self) -> Id {
        self.input@
    }

    fn key(&self) -> (key: &Identifier) {
        &self.input
    }
}

/// What is left of an item that was used up.
#[derive(Debug)]
pub struct CraftingRemainder {
    pub item: Identifier,
    pub remainder: Identifier,
}

impl Keyed for CraftingRemainder {
    open spec fn id(&self) -> Id {
        self.item@
    }

    fn key(&self) -> (key: &Identifier) {
        &self.item
    }
}

/// All registered values.
#[derive(Debug)]
pub struct Registry {
    pub items: Vec<Item>,
    pub item_tags: Vec<Tag>,
    pub enchantments: Vec<Enchantment>,
    pub enchantment_tags: Vec<Tag>,
    pub instruments: Vec<Named>,
    pub instrument_tags: Vec<Tag>,
    pub structure_tags: Vec<Tag>,
    pub map_decoration_types: Vec<MapDecorationType>,
    pub potions: Vec<Named>,
    pub mob_effects: Vec<MobEffect>,
    pub biome_tags: Vec<Tag>,
    pub block_tags: Vec<Tag>,
    pub component_types: Vec<DataComponentType>,
    pub smelting: Vec<Smelting>,
    pub crafting_remainders: Vec<CraftingRemainder>,
    pub loot_tables: Vec<LootTable>,
}

} // verus!
