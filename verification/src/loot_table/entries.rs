//! Loot tables, their pools and the entries that items are drawn from.
use vstd::prelude::*;

use crate::ident::{Id, Identifier};
use crate::item_stack::Item;
use crate::keyed::{Keyed, Tag};
use crate::loot_table::conditions::LootCondition;
use crate::loot_table::functions::ConditionalLootFunction;
use crate::loot_table::number::NumberProvider;
use crate::random::{Random, UNIT_STEPS};

verus! {

/// A loot table entry that can generate items.
#[allow(inconsistent_fields)]
#[derive(Debug)]
pub enum LootEntry {
    /// Drop a specific item.
    Item {
        name: Identifier,
        weight: i32,
        quality: i32,
        conditions: Vec<LootCondition>,
        functions: Vec<ConditionalLootFunction>,
    },
    /// Another loot table by name.
    LootTableRef {
        name: Identifier,
        weight: i32,
        quality: i32,
        conditions: Vec<LootCondition>,
        functions: Vec<ConditionalLootFunction>,
    },
    /// Pools of an inline loot table.
    InlineLootTable {
        pools: Vec<LootPool>,
        weight: i32,
        quality: i32,
        conditions: Vec<LootCondition>,
        functions: Vec<ConditionalLootFunction>,
    },
    /// Drop items from a tag: one at random with `expand`, else all of them.
    Tag {
        name: Identifier,
        expand: bool,
        weight: i32,
        quality: i32,
        conditions: Vec<LootCondition>,
        functions: Vec<ConditionalLootFunction>,
    },
    /// Try children in order, use the first that yields items.
    Alternatives { children: Vec<LootEntry>, conditions: Vec<LootCondition> },
    /// Use all children.
    Group { children: Vec<LootEntry>, conditions: Vec<LootCondition> },
    /// Use children in sequence until one fails its conditions.
    Sequence { children: Vec<LootEntry>, conditions: Vec<LootCondition> },
    /// No drop.
    Empty { weight: i32, conditions: Vec<LootCondition> },
    /// Dynamic content (e.g. block entity contents).
    Dynamic { name: Identifier, conditions: Vec<LootCondition> },
    /// Items from specific block entity slots.
    Slots {
        slots: SlotRange,
        conditions: Vec<LootCondition>,
        functions: Vec<ConditionalLootFunction>,
    },
}

/// A range of slots.
#[derive(Debug)]
pub enum SlotRange {
    /// A single specific slot index.
    Single(i32),
    /// A range of slots (inclusive).
    Range { min: i32, max: i32 },
    /// All contents slots.
    Contents,
    /// Specific named slots (for entities).
    Named(Vec<String>),
}

/// A pool of loot entries with roll counts.
#[derive(Debug)]
pub struct LootPool {
    pub rolls: NumberProvider,
    /// Rolls for each point of luck, as a numerator over `UNIT_STEPS`.
    pub bonus_rolls: i64,
    pub entries: Vec<LootEntry>,
    pub conditions: Vec<LootCondition>,
    pub functions: Vec<ConditionalLootFunction>,
}

/// What a loot table is for.
#[derive(Debug, Clone, Copy, PartialEq, Eq, Structural)]
pub enum LootType {
    Empty,
    Chest,
    Block,
    Entity,
    Fishing,
    Gift,
    Archaeology,
    Generic,
}

/// A complete loot table definition.
#[derive(Debug)]
pub struct LootTable {
    pub key: Identifier,
    pub loot_type: LootType,
    pub pools: Vec<LootPool>,
    pub functions: Vec<ConditionalLootFunction>,
    pub random_sequence: Option<Identifier>,
}

impl Keyed for LootTable {
    open spec fn id(&self) -> Id {
        self.key@
    }

    fn key(&self) -> (key: &Identifier) {
        &self.key
    }
}

/// The whole part of the product of two numbers that are held by their numerators
/// over `UNIT_STEPS`, kept to the range of `i32`.
pub open spec fn whole_product(a: int, b: int) -> int {
    crate::loot_table::conditions::clamped(a * b / (UNIT_STEPS * UNIT_STEPS))
}

impl LootEntry {
    pub open spec fn spec_weight(self) -> i32 {
        match self {
            LootEntry::Item { weight, .. } => weight,
            LootEntry::LootTableRef { weight, .. } => weight,
            LootEntry::InlineLootTable { weight, .. } => weight,
            LootEntry::Tag { weight, .. } => weight,
            LootEntry::Empty { weight, .. } => weight,
            _ => 1,
        }
    }

    pub open spec fn spec_quality(self) -> i32 {
        match self {
            LootEntry::Item { quality, .. } => quality,
            LootEntry::LootTableRef { quality, .. } => quality,
            LootEntry::InlineLootTable { quality, .. } => quality,
            LootEntry::Tag { quality, .. } => quality,
            _ => 0,
        }
    }

    /// `floor(weight + quality * luck)`, but never negative and kept to the range of
    /// `i32`.
    pub open spec fn spec_effective_weight(self, luck: int) -> int {
        let weight = self.spec_weight() + self.spec_quality() * luck / (UNIT_STEPS as int);
        if weight < 0 {
            0
        } else if weight > i32::MAX {
            i32::MAX as int
        } else {
            weight
        }
    }

    pub open spec fn spec_conditions(self) -> Seq<LootCondition> {
        match self {
            LootEntry::Item { conditions, .. } => conditions@,
            LootEntry::LootTableRef { conditions, .. } => conditions@,
            LootEntry::InlineLootTable { conditions, .. } => conditions@,
            LootEntry::Tag { conditions, .. } => conditions@,
            LootEntry::Alternatives { conditions, .. } => conditions@,
            LootEntry::Group { conditions, .. } => conditions@,
            LootEntry::Sequence { conditions, .. } => conditions@,
            LootEntry::Empty { conditions, .. } => conditions@,
            LootEntry::Dynamic { conditions, .. } => conditions@,
            LootEntry::Slots { conditions, .. } => conditions@,
        }
    }

    pub open spec fn spec_functions(self) -> Seq<ConditionalLootFunction> {
        match self {
            LootEntry::Item { functions, .. } => functions@,
            LootEntry::LootTableRef { functions, .. } => functions@,
            LootEntry::InlineLootTable { functions, .. } => functions@,
            LootEntry::Tag { functions, .. } => functions@,
            LootEntry::Slots { functions, .. } => functions@,
            _ => Seq::empty(),
        }
    }

    /// Get the weight of this entry for random selection.
    pub fn weight(&self) -> (weight: i32)
        ensures
            weight == self.spec_weight(),
    {
        match self {
            LootEntry::Item { weight, .. } => *weight,
            LootEntry::LootTableRef { weight, .. } => *weight,
            LootEntry::InlineLootTable { weight, .. } => *weight,
            LootEntry::Tag { weight, .. } => *weight,
            LootEntry::Empty { weight, .. } => *weight,
            _ => 1,
        }
    }

    /// Get the quality modifier for luck-based weight adjustment.
    pub fn quality(&self) -> (quality: i32)
        ensures
            quality == self.spec_quality(),
    {
        match self {
            LootEntry::Item { quality, .. } => *quality,
            LootEntry::LootTableRef { quality, .. } => *quality,
            LootEntry::InlineLootTable { quality, .. } => *quality,
            LootEntry::Tag { quality, .. } => *quality,
            _ => 0,
        }
    }

    /// Get the effective weight adjusted for luck, a numerator over `UNIT_STEPS`.
    pub fn effective_weight(&self, luck: i64) -> (weight: i32)
        ensures
            weight == self.spec_effective_weight(luck as int),
            weight >= 0,
    {
        let quality: i32 = self.quality();
        assert(-0x8000_0000 * 0x8000_0000_0000_0000 <= quality * luck <= 0x8000_0000
            * 0x8000_0000_0000_0000) by (nonlinear_arith)
            requires
                -0x8000_0000 <= quality <= 0x7fff_ffff,
                -0x8000_0000_0000_0000 <= luck <= 0x7fff_ffff_ffff_ffff,
        ;
        let product: i128 = quality as i128 * luck as i128;
        let weight: i128 = self.weight() as i128 + floor_div(product, UNIT_STEPS as i128);
        if weight < 0 {
            0
        } else if weight > i32::MAX as i128 {
            i32::MAX
        } else {
            weight as i32
        }
    }

    /// Get the conditions for this entry.
    pub fn conditions(&self) -> (conditions: &Vec<LootCondition>)
        ensures
            conditions@ == self.spec_conditions(),
    {
        match self {
            LootEntry::Item { conditions, .. } => conditions,
            LootEntry::LootTableRef { conditions, .. } => conditions,
            LootEntry::InlineLootTable { conditions, .. } => conditions,
            LootEntry::Tag { conditions, .. } => conditions,
            LootEntry::Alternatives { conditions, .. } => conditions,
            LootEntry::Group { conditions, .. } => conditions,
            LootEntry::Sequence { conditions, .. } => conditions,
            LootEntry::Empty { conditions, .. } => conditions,
            LootEntry::Dynamic { conditions, .. } => conditions,
            LootEntry::Slots { conditions, .. } => conditions,
        }
    }

    /// Get the functions for this entry, where its kind has any.
    pub fn functions(&self) -> (functions: Option<&Vec<ConditionalLootFunction>>)
        ensures
            match functions {
                Some(functions) => functions@ == self.spec_functions(),
                None => self.spec_functions().len() == 0,
            },
    {
        match self {
            LootEntry::Item { functions, .. } => Some(functions),
            LootEntry::LootTableRef { functions, .. } => Some(functions),
            LootEntry::InlineLootTable { functions, .. } => Some(functions),
            LootEntry::Tag { functions, .. } => Some(functions),
            LootEntry::Slots { functions, .. } => Some(functions),
            _ => None,
        }
    }
}

/// Division that rounds down.
pub fn floor_div(value: i128, divisor: i128) -> (quotient: i128)
    requires
        divisor > 0,
        value > i128::MIN,
    ensures
        quotient == value as int / (divisor as int),
{
    let ghost quotient = value as int / (divisor as int);
    assert(i128::MIN <= quotient <= i128::MAX) by (nonlinear_arith)
        requires
            divisor > 0,
            quotient == value as int / (divisor as int),
            i128::MIN <= value <= i128::MAX,
    ;
    match value.checked_div_euclid(divisor) {
        Some(quotient) => quotient,
        None => 0,
    }
}

} // verus!
