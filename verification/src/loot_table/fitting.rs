//! Checks that the numbers in loot tables can be drawn.
use vstd::prelude::*;

use crate::ident::Identifier;
use crate::loot_table::conditions::{sound_conditions, LootCondition};
use crate::loot_table::enchanting::MAX_LEVEL;
use crate::loot_table::entries::{LootEntry, LootPool, LootTable};
use crate::loot_table::functions::{
    sound_functions, BonusFormula, ConditionalLootFunction, LootFunction, StewEffect,
};
use crate::loot_table::generation::weight_sum;
use crate::loot_table::number::{round, NumberProvider, NumberProviderRange};
use crate::loot_table::requirements::{
    entries_fit, entry_fits, pool_fits, pools_fit, registry_fits, table_fits,
};
use crate::registry::Registry;

verus! {

/// Whether an integer can be drawn from the range of a number.
fn number_is_sound(number: &NumberProvider) -> (sound: bool)
    ensures
        sound == number.sound(),
{
    match number {
        NumberProvider::Uniform { min, max } => round(*max as i128) as i64 - (round(
            *min as i128,
        ) as i64) < i32::MAX as i64,
        _ => true,
    }
}

fn range_is_sound(range: &NumberProviderRange) -> (sound: bool)
    ensures
        sound == range.sound(),
{
    let min = match &range.min {
        Some(min) => number_is_sound(min),
        None => true,
    };
    let max = match &range.max {
        Some(max) => number_is_sound(max),
        None => true,
    };
    min && max
}

/// Whether all the numbers in a condition can be drawn.
fn condition_is_sound(condition: &LootCondition) -> (sound: bool)
    ensures
        sound == condition.sound(),
    decreases condition, 0nat,
{
    match condition {
        LootCondition::Inverted(inner) => condition_is_sound(inner),
        LootCondition::AnyOf(children) => conditions_are_sound(children),
        LootCondition::AllOf(children) => conditions_are_sound(children),
        LootCondition::TimeCheck { value, .. } => range_is_sound(value),
        LootCondition::ValueCheck { value, range } => number_is_sound(value) && range_is_sound(
            range,
        ),
        _ => true,
    }
}

fn conditions_are_sound(conditions: &Vec<LootCondition>) -> (sound: bool)
    ensures
        sound == sound_conditions(conditions@),
    decreases conditions, 1nat,
{
    let mut i: usize = 0;
    while i < conditions.len()
        invariant
            i <= conditions@.len(),
            forall|j: int| 0 <= j < i ==> (#[trigger] conditions@[j]).sound(),
        decreases conditions@.len() - i,
    {
        assert(decreases_to!(conditions => conditions@[i as int]));
        if !condition_is_sound(&conditions[i]) {
            assert(!conditions@[i as int].sound());
            return false;
        }
        i = i + 1;
    }
    true
}

/// Whether the draws of a formula are from ranges that exist, at every level.
fn formula_is_sound(formula: &BonusFormula) -> (sound: bool)
    ensures
        sound == formula.sound(),
{
    match formula {
        BonusFormula::OreDrops => true,
        BonusFormula::UniformBonusCount { bonus_multiplier } => {
            let multiplier: i32 = *bonus_multiplier;
            let level: i32 = MAX_LEVEL;
            assert(-0x8000_0000 * 255 <= multiplier * level <= 0x8000_0000 * 255)
                by (nonlinear_arith)
                requires
                    level == 255,
                    -0x8000_0000 <= multiplier <= 0x7fff_ffff,
            ;
            0 <= multiplier && (multiplier as i64 * level as i64) < i32::MAX as i64
        },
        BonusFormula::BinomialWithBonusCount { extra, .. } => *extra as i64 + MAX_LEVEL as i64
            <= i32::MAX as i64,
    }
}

fn effects_are_sound(effects: &Vec<StewEffect>) -> (sound: bool)
    ensures
        sound == forall|i: int|
            0 <= i < effects@.len() ==> (#[trigger] effects@[i]).duration.sound(),
{
    let mut i: usize = 0;
    while i < effects.len()
        invariant
            i <= effects@.len(),
            forall|j: int| 0 <= j < i ==> (#[trigger] effects@[j]).duration.sound(),
        decreases effects@.len() - i,
    {
        if !number_is_sound(&effects[i].duration) {
            assert(!effects@[i as int].duration.sound());
            return false;
        }
        i = i + 1;
    }
    true
}

fn levels_are_sound(levels: &Vec<(Identifier, NumberProvider)>) -> (sound: bool)
    ensures
        sound == forall|i: int| 0 <= i < levels@.len() ==> (#[trigger] levels@[i]).1.sound(),
{
    let mut i: usize = 0;
    while i < levels.len()
        invariant
            i <= levels@.len(),
            forall|j: int| 0 <= j < i ==> (#[trigger] levels@[j]).1.sound(),
        decreases levels@.len() - i,
    {
        if !number_is_sound(&levels[i].1) {
            assert(!levels@[i as int].1.sound());
            return false;
        }
        i = i + 1;
    }
    true
}

/// Whether all the numbers in a function can be drawn.
fn function_is_sound(function: &LootFunction) -> (sound: bool)
    ensures
        sound == function.sound(),
    decreases function, 0nat,
{
    match function {
        LootFunction::SetCount { count, .. } => number_is_sound(count),
        LootFunction::ApplyBonus { formula, .. } => formula_is_sound(formula),
        LootFunction::EnchantWithLevels { levels, .. } => number_is_sound(levels),
        LootFunction::SetOminousBottleAmplifier { amplifier } => number_is_sound(amplifier),
        LootFunction::SetStewEffect { effects } => effects_are_sound(effects),
        LootFunction::SetEnchantments { enchantments, .. } => levels_are_sound(enchantments),
        LootFunction::Sequence { functions } => functions_are_sound(functions),
        LootFunction::Filtered { modifier, .. } => conditions_are_sound(&modifier.conditions)
            && function_is_sound(&modifier.function),
        _ => true,
    }
}

fn functions_are_sound(functions: &Vec<ConditionalLootFunction>) -> (sound: bool)
    ensures
        sound == sound_functions(functions@),
    decreases functions, 1nat,
{
    let mut i: usize = 0;
    while i < functions.len()
        invariant
            i <= functions@.len(),
            forall|j: int|
                0 <= j < i ==> sound_conditions((#[trigger] functions@[j]).conditions@)
                    && functions@[j].function.sound(),
        decreases functions@.len() - i,
    {
        let entry = &functions[i];
        assert(entry == functions@[i as int]);
        assert(decreases_to!(functions => functions@[i as int]));
        if !conditions_are_sound(&entry.conditions) || !function_is_sound(&entry.function) {
            return false;
        }
        i = i + 1;
    }
    true
}

/// Whether the effective weights of entries add up to what fits.
fn weights_fit(entries: &Vec<LootEntry>, luck: i64) -> (fit: bool)
    ensures
        fit == (weight_sum(entries@, luck as int) <= i32::MAX),
{
    let mut sum: i32 = 0;
    let mut i: usize = 0;
    assert(entries@.take(0) =~= Seq::empty());
    while i < entries.len()
        invariant
            i <= entries@.len(),
            sum >= 0,
            sum == weight_sum(entries@.take(i as int), luck as int),
        decreases entries@.len() - i,
    {
        assert(entries@.take(i + 1).drop_last() =~= entries@.take(i as int));
        let weight: i32 = entries[i].effective_weight(luck);
        match sum.checked_add(weight) {
            Some(more) => {
                sum = more;
            },
            None => {
                proof {
                    lemma_weights_grow(entries@, luck as int, i + 1);
                }
                return false;
            },
        }
        i = i + 1;
    }
    assert(entries@.take(i as int) =~= entries@);
    true
}

proof fn lemma_weights_grow(entries: Seq<LootEntry>, luck: int, to: int)
    requires
        0 <= to <= entries.len(),
    ensures
        weight_sum(entries.take(to), luck) <= weight_sum(entries, luck),
    decreases entries.len() - to,
{
    if to < entries.len() {
        lemma_weights_grow(entries, luck, to + 1);
        assert(entries.take(to + 1).drop_last() =~= entries.take(to));
    } else {
        assert(entries.take(to) =~= entries);
    }
}

fn check_pools(pools: &Vec<LootPool>, luck: i64) -> (fit: bool)
    ensures
        fit == pools_fit(pools@, luck as int),
    decreases pools, 1nat,
{
    let mut i: usize = 0;
    while i < pools.len()
        invariant
            i <= pools@.len(),
            forall|j: int| 0 <= j < i ==> pool_fits(#[trigger] pools@[j], luck as int),
        decreases pools@.len() - i,
    {
        assert(decreases_to!(pools => pools@[i as int]));
        if !check_pool(&pools[i], luck) {
            assert(!pool_fits(pools@[i as int], luck as int));
            return false;
        }
        i = i + 1;
    }
    true
}

fn check_pool(pool: &LootPool, luck: i64) -> (fits: bool)
    ensures
        fits == pool_fits(*pool, luck as int),
    decreases pool, 0nat,
{
    conditions_are_sound(&pool.conditions) && number_is_sound(&pool.rolls) && functions_are_sound(
        &pool.functions,
    ) && weights_fit(&pool.entries, luck) && check_entries(&pool.entries, luck)
}

fn check_entries(entries: &Vec<LootEntry>, luck: i64) -> (fit: bool)
    ensures
        fit == entries_fit(entries@, luck as int),
    decreases entries, 1nat,
{
    let mut i: usize = 0;
    while i < entries.len()
        invariant
            i <= entries@.len(),
            forall|j: int| 0 <= j < i ==> entry_fits(#[trigger] entries@[j], luck as int),
        decreases entries@.len() - i,
    {
        assert(decreases_to!(entries => entries@[i as int]));
        if !check_entry(&entries[i], luck) {
            assert(!entry_fits(entries@[i as int], luck as int));
            return false;
        }
        i = i + 1;
    }
    true
}

fn check_entry(entry: &LootEntry, luck: i64) -> (fits: bool)
    ensures
        fits == entry_fits(*entry, luck as int),
    decreases entry, 0nat,
{
    let functions = match entry.functions() {
        Some(functions) => functions_are_sound(functions),
        None => true,
    };
    if !functions || !conditions_are_sound(entry.conditions()) {
        return false;
    }
    match entry {
        LootEntry::InlineLootTable { pools, .. } => check_pools(pools, luck),
        LootEntry::Alternatives { children, .. } => check_entries(children, luck),
        LootEntry::Group { children, .. } => check_entries(children, luck),
        LootEntry::Sequence { children, .. } => check_entries(children, luck),
        _ => true,
    }
}

impl LootTable {
    /// Whether the numbers in the table can be drawn, and the weights of each of its
    /// pools add up to what fits.
    pub fn fits(&self, luck: i64) -> (fits: bool)
        ensures
            fits == table_fits(*self, luck as int),
    {
        functions_are_sound(&self.functions) && check_pools(&self.pools, luck)
    }
}

impl Registry {
    /// Whether all the registered loot tables can be evaluated with some luck.
    pub fn loot_tables_fit(&self, luck: i64) -> (fit: bool)
        ensures
            fit == registry_fits(*self, luck as int),
    {
        let tables = &self.loot_tables;
        let mut i: usize = 0;
        while i < tables.len()
            invariant
                tables == &self.loot_tables,
                i <= tables@.len(),
                forall|j: int| 0 <= j < i ==> table_fits(#[trigger] tables@[j], luck as int),
            decreases tables@.len() - i,
        {
            if !tables[i].fits(luck) {
                assert(!table_fits(self.loot_tables@[i as int], luck as int));
                return false;
            }
            i = i + 1;
        }
        true
    }
}

} // verus!
