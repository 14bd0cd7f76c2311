//! What a loot table needs before it can be evaluated.
use rustc_hash::FxHashSet;
use vstd::prelude::*;

use crate::ident::{Id, Identifier};
use crate::keyed::{by_key, find, lemma_find, Keyed};
use crate::loot_table::conditions::{sound_conditions, BlockPredicate, LootCondition};
use crate::loot_table::entries::{LootEntry, LootPool, LootTable};
use crate::loot_table::error::{ExplorationMapRequest, LootError, LootResult};
use crate::loot_table::functions::{
    sound_functions, ConditionalLootFunction, CopySource, EnchantmentOptions, InstrumentOptions,
    LootFunction, StewEffect,
};
use crate::loot_table::generation::{
    entries_ready, entry_ready, pool_ready, pools_ready, table_ready, weight_sum,
};
use crate::loot_table::number::{NumberProvider, NumberProviderRange};
use crate::registry::Registry;

verus! {

/// The identifiers in a hash set.
pub uninterp spec fn ids_in(ids: FxHashSet<Identifier>) -> Set<Id>;

/// `FxHashSet::default`: a set without identifiers.
#[verifier::external_body]
fn no_ids() -> (ids: FxHashSet<Identifier>)
    ensures
        ids_in(ids) =~= Set::empty(),
{
    FxHashSet::default()
}

/// `FxHashSet::insert`: adds an identifier, and tells whether it was new.
/// Identifiers are the same where both their parts are.
#[verifier::external_body]
fn insert_id(ids: &mut FxHashSet<Identifier>, key: Identifier) -> (new: bool)
    ensures
        new == !ids_in(*old(ids)).contains(key@),
        ids_in(*final(ids)) == ids_in(*old(ids)).insert(key@),
{
    ids.insert(key)
}

/// `FxHashSet::remove`: takes an identifier out.
#[verifier::external_body]
fn remove_id(ids: &mut FxHashSet<Identifier>, key: &Identifier)
    ensures
        ids_in(*final(ids)) == ids_in(*old(ids)).remove(key@),
{
    ids.remove(key);
}

/// World work that must be resolved before a loot table can be evaluated.
#[derive(Debug)]
pub struct LootRequirements {
    exploration_maps: Vec<ExplorationMapRequest>,
}

/// Requests with one more, where none of them asks for the same.
pub open spec fn with_request(
    requests: Seq<ExplorationMapRequest>,
    request: ExplorationMapRequest,
) -> Seq<ExplorationMapRequest> {
    if exists|i: int| 0 <= i < requests.len() && (#[trigger] requests[i]).same_as(request) {
        requests
    } else {
        requests.push(request)
    }
}

/// No two requests ask for the same.
pub open spec fn distinct_requests(requests: Seq<ExplorationMapRequest>) -> bool {
    forall|i: int, j: int|
        0 <= i < j < requests.len() ==> !(#[trigger] requests[i]).same_as(#[trigger] requests[j])
}

impl LootRequirements {
    /// The lookups of exploration maps.
    pub closed spec fn requests(self) -> Seq<ExplorationMapRequest> {
        self.exploration_maps@
    }

    fn new() -> (requirements: Self)
        ensures
            requirements.requests() == Seq::<ExplorationMapRequest>::empty(),
    {
        LootRequirements { exploration_maps: Vec::new() }
    }

    pub fn exploration_maps(&self) -> (requests: &Vec<ExplorationMapRequest>)
        ensures
            requests@ == self.requests(),
    {
        &self.exploration_maps
    }

    fn add_exploration_map(&mut self, request: ExplorationMapRequest)
        ensures
            final(self).requests() == with_request(old(self).requests(), request),
            distinct_requests(old(self).requests()) ==> distinct_requests(final(self).requests()),
    {
        let mut i: usize = 0;
        while i < self.exploration_maps.len()
            invariant
                i <= self.exploration_maps.len(),
                *self == *old(self),
                forall|j: int|
                    0 <= j < i ==> !(#[trigger] self.exploration_maps@[j]).same_as(request),
            decreases self.exploration_maps.len() - i,
        {
            if self.exploration_maps[i].same(&request) {
                return;
            }
            i = i + 1;
        }
        self.exploration_maps.push(request);
    }
}

/// Whether a number can be provided.
pub open spec fn checked_number(provider: NumberProvider) -> LootResult<()> {
    match provider {
        NumberProvider::Score { .. } => Err(LootError::UnsupportedNumberProvider("score")),
        NumberProvider::Storage { .. } => Err(LootError::UnsupportedNumberProvider("storage")),
        _ => Ok(()),
    }
}

pub open spec fn checked_range(range: NumberProviderRange) -> LootResult<()> {
    let low = match range.min {
        Some(min) => checked_number(min),
        None => Ok(()),
    };
    match low {
        Ok(()) => match range.max {
            Some(max) => checked_number(max),
            None => Ok(()),
        },
        Err(error) => Err(error),
    }
}

/// Whether conditions can be tested: the first failure of one of them.
pub open spec fn checked_conditions(
    conditions: Seq<LootCondition>,
    registry: Registry,
) -> LootResult<()>
    decreases conditions,
{
    if conditions.len() == 0 {
        Ok(())
    } else {
        match checked_condition(conditions[0], registry) {
            Ok(()) => checked_conditions(conditions.drop_first(), registry),
            Err(error) => Err(error),
        }
    }
}

pub open spec fn checked_condition(condition: LootCondition, registry: Registry) -> LootResult<()>
    decreases condition,
{
    match condition {
        LootCondition::Inverted(inner) => checked_condition(*inner, registry),
        LootCondition::AnyOf(children) => checked_conditions(children@, registry),
        LootCondition::AllOf(children) => checked_conditions(children@, registry),
        LootCondition::LocationCheck { predicate, .. } => {
            let biomes = match predicate.biomes {
                Some(biomes) => biomes.failure(registry.biome_tags@, "biome"),
                None => Ok(()),
            };
            match biomes {
                Ok(()) => match predicate.block {
                    Some(BlockPredicate { blocks: Some(blocks), .. }) => blocks.failure(
                        registry.block_tags@,
                        "block",
                    ),
                    _ => Ok(()),
                },
                Err(error) => Err(error),
            }
        },
        LootCondition::TimeCheck { value, .. } => checked_range(value),
        LootCondition::ValueCheck { value, range } => match checked_number(value) {
            Ok(()) => checked_range(range),
            Err(error) => Err(error),
        },
        LootCondition::EntityScores { .. } => Err(
            LootError::UnsupportedCondition("entity_scores"),
        ),
        LootCondition::Reference(_) => Err(LootError::UnsupportedCondition("reference")),
        _ => Ok(()),
    }
}

/// Whether a registry holds a value.
pub open spec fn checked_value<T: Keyed>(
    values: Seq<T>,
    registry: &'static str,
    key: Identifier,
) -> LootResult<()> {
    if find(values, key@) is Some {
        Ok(())
    } else {
        Err(LootError::UnknownRegistryValue { registry, key })
    }
}

/// Whether a registry holds a tag.
pub open spec fn checked_tag<T: Keyed>(
    tags: Seq<T>,
    registry: &'static str,
    key: Identifier,
) -> LootResult<()> {
    if find(tags, key@) is Some {
        Ok(())
    } else {
        Err(LootError::UnknownRegistryTag { registry, key })
    }
}

pub open spec fn checked_stew(effects: Seq<StewEffect>, registry: Registry) -> LootResult<()>
    decreases effects.len(),
{
    if effects.len() == 0 {
        Ok(())
    } else {
        match checked_value(registry.mob_effects@, "mob effect", effects[0].effect_type) {
            Ok(()) => match checked_number(effects[0].duration) {
                Ok(()) => checked_stew(effects.drop_first(), registry),
                Err(error) => Err(error),
            },
            Err(error) => Err(error),
        }
    }
}

pub open spec fn checked_levels(
    enchantments: Seq<(Identifier, NumberProvider)>,
    registry: Registry,
) -> LootResult<()>
    decreases enchantments.len(),
{
    if enchantments.len() == 0 {
        Ok(())
    } else {
        match checked_value(registry.enchantments@, "enchantment", enchantments[0].0) {
            Ok(()) => match checked_number(enchantments[0].1) {
                Ok(()) => checked_levels(enchantments.drop_first(), registry),
                Err(error) => Err(error),
            },
            Err(error) => Err(error),
        }
    }
}

pub open spec fn checked_options(options: EnchantmentOptions, registry: Registry) -> LootResult<
    (),
> {
    match options.resolved(&registry) {
        Ok(_) => Ok(()),
        Err(error) => Err(error),
    }
}

/// The result of checking a function, and the requests after it. A function that fails
/// adds no request of its own.
pub open spec fn checked_function(
    function: LootFunction,
    registry: Registry,
    requests: Seq<ExplorationMapRequest>,
) -> (LootResult<()>, Seq<ExplorationMapRequest>)
    decreases function,
{
    match function {
        LootFunction::SetCount { count, .. } => (checked_number(count), requests),
        LootFunction::EnchantedCountIncrease { count, .. } => (
            checked_number(count),
            requests,
        ),
        LootFunction::SetDamage { damage, .. } => (checked_number(damage), requests),
        LootFunction::EnchantRandomly { options } => (
            checked_options(options, registry),
            requests,
        ),
        LootFunction::EnchantWithLevels { levels, options } => match checked_number(levels) {
            Ok(()) => (checked_options(options, registry), requests),
            failed => (failed, requests),
        },
        LootFunction::ExplorationMap {
            destination,
            decoration,
            zoom,
            search_radius,
            skip_existing_chunks,
        } => if zoom < i8::MIN || zoom > i8::MAX {
            (Err(LootError::InvalidExplorationMapZoom(zoom)), requests)
        } else {
            match checked_tag(registry.structure_tags@, "structure", destination) {
                Ok(()) => match checked_value(
                    registry.map_decoration_types@,
                    "map decoration type",
                    decoration,
                ) {
                    Ok(()) => (
                        Ok(()),
                        with_request(
                            requests,
                            ExplorationMapRequest {
                                destination,
                                decoration,
                                zoom,
                                search_radius,
                                skip_existing_chunks,
                            },
                        ),
                    ),
                    failed => (failed, requests),
                },
                failed => (failed, requests),
            }
        },
        LootFunction::SetOminousBottleAmplifier { amplifier } => (
            checked_number(amplifier),
            requests,
        ),
        LootFunction::SetPotion { id } => (
            checked_value(registry.potions@, "potion", id),
            requests,
        ),
        LootFunction::SetStewEffect { effects } => (
            checked_stew(effects@, registry),
            requests,
        ),
        LootFunction::SetInstrument { options } => match options {
            InstrumentOptions::Tag(tag) => (
                checked_tag(registry.instrument_tags@, "instrument", tag),
                requests,
            ),
            InstrumentOptions::Direct(_) => (Ok(()), requests),
        },
        LootFunction::SetEnchantments { enchantments, .. } => (
            checked_levels(enchantments@, registry),
            requests,
        ),
        LootFunction::SetItem { item } => (
            checked_value(registry.items@, "item", item),
            requests,
        ),
        LootFunction::Sequence { functions } => checked_functions(
            functions@,
            registry,
            requests,
        ),
        LootFunction::Filtered { modifier, .. } => match checked_conditions(
            modifier.conditions@,
            registry,
        ) {
            Ok(()) => checked_function(modifier.function, registry, requests),
            failed => (failed, requests),
        },
        LootFunction::CopyComponents { source, .. } => if source == CopySource::BlockEntity {
            (Ok(()), requests)
        } else {
            (Err(LootError::UnsupportedFunction("copy_components")), requests)
        },
        _ => match function.unsupported() {
            Some(name) => (Err(LootError::UnsupportedFunction(name)), requests),
            None => (Ok(()), requests),
        },
    }
}

/// The result of checking functions up to the first failure, and the requests after
/// them.
pub open spec fn checked_functions(
    functions: Seq<ConditionalLootFunction>,
    registry: Registry,
    requests: Seq<ExplorationMapRequest>,
) -> (LootResult<()>, Seq<ExplorationMapRequest>)
    decreases functions,
{
    if functions.len() == 0 {
        (Ok(()), requests)
    } else {
        match checked_conditions(functions[0].conditions@, registry) {
            Ok(()) => match checked_function(functions[0].function, registry, requests) {
                (Ok(()), requests) => checked_functions(functions.drop_first(), registry, requests),
                failed => failed,
            },
            failed => (failed, requests),
        }
    }
}

/// The number of tables that are not being visited.
pub open spec fn unvisited(tables: Seq<LootTable>, visiting: Set<Id>) -> nat
    decreases tables.len(),
{
    if tables.len() == 0 {
        0
    } else {
        unvisited(tables.drop_last(), visiting) + (if visiting.contains(tables.last().key@) {
            0nat
        } else {
            1
        })
    }
}

/// Visiting one more of the tables leaves fewer of them.
pub proof fn lemma_visit(tables: Seq<LootTable>, visiting: Set<Id>, table: LootTable)
    ensures
        unvisited(tables, visiting.insert(table.key@)) <= unvisited(tables, visiting),
        tables.contains(table) && !visiting.contains(table.key@) ==> unvisited(
            tables,
            visiting.insert(table.key@),
        ) < unvisited(tables, visiting),
    decreases tables.len(),
{
    if tables.len() > 0 {
        lemma_visit(tables.drop_last(), visiting, table);
        if tables.contains(table) && !visiting.contains(table.key@) && tables.last() != table {
            let i = choose|i: int| 0 <= i < tables.len() && tables[i] == table;
            assert(tables.drop_last()[i] == table);
        }
    }
}

/// The result of checking the pools of a table up to the first failure, and the requests
/// after them. The tables in `visiting` must not be visited again.
pub open spec fn checked_pools(
    pools: Seq<LootPool>,
    registry: Registry,
    requests: Seq<ExplorationMapRequest>,
    visiting: Set<Id>,
) -> (LootResult<()>, Seq<ExplorationMapRequest>)
    decreases unvisited(registry.loot_tables@, visiting), pools, 0int,
{
    if pools.len() == 0 {
        (Ok(()), requests)
    } else {
        match checked_pool(pools[0], registry, requests, visiting) {
            (Ok(()), requests) => checked_pools(pools.drop_first(), registry, requests, visiting),
            failed => failed,
        }
    }
}

pub open spec fn checked_pool(
    pool: LootPool,
    registry: Registry,
    requests: Seq<ExplorationMapRequest>,
    visiting: Set<Id>,
) -> (LootResult<()>, Seq<ExplorationMapRequest>)
    decreases unvisited(registry.loot_tables@, visiting), pool, 0int,
{
    match checked_conditions(pool.conditions@, registry) {
        Ok(()) => match checked_number(pool.rolls) {
            Ok(()) => match checked_functions(pool.functions@, registry, requests) {
                (Ok(()), requests) => checked_entries(pool.entries@, registry, requests, visiting),
                failed => failed,
            },
            failed => (failed, requests),
        },
        failed => (failed, requests),
    }
}

pub open spec fn checked_entries(
    entries: Seq<LootEntry>,
    registry: Registry,
    requests: Seq<ExplorationMapRequest>,
    visiting: Set<Id>,
) -> (LootResult<()>, Seq<ExplorationMapRequest>)
    decreases unvisited(registry.loot_tables@, visiting), entries, 0int,
{
    if entries.len() == 0 {
        (Ok(()), requests)
    } else {
        match checked_entry(entries[0], registry, requests, visiting) {
            (Ok(()), requests) => checked_entries(
                entries.drop_first(),
                registry,
                requests,
                visiting,
            ),
            failed => failed,
        }
    }
}

pub open spec fn checked_entry(
    entry: LootEntry,
    registry: Registry,
    requests: Seq<ExplorationMapRequest>,
    visiting: Set<Id>,
) -> (LootResult<()>, Seq<ExplorationMapRequest>)
    decreases unvisited(registry.loot_tables@, visiting), entry, 0int,
{
    match checked_conditions(entry.spec_conditions(), registry) {
        Ok(()) => match checked_functions(entry.spec_functions(), registry, requests) {
            (Ok(()), requests) => match entry {
                LootEntry::Item { name, .. } => (
                    checked_value(registry.items@, "item", name),
                    requests,
                ),
                LootEntry::LootTableRef { name, .. } => match find(registry.loot_tables@, name@) {
                    Some(table) => if visiting.contains(table.key@) {
                        (
                            Err(LootError::UnsupportedEntry("recursive loot-table reference")),
                            requests,
                        )
                    } else {
                        proof {
                            lemma_find(registry.loot_tables@, name@);
                            lemma_visit(registry.loot_tables@, visiting, table);
                        }
                        checked_table(table, registry, requests, visiting.insert(table.key@))
                    },
                    None => (
                        Err(LootError::UnknownRegistryValue { registry: "loot table", key: name }),
                        requests,
                    ),
                },
                LootEntry::InlineLootTable { pools, .. } => checked_pools(
                    pools@,
                    registry,
                    requests,
                    visiting,
                ),
                LootEntry::Tag { name, .. } => (
                    checked_tag(registry.item_tags@, "item", name),
                    requests,
                ),
                LootEntry::Alternatives { children, .. } => checked_entries(
                    children@,
                    registry,
                    requests,
                    visiting,
                ),
                LootEntry::Group { children, .. } => checked_entries(
                    children@,
                    registry,
                    requests,
                    visiting,
                ),
                LootEntry::Sequence { children, .. } => checked_entries(
                    children@,
                    registry,
                    requests,
                    visiting,
                ),
                LootEntry::Empty { .. } => (Ok(()), requests),
                LootEntry::Dynamic { .. } => (
                    Err(LootError::UnsupportedEntry("dynamic")),
                    requests,
                ),
                LootEntry::Slots { .. } => (Err(LootError::UnsupportedEntry("slots")), requests),
            },
            failed => failed,
        },
        failed => (failed, requests),
    }
}

/// The result of checking a table up to the first failure, and the requests after it.
/// The table itself is in `visiting`.
pub open spec fn checked_table(
    table: LootTable,
    registry: Registry,
    requests: Seq<ExplorationMapRequest>,
    visiting: Set<Id>,
) -> (LootResult<()>, Seq<ExplorationMapRequest>)
    decreases unvisited(registry.loot_tables@, visiting), table.pools@, 1int,
{
    match checked_functions(table.functions@, registry, requests) {
        (Ok(()), requests) => checked_pools(table.pools@, registry, requests, visiting),
        failed => failed,
    }
}

/// A check that came to what was expected: its result, and the requests it left. On a
/// failure these are the ones that were collected before it.
pub open spec fn meets(
    result: LootResult<()>,
    requirements: LootRequirements,
    expected: (LootResult<()>, Seq<ExplorationMapRequest>),
) -> bool {
    result == expected.0 && requirements.requests() == expected.1
}

fn validate_number_provider(provider: &NumberProvider) -> (result: LootResult<()>)
    ensures
        result == checked_number(*provider),
{
    match provider {
        NumberProvider::Score { .. } => Err(LootError::UnsupportedNumberProvider("score")),
        NumberProvider::Storage { .. } => Err(LootError::UnsupportedNumberProvider("storage")),
        _ => Ok(()),
    }
}

fn validate_range(range: &NumberProviderRange) -> (result: LootResult<()>)
    ensures
        result == checked_range(*range),
{
    if let Some(min) = &range.min {
        match validate_number_provider(min) {
            Ok(()) => {},
            Err(error) => {
                return Err(error);
            },
        }
    }
    if let Some(max) = &range.max {
        return validate_number_provider(max);
    }
    Ok(())
}

/// Checks that conditions can be tested.
pub fn validate_conditions(conditions: &Vec<LootCondition>, registry: &Registry) -> (result:
    LootResult<()>)
    ensures
        result == checked_conditions(conditions@, *registry),
    decreases conditions,
{
    let mut i: usize = 0;
    assert(conditions@.skip(0) =~= conditions@);
    #[verifier::loop_isolation(false)]
    while i < conditions.len()
        invariant
            i <= conditions.len(),
            checked_conditions(conditions@, *registry) == checked_conditions(
                conditions@.skip(i as int),
                *registry,
            ),
        decreases conditions.len() - i,
    {
        assert(conditions@.skip(i as int).drop_first() =~= conditions@.skip(i + 1));
        match validate_condition(&conditions[i], registry) {
            Ok(()) => {},
            Err(error) => {
                return Err(error);
            },
        }
        i = i + 1;
    }
    Ok(())
}

fn validate_condition(condition: &LootCondition, registry: &Registry) -> (result: LootResult<()>)
    ensures
        result == checked_condition(*condition, *registry),
    decreases condition,
{
    match condition {
        LootCondition::Inverted(inner) => validate_condition(inner, registry),
        LootCondition::AnyOf(children) => validate_conditions(children, registry),
        LootCondition::AllOf(children) => validate_conditions(children, registry),
        LootCondition::LocationCheck { predicate, .. } => {
            if let Some(biomes) = &predicate.biomes {
                match biomes.validate(&registry.biome_tags, "biome") {
                    Ok(()) => {},
                    Err(error) => {
                        return Err(error);
                    },
                }
            }
            if let Some(block) = &predicate.block {
                if let Some(blocks) = &block.blocks {
                    return blocks.validate(&registry.block_tags, "block");
                }
            }
            Ok(())
        },
        LootCondition::TimeCheck { value, .. } => validate_range(value),
        LootCondition::ValueCheck { value, range } => match validate_number_provider(value) {
            Ok(()) => validate_range(range),
            Err(error) => Err(error),
        },
        LootCondition::EntityScores { .. } => Err(
            LootError::UnsupportedCondition("entity_scores"),
        ),
        LootCondition::Reference(_) => Err(LootError::UnsupportedCondition("reference")),
        _ => Ok(()),
    }
}

fn require_registry_value<T: Keyed>(
    values: &Vec<T>,
    registry: &'static str,
    key: &Identifier,
) -> (result: LootResult<()>)
    ensures
        result == checked_value(values@, registry, *key),
{
    match by_key(values, key) {
        Some(_) => Ok(()),
        None => Err(LootError::UnknownRegistryValue { registry, key: key.clone() }),
    }
}

fn require_registry_tag<T: Keyed>(
    tags: &Vec<T>,
    registry: &'static str,
    key: &Identifier,
) -> (result: LootResult<()>)
    ensures
        result == checked_tag(tags@, registry, *key),
{
    match by_key(tags, key) {
        Some(_) => Ok(()),
        None => Err(LootError::UnknownRegistryTag { registry, key: key.clone() }),
    }
}

fn validate_enchantment_options(options: &EnchantmentOptions, registry: &Registry) -> (result:
    LootResult<()>)
    ensures
        result == checked_options(*options, *registry),
{
    match options.resolve(registry) {
        Ok(_) => Ok(()),
        Err(error) => Err(error),
    }
}

fn validate_stew(effects: &Vec<StewEffect>, registry: &Registry) -> (result: LootResult<()>)
    ensures
        result == checked_stew(effects@, *registry),
{
    let mut i: usize = 0;
    assert(effects@.skip(0) =~= effects@);
    while i < effects.len()
        invariant
            i <= effects.len(),
            checked_stew(effects@, *registry) == checked_stew(effects@.skip(i as int), *registry),
        decreases effects.len() - i,
    {
        assert(effects@.skip(i as int).drop_first() =~= effects@.skip(i + 1));
        match require_registry_value(
            &registry.mob_effects,
            "mob effect",
            &effects[i].effect_type,
        ) {
            Ok(()) => {},
            Err(error) => {
                return Err(error);
            },
        }
        match validate_number_provider(&effects[i].duration) {
            Ok(()) => {},
            Err(error) => {
                return Err(error);
            },
        }
        i = i + 1;
    }
    Ok(())
}

fn validate_levels(enchantments: &Vec<(Identifier, NumberProvider)>, registry: &Registry) -> (result:
    LootResult<()>)
    ensures
        result == checked_levels(enchantments@, *registry),
{
    let mut i: usize = 0;
    assert(enchantments@.skip(0) =~= enchantments@);
    while i < enchantments.len()
        invariant
            i <= enchantments.len(),
            checked_levels(enchantments@, *registry) == checked_levels(
                enchantments@.skip(i as int),
                *registry,
            ),
        decreases enchantments.len() - i,
    {
        assert(enchantments@.skip(i as int).drop_first() =~= enchantments@.skip(i + 1));
        match require_registry_value(&registry.enchantments, "enchantment", &enchantments[i].0) {
            Ok(()) => {},
            Err(error) => {
                return Err(error);
            },
        }
        match validate_number_provider(&enchantments[i].1) {
            Ok(()) => {},
            Err(error) => {
                return Err(error);
            },
        }
        i = i + 1;
    }
    Ok(())
}

fn validate_functions(
    functions: &Vec<ConditionalLootFunction>,
    registry: &Registry,
    requirements: &mut LootRequirements,
) -> (result: LootResult<()>)
    requires
        distinct_requests(old(requirements).requests()),
    ensures
        distinct_requests(final(requirements).requests()),
        meets(
            result,
            *final(requirements),
            checked_functions(functions@, *registry, old(requirements).requests()),
        ),
    decreases functions,
{
    let mut i: usize = 0;
    assert(functions@.skip(0) =~= functions@);
    #[verifier::loop_isolation(false)]
    while i < functions.len()
        invariant
            i <= functions.len(),
            distinct_requests(requirements.requests()),
            checked_functions(functions@, *registry, old(requirements).requests())
                == checked_functions(
                functions@.skip(i as int),
                *registry,
                requirements.requests(),
            ),
        decreases functions.len() - i,
    {
        assert(functions@.skip(i as int).drop_first() =~= functions@.skip(i + 1));
        match validate_conditions(&functions[i].conditions, registry) {
            Ok(()) => {},
            Err(error) => {
                return Err(error);
            },
        }
        match validate_function(&functions[i].function, registry, requirements) {
            Ok(()) => {},
            Err(error) => {
                return Err(error);
            },
        }
        i = i + 1;
    }
    Ok(())
}

fn validate_function(
    function: &LootFunction,
    registry: &Registry,
    requirements: &mut LootRequirements,
) -> (result: LootResult<()>)
    requires
        distinct_requests(old(requirements).requests()),
    ensures
        distinct_requests(final(requirements).requests()),
        meets(
            result,
            *final(requirements),
            checked_function(*function, *registry, old(requirements).requests()),
        ),
    decreases function,
{
    match function {
        LootFunction::SetCount { count, .. } => validate_number_provider(count),
        LootFunction::EnchantedCountIncrease { count, .. } => validate_number_provider(count),
        LootFunction::SetDamage { damage, .. } => validate_number_provider(damage),
        LootFunction::EnchantRandomly { options } => {
            validate_enchantment_options(options, registry)
        },
        LootFunction::EnchantWithLevels { levels, options } => {
            match validate_number_provider(levels) {
                Ok(()) => validate_enchantment_options(options, registry),
                Err(error) => Err(error),
            }
        },
        LootFunction::ExplorationMap {
            destination,
            decoration,
            zoom,
            search_radius,
            skip_existing_chunks,
        } => {
            if *zoom < i8::MIN as i32 || *zoom > i8::MAX as i32 {
                return Err(LootError::InvalidExplorationMapZoom(*zoom));
            }
            match require_registry_tag(&registry.structure_tags, "structure", destination) {
                Ok(()) => {},
                Err(error) => {
                    return Err(error);
                },
            }
            match require_registry_value(
                &registry.map_decoration_types,
                "map decoration type",
                decoration,
            ) {
                Ok(()) => {},
                Err(error) => {
                    return Err(error);
                },
            }
            requirements.add_exploration_map(
                ExplorationMapRequest {
                    destination: destination.clone(),
                    decoration: decoration.clone(),
                    zoom: *zoom,
                    search_radius: *search_radius,
                    skip_existing_chunks: *skip_existing_chunks,
                },
            );
            Ok(())
        },
        LootFunction::SetOminousBottleAmplifier { amplifier } => {
            validate_number_provider(amplifier)
        },
        LootFunction::SetPotion { id } => require_registry_value(&registry.potions, "potion", id),
        LootFunction::SetStewEffect { effects } => validate_stew(effects, registry),
        LootFunction::SetInstrument { options } => match options {
            InstrumentOptions::Tag(tag) => require_registry_tag(
                &registry.instrument_tags,
                "instrument",
                tag,
            ),
            InstrumentOptions::Direct(_) => Ok(()),
        },
        LootFunction::SetEnchantments { enchantments, .. } => {
            validate_levels(enchantments, registry)
        },
        LootFunction::SetItem { item } => require_registry_value(&registry.items, "item", item),
        LootFunction::Sequence { functions } => {
            validate_functions(functions, registry, requirements)
        },
        LootFunction::Filtered { modifier, .. } => {
            match validate_conditions(&modifier.conditions, registry) {
                Ok(()) => validate_function(&modifier.function, registry, requirements),
                Err(error) => Err(error),
            }
        },
        LootFunction::CopyComponents { source, .. } => match source {
            CopySource::BlockEntity => Ok(()),
            _ => Err(LootError::UnsupportedFunction("copy_components")),
        },
        _ => match function.unsupported_name() {
            Some(name) => Err(LootError::UnsupportedFunction(name)),
            None => Ok(()),
        },
    }
}

fn validate_pools(
    pools: &Vec<LootPool>,
    registry: &Registry,
    requirements: &mut LootRequirements,
    visiting: &mut FxHashSet<Identifier>,
) -> (result: LootResult<()>)
    requires
        distinct_requests(old(requirements).requests()),
    ensures
        distinct_requests(final(requirements).requests()),
        ids_in(*final(visiting)) == ids_in(*old(visiting)),
        meets(
            result,
            *final(requirements),
            checked_pools(
                pools@,
                *registry,
                old(requirements).requests(),
                ids_in(*old(visiting)),
            ),
        ),
    decreases unvisited(registry.loot_tables@, ids_in(*old(visiting))), pools, 0int,
{
    let mut i: usize = 0;
    assert(pools@.skip(0) =~= pools@);
    #[verifier::loop_isolation(false)]
    while i < pools.len()
        invariant
            i <= pools.len(),
            distinct_requests(requirements.requests()),
            ids_in(*visiting) == ids_in(*old(visiting)),
            checked_pools(
                pools@,
                *registry,
                old(requirements).requests(),
                ids_in(*visiting),
            ) == checked_pools(
                pools@.skip(i as int),
                *registry,
                requirements.requests(),
                ids_in(*visiting),
            ),
        decreases pools.len() - i,
    {
        assert(pools@.skip(i as int).drop_first() =~= pools@.skip(i + 1));
        match validate_pool(&pools[i], registry, requirements, visiting) {
            Ok(()) => {},
            Err(error) => {
                return Err(error);
            },
        }
        i = i + 1;
    }
    Ok(())
}

fn validate_pool(
    pool: &LootPool,
    registry: &Registry,
    requirements: &mut LootRequirements,
    visiting: &mut FxHashSet<Identifier>,
) -> (result: LootResult<()>)
    requires
        distinct_requests(old(requirements).requests()),
    ensures
        distinct_requests(final(requirements).requests()),
        ids_in(*final(visiting)) == ids_in(*old(visiting)),
        meets(
            result,
            *final(requirements),
            checked_pool(
                *pool,
                *registry,
                old(requirements).requests(),
                ids_in(*old(visiting)),
            ),
        ),
    decreases unvisited(registry.loot_tables@, ids_in(*old(visiting))), pool, 0int,
{
    match validate_conditions(&pool.conditions, registry) {
        Ok(()) => {},
        Err(error) => {
            return Err(error);
        },
    }
    match validate_number_provider(&pool.rolls) {
        Ok(()) => {},
        Err(error) => {
            return Err(error);
        },
    }
    match validate_functions(&pool.functions, registry, requirements) {
        Ok(()) => {},
        Err(error) => {
            return Err(error);
        },
    }
    validate_entries(&pool.entries, registry, requirements, visiting)
}

fn validate_entries(
    entries: &Vec<LootEntry>,
    registry: &Registry,
    requirements: &mut LootRequirements,
    visiting: &mut FxHashSet<Identifier>,
) -> (result: LootResult<()>)
    requires
        distinct_requests(old(requirements).requests()),
    ensures
        distinct_requests(final(requirements).requests()),
        ids_in(*final(visiting)) == ids_in(*old(visiting)),
        meets(
            result,
            *final(requirements),
            checked_entries(
                entries@,
                *registry,
                old(requirements).requests(),
                ids_in(*old(visiting)),
            ),
        ),
    decreases unvisited(registry.loot_tables@, ids_in(*old(visiting))), entries, 0int,
{
    let mut i: usize = 0;
    assert(entries@.skip(0) =~= entries@);
    #[verifier::loop_isolation(false)]
    while i < entries.len()
        invariant
            i <= entries.len(),
            distinct_requests(requirements.requests()),
            ids_in(*visiting) == ids_in(*old(visiting)),
            checked_entries(
                entries@,
                *registry,
                old(requirements).requests(),
                ids_in(*visiting),
            ) == checked_entries(
                entries@.skip(i as int),
                *registry,
                requirements.requests(),
                ids_in(*visiting),
            ),
        decreases entries.len() - i,
    {
        assert(entries@.skip(i as int).drop_first() =~= entries@.skip(i + 1));
        match validate_entry(&entries[i], registry, requirements, visiting) {
            Ok(()) => {},
            Err(error) => {
                return Err(error);
            },
        }
        i = i + 1;
    }
    Ok(())
}

fn validate_entry(
    entry: &LootEntry,
    registry: &Registry,
    requirements: &mut LootRequirements,
    visiting: &mut FxHashSet<Identifier>,
) -> (result: LootResult<()>)
    requires
        distinct_requests(old(requirements).requests()),
    ensures
        distinct_requests(final(requirements).requests()),
        ids_in(*final(visiting)) == ids_in(*old(visiting)),
        meets(
            result,
            *final(requirements),
            checked_entry(
                *entry,
                *registry,
                old(requirements).requests(),
                ids_in(*old(visiting)),
            ),
        ),
    decreases unvisited(registry.loot_tables@, ids_in(*old(visiting))), entry, 0int,
{
    match validate_conditions(entry.conditions(), registry) {
        Ok(()) => {},
        Err(error) => {
            return Err(error);
        },
    }
    if let Some(functions) = entry.functions() {
        match validate_functions(functions, registry, requirements) {
            Ok(()) => {},
            Err(error) => {
                return Err(error);
            },
        }
    } else {
        assert(entry.spec_functions() =~= Seq::empty());
    }
    match entry {
        LootEntry::Item { name, .. } => require_registry_value(&registry.items, "item", name),
        LootEntry::LootTableRef { name, .. } => match by_key(&registry.loot_tables, name) {
            Some(table) => {
                if !insert_id(visiting, table.key.clone()) {
                    assert(ids_in(*visiting) =~= ids_in(*old(visiting)));
                    return Err(LootError::UnsupportedEntry("recursive loot-table reference"));
                }
                proof {
                    lemma_find(registry.loot_tables@, name@);
                    lemma_visit(registry.loot_tables@, ids_in(*old(visiting)), *table);
                }
                let result = table.collect_requirements(registry, requirements, visiting);
                remove_id(visiting, &table.key);
                assert(ids_in(*visiting) =~= ids_in(*old(visiting)));
                result
            },
            None => Err(
                LootError::UnknownRegistryValue { registry: "loot table", key: name.clone() },
            ),
        },
        LootEntry::InlineLootTable { pools, .. } => {
            validate_pools(pools, registry, requirements, visiting)
        },
        LootEntry::Tag { name, .. } => require_registry_tag(&registry.item_tags, "item", name),
        LootEntry::Alternatives { children, .. } => {
            validate_entries(children, registry, requirements, visiting)
        },
        LootEntry::Group { children, .. } => {
            validate_entries(children, registry, requirements, visiting)
        },
        LootEntry::Sequence { children, .. } => {
            validate_entries(children, registry, requirements, visiting)
        },
        LootEntry::Empty { .. } => Ok(()),
        LootEntry::Dynamic { .. } => Err(LootError::UnsupportedEntry("dynamic")),
        LootEntry::Slots { .. } => Err(LootError::UnsupportedEntry("slots")),
    }
}

impl LootTable {
    /// What the table requires, or why it cannot be evaluated.
    pub open spec fn required(self, registry: Registry) -> LootResult<Seq<ExplorationMapRequest>> {
        match checked_table(self, registry, Seq::empty(), Set::empty().insert(self.key@)) {
            (Ok(()), requests) => Ok(requests),
            (Err(error), _) => Err(error),
        }
    }

    /// Validates registry-backed inputs and collects world work without drawing
    /// random numbers.
    pub fn requirements(&self, registry: &Registry) -> (requirements: LootResult<LootRequirements>)
        ensures
            match (requirements, self.required(*registry)) {
                (Ok(requirements), Ok(expected)) => requirements.requests() == expected
                    && distinct_requests(expected),
                (Err(error), Err(expected)) => error == expected,
                _ => false,
            },
    {
        let mut requirements = LootRequirements::new();
        let mut visiting = no_ids();
        insert_id(&mut visiting, self.key.clone());
        match self.collect_requirements(registry, &mut requirements, &mut visiting) {
            Ok(()) => Ok(requirements),
            Err(error) => Err(error),
        }
    }

    /// Checks the table, which is being visited, and collects what it requires.
    fn collect_requirements(
        &self,
        registry: &Registry,
        requirements: &mut LootRequirements,
        visiting: &mut FxHashSet<Identifier>,
    ) -> (result: LootResult<()>)
        requires
            distinct_requests(old(requirements).requests()),
        ensures
            distinct_requests(final(requirements).requests()),
            ids_in(*final(visiting)) == ids_in(*old(visiting)),
            meets(
                result,
                *final(requirements),
                checked_table(
                    *self,
                    *registry,
                    old(requirements).requests(),
                    ids_in(*old(visiting)),
                ),
            ),
        decreases unvisited(registry.loot_tables@, ids_in(*old(visiting))), self.pools, 1int,
    {
        match validate_functions(&self.functions, registry, requirements) {
            Ok(()) => {},
            Err(error) => {
                return Err(error);
            },
        }
        validate_pools(&self.pools, registry, requirements, visiting)
    }
}

/// The numbers in a table can be drawn, and the weights of each of its pools add up
/// to what fits.
pub open spec fn table_fits(table: LootTable, luck: int) -> bool {
    sound_functions(table.functions@) && pools_fit(table.pools@, luck)
}

pub open spec fn pools_fit(pools: Seq<LootPool>, luck: int) -> bool
    decreases pools,
{
    forall|i: int| 0 <= i < pools.len() ==> pool_fits(#[trigger] pools[i], luck)
}

pub open spec fn pool_fits(pool: LootPool, luck: int) -> bool
    decreases pool,
{
    &&& sound_conditions(pool.conditions@)
    &&& pool.rolls.sound()
    &&& sound_functions(pool.functions@)
    &&& weight_sum(pool.entries@, luck) <= i32::MAX
    &&& entries_fit(pool.entries@, luck)
}

pub open spec fn entries_fit(entries: Seq<LootEntry>, luck: int) -> bool
    decreases entries,
{
    forall|i: int| 0 <= i < entries.len() ==> entry_fits(#[trigger] entries[i], luck)
}

pub open spec fn entry_fits(entry: LootEntry, luck: int) -> bool
    decreases entry,
{
    &&& sound_conditions(entry.spec_conditions())
    &&& sound_functions(entry.spec_functions())
    &&& match entry {
        LootEntry::InlineLootTable { pools, .. } => pools_fit(pools@, luck),
        LootEntry::Alternatives { children, .. } => entries_fit(children@, luck),
        LootEntry::Group { children, .. } => entries_fit(children@, luck),
        LootEntry::Sequence { children, .. } => entries_fit(children@, luck),
        _ => true,
    }
}

proof fn lemma_unvisited_bound(tables: Seq<LootTable>, visiting: Set<Id>)
    ensures
        unvisited(tables, visiting) <= tables.len(),
    decreases tables.len(),
{
    if tables.len() > 0 {
        lemma_unvisited_bound(tables.drop_last(), visiting);
    }
}

/// All the registered tables fit.
pub open spec fn registry_fits(registry: Registry, luck: int) -> bool {
    forall|i: int|
        0 <= i < registry.loot_tables@.len() ==> table_fits(
            #[trigger] registry.loot_tables@[i],
            luck,
        )
}

proof fn lemma_table_ready(
    table: LootTable,
    registry: Registry,
    luck: int,
    requests: Seq<ExplorationMapRequest>,
    visiting: Set<Id>,
    depth: nat,
)
    requires
        registry_fits(registry, luck),
        table_fits(table, luck),
        checked_table(table, registry, requests, visiting).0 is Ok,
        depth >= unvisited(registry.loot_tables@, visiting),
    ensures
        table_ready(table, registry, luck, depth),
    decreases unvisited(registry.loot_tables@, visiting), table.pools@, 1int,
{
    let after = checked_functions(table.functions@, registry, requests).1;
    lemma_pools_ready(table.pools@, registry, luck, after, visiting, depth);
}

proof fn lemma_pools_ready(
    pools: Seq<LootPool>,
    registry: Registry,
    luck: int,
    requests: Seq<ExplorationMapRequest>,
    visiting: Set<Id>,
    depth: nat,
)
    requires
        registry_fits(registry, luck),
        pools_fit(pools, luck),
        checked_pools(pools, registry, requests, visiting).0 is Ok,
        depth >= unvisited(registry.loot_tables@, visiting),
    ensures
        pools_ready(pools, registry, luck, depth),
    decreases unvisited(registry.loot_tables@, visiting), pools, 0int,
{
    if pools.len() > 0 {
        let pool = pools[0];
        let rest = pools.drop_first();
        assert(pool_fits(pool, luck));
        assert(pools_fit(rest, luck)) by {
            assert forall|i: int| 0 <= i < rest.len() implies pool_fits(
                #[trigger] rest[i],
                luck,
            ) by {
                assert(rest[i] == pools[i + 1]);
            }
        }
        assert(checked_pool(pool, registry, requests, visiting).0 is Ok);
        let after = checked_functions(pool.functions@, registry, requests).1;
        lemma_entries_ready(pool.entries@, registry, luck, after, visiting, depth);
        let next = checked_pool(pool, registry, requests, visiting).1;
        lemma_pools_ready(rest, registry, luck, next, visiting, depth);
        assert forall|i: int| 0 <= i < pools.len() implies pool_ready(
            #[trigger] pools[i],
            registry,
            luck,
            depth,
        ) by {
            if i > 0 {
                assert(rest[i - 1] == pools[i]);
            }
        }
    }
}

proof fn lemma_entries_ready(
    entries: Seq<LootEntry>,
    registry: Registry,
    luck: int,
    requests: Seq<ExplorationMapRequest>,
    visiting: Set<Id>,
    depth: nat,
)
    requires
        registry_fits(registry, luck),
        entries_fit(entries, luck),
        checked_entries(entries, registry, requests, visiting).0 is Ok,
        depth >= unvisited(registry.loot_tables@, visiting),
    ensures
        entries_ready(entries, registry, luck, depth),
    decreases unvisited(registry.loot_tables@, visiting), entries, 0int,
{
    if entries.len() > 0 {
        let rest = entries.drop_first();
        assert(entry_fits(entries[0], luck));
        assert(entries_fit(rest, luck)) by {
            assert forall|i: int| 0 <= i < rest.len() implies entry_fits(
                #[trigger] rest[i],
                luck,
            ) by {
                assert(rest[i] == entries[i + 1]);
            }
        }
        lemma_entry_ready(entries[0], registry, luck, requests, visiting, depth);
        let next = checked_entry(entries[0], registry, requests, visiting).1;
        lemma_entries_ready(rest, registry, luck, next, visiting, depth);
        assert forall|i: int| 0 <= i < entries.len() implies entry_ready(
            #[trigger] entries[i],
            registry,
            luck,
            depth,
        ) by {
            if i > 0 {
                assert(rest[i - 1] == entries[i]);
            }
        }
    }
}

proof fn lemma_entry_ready(
    entry: LootEntry,
    registry: Registry,
    luck: int,
    requests: Seq<ExplorationMapRequest>,
    visiting: Set<Id>,
    depth: nat,
)
    requires
        registry_fits(registry, luck),
        entry_fits(entry, luck),
        checked_entry(entry, registry, requests, visiting).0 is Ok,
        depth >= unvisited(registry.loot_tables@, visiting),
    ensures
        entry_ready(entry, registry, luck, depth),
    decreases unvisited(registry.loot_tables@, visiting), entry, 0int,
{
    let after = checked_functions(entry.spec_functions(), registry, requests).1;
    match entry {
        LootEntry::LootTableRef { name, .. } => {
            if let Some(table) = find(registry.loot_tables@, name@) {
                lemma_find(registry.loot_tables@, name@);
                lemma_visit(registry.loot_tables@, visiting, table);
                let i = choose|i: int|
                    0 <= i < registry.loot_tables@.len() && registry.loot_tables@[i] == table;
                assert(table_fits(registry.loot_tables@[i], luck));
                lemma_table_ready(
                    table,
                    registry,
                    luck,
                    after,
                    visiting.insert(table.key@),
                    (depth - 1) as nat,
                );
            }
        },
        LootEntry::InlineLootTable { pools, .. } => {
            lemma_pools_ready(pools@, registry, luck, after, visiting, depth);
        },
        LootEntry::Alternatives { children, .. } => {
            lemma_entries_ready(children@, registry, luck, after, visiting, depth);
        },
        LootEntry::Group { children, .. } => {
            lemma_entries_ready(children@, registry, luck, after, visiting, depth);
        },
        LootEntry::Sequence { children, .. } => {
            lemma_entries_ready(children@, registry, luck, after, visiting, depth);
        },
        _ => {},
    }
}

/// A failed check of an exploration map, or of any other single function, leaves the
/// requests as they were.
pub proof fn law_failed_function_adds_no_request(
    function: LootFunction,
    registry: Registry,
    requests: Seq<ExplorationMapRequest>,
)
    requires
        !(function is Sequence || function is Filtered),
        checked_function(function, registry, requests).0 is Err,
    ensures
        checked_function(function, registry, requests).1 == requests,
{
}

/// Checking a function keeps the requests that there were, in their places, whether it
/// fails or not.
pub proof fn law_checked_function_keeps_requests(
    function: LootFunction,
    registry: Registry,
    requests: Seq<ExplorationMapRequest>,
)
    ensures
        requests.is_prefix_of(checked_function(function, registry, requests).1),
    decreases function,
{
    match function {
        LootFunction::Sequence { functions } => {
            lemma_functions_keep(functions@, registry, requests);
        },
        LootFunction::Filtered { modifier, .. } => {
            law_checked_function_keeps_requests(modifier.function, registry, requests);
        },
        _ => {},
    }
}

proof fn lemma_functions_keep(
    functions: Seq<ConditionalLootFunction>,
    registry: Registry,
    requests: Seq<ExplorationMapRequest>,
)
    ensures
        requests.is_prefix_of(checked_functions(functions, registry, requests).1),
    decreases functions,
{
    if functions.len() > 0 {
        law_checked_function_keeps_requests(functions[0].function, registry, requests);
        let after = checked_function(functions[0].function, registry, requests).1;
        lemma_functions_keep(functions.drop_first(), registry, after);
    }
}

/// Checking a table keeps the requests that there were, in their places, whether it
/// fails or not.
pub proof fn law_checked_table_keeps_requests(
    table: LootTable,
    registry: Registry,
    requests: Seq<ExplorationMapRequest>,
    visiting: Set<Id>,
)
    ensures
        requests.is_prefix_of(checked_table(table, registry, requests, visiting).1),
    decreases unvisited(registry.loot_tables@, visiting), table.pools@, 1int,
{
    lemma_functions_keep(table.functions@, registry, requests);
    let after = checked_functions(table.functions@, registry, requests).1;
    lemma_pools_keep(table.pools@, registry, after, visiting);
}

proof fn lemma_pools_keep(
    pools: Seq<LootPool>,
    registry: Registry,
    requests: Seq<ExplorationMapRequest>,
    visiting: Set<Id>,
)
    ensures
        requests.is_prefix_of(checked_pools(pools, registry, requests, visiting).1),
    decreases unvisited(registry.loot_tables@, visiting), pools, 0int,
{
    if pools.len() > 0 {
        let pool = pools[0];
        lemma_functions_keep(pool.functions@, registry, requests);
        let after = checked_functions(pool.functions@, registry, requests).1;
        lemma_entries_keep(pool.entries@, registry, after, visiting);
        let next = checked_pool(pool, registry, requests, visiting).1;
        lemma_pools_keep(pools.drop_first(), registry, next, visiting);
    }
}

proof fn lemma_entries_keep(
    entries: Seq<LootEntry>,
    registry: Registry,
    requests: Seq<ExplorationMapRequest>,
    visiting: Set<Id>,
)
    ensures
        requests.is_prefix_of(checked_entries(entries, registry, requests, visiting).1),
    decreases unvisited(registry.loot_tables@, visiting), entries, 0int,
{
    if entries.len() > 0 {
        lemma_entry_keeps(entries[0], registry, requests, visiting);
        let next = checked_entry(entries[0], registry, requests, visiting).1;
        lemma_entries_keep(entries.drop_first(), registry, next, visiting);
    }
}

proof fn lemma_entry_keeps(
    entry: LootEntry,
    registry: Registry,
    requests: Seq<ExplorationMapRequest>,
    visiting: Set<Id>,
)
    ensures
        requests.is_prefix_of(checked_entry(entry, registry, requests, visiting).1),
    decreases unvisited(registry.loot_tables@, visiting), entry, 0int,
{
    lemma_functions_keep(entry.spec_functions(), registry, requests);
    let after = checked_functions(entry.spec_functions(), registry, requests).1;
    match entry {
        LootEntry::LootTableRef { name, .. } => {
            if let Some(table) = find(registry.loot_tables@, name@) {
                if !visiting.contains(table.key@) {
                    lemma_find(registry.loot_tables@, name@);
                    lemma_visit(registry.loot_tables@, visiting, table);
                    law_checked_table_keeps_requests(
                        table,
                        registry,
                        after,
                        visiting.insert(table.key@),
                    );
                }
            }
        },
        LootEntry::InlineLootTable { pools, .. } => {
            lemma_pools_keep(pools@, registry, after, visiting);
        },
        LootEntry::Alternatives { children, .. } => {
            lemma_entries_keep(children@, registry, after, visiting);
        },
        LootEntry::Group { children, .. } => {
            lemma_entries_keep(children@, registry, after, visiting);
        },
        LootEntry::Sequence { children, .. } => {
            lemma_entries_keep(children@, registry, after, visiting);
        },
        _ => {},
    }
}

/// A table whose requirements were collected without a failure can be evaluated:
/// no chain of references from it leads back to a table it came through.
pub proof fn law_checked_table_can_be_evaluated(table: LootTable, registry: Registry, luck: int)
    requires
        registry_fits(registry, luck),
        table_fits(table, luck),
        table.required(registry) is Ok,
    ensures
        table_ready(table, registry, luck, registry.loot_tables@.len()),
{
    let visiting = Set::empty().insert(table.key@);
    lemma_unvisited_bound(registry.loot_tables@, visiting);
    lemma_table_ready(
        table,
        registry,
        luck,
        Seq::empty(),
        visiting,
        registry.loot_tables@.len(),
    );
}

} // verus!
