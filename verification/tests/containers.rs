//! Container block entities: items, locks, components and loot that is still to come.
use steel::behavior::block_item::{BlockItem, PlaceStage, PlaceStep};
use steel::behavior::InteractionResult;
use steel::behavior::barrel_block::{
    DeferredBarrelOpenJob, DeferredOpen, FoundBlock, FoundContainer, WaitingPlayer,
};
use steel::block_entity::base_container::BaseContainer;
use steel::block_entity::components::{
    add_block_data_to_item, merge_custom_data, set_block_entity_data, BlockEntityComponentInput,
};
use steel::block_entity::entities::{BarrelBlockEntity, ChestBlockEntity};
use steel::block_entity::exploration::{
    to_double_bits, ExplorationError, ExplorationMapJob, ExplorationPhase, PublishResult,
};
use steel::block_entity::preparation::PreparationStep;
use steel::block_entity::randomizable_container::{
    restore_fallback_item, ContainerPreparation, ContainerReadiness, PendingMapResolver,
    PreparationSource, PublishedLoot, RandomizableContainer,
};
use steel::data_components::map::DataComponentMap;
use steel::data_components::{
    ComponentData, ComponentKind, DataComponentGetter, DataComponentType,
};
use steel::ident::Identifier;
use steel::inventory::provider::ContainerAccessResult;
use steel::item_stack::{Item, ItemStack};
use steel::keyed::Tag;
use steel::locate::{
    generated_structure, ChunkRequestState, LocateStep, LocatedStructure,
    StructureLocateCandidate, StructureLocatePoll, StructureLocator, StructureStart,
};
use steel::loot_table::conditions::{BlockPos, LootContext};
use steel::loot_table::entries::{LootEntry, LootPool, LootTable, LootType};
use steel::loot_table::error::{ExplorationMapRequest, LootError};
use steel::loot_table::functions::{
    ConditionalLootFunction, ExplorationMapResolver, LootFunction,
};
use steel::loot_table::number::NumberProvider;
use steel::map::packet::MapDecorationType;
use steel::map::store::MapDataState;
use steel::map::terrain::ChunkPos;
use steel::map::tracking::CarriedMap;
use steel::map::MAP_COLOR_COUNT;
use steel::nbt::{NbtCompound, NbtTag};
use steel::random::{LegacyRandom, UNIT_STEPS};
use steel::registry::Registry;

fn id(path: &str) -> Identifier {
    Identifier::vanilla(path)
}

fn item(path: &str) -> Item {
    let mut components = DataComponentMap::new();
    components.set("max_stack_size", Some(ComponentData::integer(64)));
    Item { key: id(path), components }
}

fn stack(path: &str) -> ItemStack {
    ItemStack::new(&item(path))
}

fn text(value: &str) -> NbtTag {
    NbtTag::Text(value.to_owned())
}

fn named(name: &NbtTag) -> ComponentData {
    ComponentData::new(ComponentKind::Text, name.copy())
}

fn constant(value: i64) -> NumberProvider {
    NumberProvider::Constant(value * i64::from(UNIT_STEPS))
}

fn chest_table(path: &str, entry: LootEntry, rolls: i64) -> LootTable {
    LootTable {
        key: id(path),
        loot_type: LootType::Chest,
        pools: vec![LootPool {
            rolls: constant(rolls),
            bonus_rolls: 0,
            entries: vec![entry],
            conditions: Vec::new(),
            functions: Vec::new(),
        }],
        functions: Vec::new(),
        random_sequence: None,
    }
}

fn drop_item(path: &str, functions: Vec<LootFunction>) -> LootEntry {
    LootEntry::Item {
        name: id(path),
        weight: 1,
        quality: 0,
        conditions: Vec::new(),
        functions: functions
            .into_iter()
            .map(|function| ConditionalLootFunction { function, conditions: Vec::new() })
            .collect(),
    }
}

fn registry() -> Registry {
    let component = |path: &str, kind| DataComponentType { key: id(path), kind, persistent: true };
    let explore = LootFunction::ExplorationMap {
        destination: id("on_treasure_maps"),
        decoration: id("red_x"),
        zoom: 1,
        search_radius: 50,
        skip_existing_chunks: false,
    };
    Registry {
        items: ["stone", "map", "filled_map", "chest", "diamond", "bone", "tripwire_hook"]
            .iter()
            .map(|path| item(path))
            .collect(),
        item_tags: Vec::new(),
        enchantments: Vec::new(),
        enchantment_tags: Vec::new(),
        instruments: Vec::new(),
        instrument_tags: Vec::new(),
        structure_tags: vec![Tag {
            key: id("on_treasure_maps"),
            values: vec![id("buried_treasure")],
        }],
        map_decoration_types: vec![MapDecorationType { key: id("red_x"), map_color: Some(0xB0_2E26) }],
        potions: Vec::new(),
        mob_effects: Vec::new(),
        biome_tags: Vec::new(),
        block_tags: Vec::new(),
        component_types: vec![
            component("custom_name", ComponentKind::Text),
            component("item_name", ComponentKind::Text),
            component("custom_data", ComponentKind::CustomData),
            component("lock", ComponentKind::Lock),
            component("container", ComponentKind::ContainerContents),
            component("map_id", ComponentKind::MapId),
            component("max_stack_size", ComponentKind::Integer),
        ],
        smelting: Vec::new(),
        crafting_remainders: Vec::new(),
        loot_tables: vec![
            chest_table("chests/simple_dungeon", drop_item("bone", Vec::new()), 4),
            chest_table("chests/shipwreck_map", drop_item("map", vec![explore]), 1),
        ],
    }
}

fn loot_container(table: &str, seed: i64, registry: &Registry) -> RandomizableContainer {
    let mut saved = NbtCompound::new();
    saved.insert("LootTable", text(table));
    saved.insert("LootTableSeed", NbtTag::Long(seed));
    let mut container = RandomizableContainer::new(27);
    container.load(&saved, registry);
    container
}

/// Starts to prepare a container, and takes in the loot that its table generates.
fn prepare(container: &mut RandomizableContainer, registry: &Registry) -> (u64, PublishedLoot) {
    let ContainerPreparation::Start(preparation) = container.begin_prepare_access() else {
        panic!("a container with loot to come should need preparation");
    };
    let PreparationSource::LootTable { key, seed, size } = preparation.source else {
        panic!("the loot should come from a table");
    };
    let mut context = LootContext::new(registry);
    context.origin = Some(BlockPos { x: 3, y: 64, z: 3 });
    let (evaluated, _) = RandomizableContainer::evaluate_loot_table(
        &context,
        &key,
        size,
        item("filled_map"),
        LegacyRandom::from_seed(seed as u64),
    );
    (preparation.token, container.publish_evaluated(preparation.token, evaluated))
}

#[test]
fn realized_items_round_trip_with_vanilla_slot_indices() {
    let registry = registry();
    let mut source = RandomizableContainer::new(27);
    source.set_item(17, ItemStack::with_count(&item("stone"), 23));
    let mut saved = NbtCompound::new();
    source.save(&mut saved, &registry.component_types);

    let mut loaded = RandomizableContainer::new(27);
    loaded.load(&saved, &registry);

    assert!(loaded.items()[17].is("stone"));
    assert_eq!(loaded.items()[17].count, 23);
    assert!(loaded.items()[0].is_empty());
}

#[test]
fn pending_loot_round_trip_suppresses_realized_items() {
    let registry = registry();
    let mut loot = NbtCompound::new();
    loot.insert("LootTable", text("minecraft:chests/simple_dungeon"));
    loot.insert("LootTableSeed", NbtTag::Long(42));
    let mut container = RandomizableContainer::new(27);
    container.set_item(0, stack("stone"));

    container.load(&loot, &registry);
    let mut saved = NbtCompound::new();
    container.save(&mut saved, &registry.component_types);

    assert!(container.has_pending_loot());
    assert_eq!(
        saved.get_text("LootTable").map(String::as_str),
        Some("minecraft:chests/simple_dungeon")
    );
    assert_eq!(saved.get_long("LootTableSeed"), Some(42));
    assert!(saved.get_list("Items").is_none());
}

#[test]
fn direct_inventory_access_unpacks_pending_loot() {
    let registry = registry();
    let mut container = loot_container("minecraft:chests/simple_dungeon", 42, &registry);

    let (_, published) = prepare(&mut container, &registry);

    assert!(matches!(published, PublishedLoot::Ready { dropped } if dropped.is_empty()));
    assert_eq!(container.preparation_readiness(), ContainerReadiness::Ready);
    assert!(!container.has_pending_loot());
    assert!(container.items().iter().any(|stack| !stack.is_empty()));
}

/// A search that finds nothing.
fn find_nothing(job: &mut ExplorationMapJob, registry: &Registry) {
    while let Ok(Some(_)) = job.begin_current_search(registry) {
        let mut locator = StructureLocator::new(50, false);
        let found = loop {
            match locator.next_step() {
                LocateStep::Rings | LocateStep::Spread { .. } => {
                    assert!(locator.candidates_found(Vec::new()).is_none());
                }
                LocateStep::Wait => panic!("there are no candidates to wait for"),
                LocateStep::Ready(found) => break found,
            }
        };
        assert!(found.is_none());
        assert!(job.located(found).is_ok());
    }
}

#[test]
fn exploration_map_loot_defers_then_uses_vanilla_fallback_when_no_structure_exists() {
    let registry = registry();
    let mut container = loot_container("minecraft:chests/shipwreck_map", 42, &registry);

    let (token, published) = prepare(&mut container, &registry);
    let PublishedLoot::Search { maps } = published else {
        panic!("exploration maps should have to be found first");
    };
    assert_eq!(container.preparation_readiness(), ContainerReadiness::Pending);
    let mut job = ExplorationMapJob::new(token, maps);
    find_nothing(&mut job, &registry);
    let mut store = MapDataState::new();
    let result =
        job.publish(&mut container, &registry, &mut store, &id("overworld"), &id("overworld"));

    assert!(matches!(result, Ok(PublishResult::Published { removed: false, .. })));
    assert_eq!(container.preparation_readiness(), ContainerReadiness::Ready);
    assert!(container.items().iter().any(|item| item.is("map")));
    assert!(container
        .items()
        .iter()
        .all(|item| item.get_number("map_id", ComponentKind::MapId).is_none_or(|map_id| map_id >= 0)));
    assert!(store.get(0).is_none());
}

#[test]
fn found_structures_complete_their_maps() {
    let registry = registry();
    let mut container = loot_container("minecraft:chests/shipwreck_map", 42, &registry);
    let (token, published) = prepare(&mut container, &registry);
    let PublishedLoot::Search { maps } = published else {
        panic!("exploration maps should have to be found first");
    };
    let mut job = ExplorationMapJob::new(token, maps);
    let Ok(Some(search)) = job.begin_current_search(&registry) else {
        panic!("the map should be searched for");
    };
    assert_eq!(search.radius, 50);
    assert!(search.structures[0].is_vanilla("buried_treasure"));
    assert!(!search.create_reference);

    let target = BlockPos { x: 500, y: 64, z: -500 };
    job.resolve_current(Some((target, vec![3; MAP_COLOR_COUNT])));
    assert!(matches!(job.begin_current_search(&registry), Ok(None)));
    let mut store = MapDataState::new();
    let result =
        job.publish(&mut container, &registry, &mut store, &id("overworld"), &id("overworld"));

    assert!(matches!(result, Ok(PublishResult::Published { removed: false, .. })));
    let Some(map) = container.items().iter().find(|item| item.is("filled_map")) else {
        panic!("a found structure should complete the map");
    };
    assert_eq!(map.get_number("map_id", ComponentKind::MapId), Some(0));
    assert_eq!(store.get(0).map(|map| map.colors[0]), Some(3));
    let Some(carried) = CarriedMap::from_item(map) else {
        panic!("a completed map should be trackable");
    };
    assert_eq!(carried.decorations.len(), 1);
    let icon = &carried.decorations[0].1;
    assert!(icon.decoration_type.is_vanilla("red_x"));
    assert_eq!(f64::from_bits(icon.x), 500.0);
    assert_eq!(f64::from_bits(icon.z), -500.0);
}

#[test]
fn located_structures_are_rendered_tick_by_tick() {
    let registry = registry();
    let mut container = loot_container("minecraft:chests/shipwreck_map", 42, &registry);
    let (token, published) = prepare(&mut container, &registry);
    let PublishedLoot::Search { maps } = published else {
        panic!("exploration maps should have to be found first");
    };
    let mut job = ExplorationMapJob::new(token, maps);
    assert!(matches!(job.begin_current_search(&registry), Ok(Some(_))));
    job.search_planned(Some(false));
    assert!(matches!(job.phase, ExplorationPhase::Locating(_)));
    assert!(job.take_preview().is_none());
    let pos = BlockPos { x: 500, y: 64, z: -500 };
    let found = LocatedStructure { pos, structure: id("buried_treasure"), distance_sqr: 9 };
    assert!(job.located(Some(found)).is_ok());

    let mut ticks = 0;
    loop {
        let Some((target, mut preview)) = job.take_preview() else {
            panic!("a located structure should be rendered");
        };
        assert_eq!(target, pos);
        let poll = preview.poll(|_: i32, _: i32| Some(true));
        ticks += 1;
        match job.preview_polled(target, preview, poll) {
            Ok(true) => break,
            Ok(false) => {}
            Err(error) => panic!("every biome is known: {error:?}"),
        }
    }

    assert!(ticks > 1);
    assert_eq!(job.current, 1);
    assert!(matches!(job.begin_current_search(&registry), Ok(None)));
    let mut store = MapDataState::new();
    let result =
        job.publish(&mut container, &registry, &mut store, &id("overworld"), &id("overworld"));
    assert!(matches!(result, Ok(PublishResult::Published { removed: false, .. })));
    assert_eq!(store.get(0).map(|map| map.colors.len()), Some(MAP_COLOR_COUNT));
}

#[test]
fn a_world_without_a_plan_resolves_the_map_with_none() {
    let registry = registry();
    let mut container = loot_container("minecraft:chests/shipwreck_map", 42, &registry);
    let (token, published) = prepare(&mut container, &registry);
    let PublishedLoot::Search { maps } = published else {
        panic!("exploration maps should have to be found first");
    };
    let marker = maps[0].marker;
    let mut job = ExplorationMapJob::new(token, maps);
    assert!(matches!(job.begin_current_search(&registry), Ok(Some(_))));

    job.search_planned(None);

    assert!(matches!(job.phase, ExplorationPhase::Finished));
    assert_eq!(job.current, 1);
    assert_eq!(job.resolved[0].marker, marker);
    assert!(job.resolved[0].target_and_colors.is_none());
}

#[test]
fn unknown_biomes_end_the_rendering() {
    let registry = registry();
    let mut container = loot_container("minecraft:chests/shipwreck_map", 42, &registry);
    let (token, published) = prepare(&mut container, &registry);
    let PublishedLoot::Search { maps } = published else {
        panic!("exploration maps should have to be found first");
    };
    let mut job = ExplorationMapJob::new(token, maps);
    assert!(matches!(job.begin_current_search(&registry), Ok(Some(_))));
    let pos = BlockPos { x: 0, y: 64, z: 0 };
    let found = LocatedStructure { pos, structure: id("buried_treasure"), distance_sqr: 9 };
    assert!(job.located(Some(found)).is_ok());
    let Some((target, mut preview)) = job.take_preview() else {
        panic!("a located structure should be rendered");
    };

    let poll = preview.poll(|_: i32, _: i32| None);
    let polled = job.preview_polled(target, preview, poll);

    assert!(matches!(polled, Err(ExplorationError::MissingBiome(_))));
}

#[test]
fn exploration_needs_a_known_structure_tag() {
    let mut registry = registry();
    let mut container = loot_container("minecraft:chests/shipwreck_map", 42, &registry);
    let (token, published) = prepare(&mut container, &registry);
    let PublishedLoot::Search { maps } = published else {
        panic!("exploration maps should have to be found first");
    };
    registry.structure_tags.clear();
    let mut job = ExplorationMapJob::new(token, maps);

    let search = job.begin_current_search(&registry);

    assert!(matches!(search, Err(ExplorationError::UnknownStructureTag(_))));
    let dropped = job.abandon(&mut container);
    assert!(dropped.is_empty());
    assert_eq!(container.preparation_readiness(), ContainerReadiness::NeedsPreparation);
}

#[test]
fn generated_exploration_map_work_round_trips_without_replaying_loot_rng() {
    let registry = registry();
    let mut container = loot_container("minecraft:chests/shipwreck_map", 42, &registry);
    prepare(&mut container, &registry);

    let mut saved = NbtCompound::new();
    container.save(&mut saved, &registry.component_types);
    let mut loaded = RandomizableContainer::new(27);
    loaded.load(&saved, &registry);

    let Some(pending) = loaded.pending_loot() else {
        panic!("generated pending loot should survive a chunk save");
    };
    assert_eq!(pending.maps.len(), 1);
    assert!(pending
        .items
        .iter()
        .any(|item| item.get_number("map_id", ComponentKind::MapId).is_some_and(|map_id| map_id < 0)));
    assert_eq!(loaded.preparation_readiness(), ContainerReadiness::NeedsPreparation);
}

#[test]
fn exploration_map_branches_preserve_vanilla_counts_and_components() {
    let mut original = ItemStack::with_count(&item("map"), 3);
    let before = text("Before");
    original.set("custom_name", named(&before));
    let request = ExplorationMapRequest {
        destination: id("on_treasure_maps"),
        decoration: id("red_x"),
        zoom: 1,
        search_radius: 50,
        skip_existing_chunks: false,
    };
    let mut resolver = PendingMapResolver { maps: Vec::new(), filled_map: item("filled_map") };
    let Ok(Some(mut placeholder)) = resolver.resolve(&request, &original) else {
        panic!("exploration resolver should return a placeholder");
    };
    assert_eq!(placeholder.count, 1);
    assert!(placeholder.get_raw(&id("custom_name")).is_none());
    let after = text("After");
    placeholder.set("item_name", named(&after));

    let fallback = restore_fallback_item(&placeholder, &resolver.maps[0]);

    assert!(fallback.is("map"));
    assert_eq!(fallback.count, 3);
    assert!(fallback.get_raw(&id("custom_name")).is_some_and(|name| name.value.same(&before)));
    assert!(fallback.get_raw(&id("item_name")).is_some_and(|name| name.value.same(&after)));
    assert!(fallback.get_number("map_id", ComponentKind::MapId).is_none());
}

#[test]
fn markers_count_up_from_minus_one() {
    let request = ExplorationMapRequest {
        destination: id("on_treasure_maps"),
        decoration: id("red_x"),
        zoom: 1,
        search_radius: 50,
        skip_existing_chunks: false,
    };
    let mut resolver = PendingMapResolver { maps: Vec::new(), filled_map: item("filled_map") };

    let markers = (0..3)
        .map(|_| match resolver.resolve(&request, &stack("map")) {
            Ok(Some(placeholder)) => placeholder.get_number("map_id", ComponentKind::MapId),
            _ => None,
        })
        .collect::<Vec<_>>();

    assert_eq!(markers, [Some(-1), Some(0), Some(1)]);
    assert_eq!(resolver.maps.iter().map(|map| map.marker).collect::<Vec<_>>(), [-1, 0, 1]);
}

#[test]
fn destroying_unopened_chest_and_barrel_drops_generated_loot() {
    let registry = registry();
    let count = |items: &[ItemStack]| items.iter().map(|item| item.count.max(0)).sum::<i32>();

    let mut chest = ChestBlockEntity::new();
    chest.container = loot_container("minecraft:chests/simple_dungeon", 42, &registry);
    prepare(&mut chest.container, &registry);
    assert!(count(&chest.pre_remove_side_effects(true)) > 0);

    let mut barrel = BarrelBlockEntity::new();
    barrel.container = loot_container("minecraft:chests/simple_dungeon", 0, &registry);
    prepare(&mut barrel.container, &registry);
    assert!(count(&barrel.pre_remove_side_effects(true)) > 0);

    let mut chest = ChestBlockEntity::new();
    chest.container = loot_container("minecraft:chests/shipwreck_map", 7, &registry);
    let (token, published) = prepare(&mut chest.container, &registry);
    let PublishedLoot::Search { maps } = published else {
        panic!("exploration maps should have to be found first");
    };
    assert!(chest.pre_remove_side_effects(true).is_empty());
    let mut job = ExplorationMapJob::new(token, maps);
    find_nothing(&mut job, &registry);
    let result = job.publish(
        &mut chest.container,
        &registry,
        &mut MapDataState::new(),
        &id("overworld"),
        &id("overworld"),
    );
    let Ok(PublishResult::Published { removed: true, dropped }) = result else {
        panic!("the loot of a removed chest should be dropped");
    };
    assert!(count(&dropped) > 0);
}

#[test]
fn explorer_map_completion_automatically_opens_the_revalidated_barrel() {
    let registry = registry();
    let mut barrel = BarrelBlockEntity::new();
    barrel.container = loot_container("minecraft:chests/shipwreck_map", 42, &registry);
    let (token, published) = prepare(&mut barrel.container, &registry);
    let PublishedLoot::Search { maps } = published else {
        panic!("exploration maps should have to be found first");
    };
    let waiting = DeferredBarrelOpenJob { container_id: 3 };
    let player = WaitingPlayer {
        awaits_token: true,
        same_world: true,
        in_world: true,
        has_container_open: false,
    };
    let found = |barrel: &BarrelBlockEntity| FoundBlock {
        is_same_block: true,
        container: Some(FoundContainer {
            container_id: 3,
            still_valid: true,
            can_open: barrel.can_open(false, false),
            readiness: barrel.container.preparation_readiness(),
        }),
    };
    assert_eq!(waiting.poll(Some(player), found(&barrel)), DeferredOpen::Pending);

    let mut job = ExplorationMapJob::new(token, maps);
    find_nothing(&mut job, &registry);
    let result = job.publish(
        &mut barrel.container,
        &registry,
        &mut MapDataState::new(),
        &id("overworld"),
        &id("overworld"),
    );

    assert!(result.is_ok());
    assert_eq!(waiting.poll(Some(player), found(&barrel)), DeferredOpen::Open);
}

#[test]
fn failed_loot_can_be_tried_again() {
    let registry = registry();
    let mut container = loot_container("minecraft:chests/simple_dungeon", 42, &registry);
    let ContainerPreparation::Start(preparation) = container.begin_prepare_access() else {
        panic!("a container with loot to come should need preparation");
    };
    assert!(matches!(container.begin_prepare_access(), ContainerPreparation::Pending));

    let failed = container
        .publish_evaluated(preparation.token, Err(LootError::UnsupportedFunction("copy_state")));

    assert!(matches!(failed, PublishedLoot::Failed));
    assert!(container.has_pending_loot());
    assert!(matches!(container.begin_prepare_access(), ContainerPreparation::Start(_)));
}

/// Starts to prepare a container, step by step, and generates its loot.
fn prepare_in_steps(
    container: &mut RandomizableContainer,
    registry: &Registry,
) -> (u64, PreparationStep) {
    let ContainerPreparation::Start(preparation) = container.begin_prepare_access() else {
        panic!("a container with loot to come should need preparation");
    };
    let token = preparation.token;
    let PreparationStep::Evaluate { key, seed, size } = preparation.start() else {
        panic!("the loot should come from a table");
    };
    assert_eq!((seed, size), (42, 27));
    let mut context = LootContext::new(registry);
    context.origin = Some(BlockPos { x: 3, y: 64, z: 3 });
    let random = LegacyRandom::from_seed(seed as u64);
    let (loot, _) = RandomizableContainer::evaluate_loot_table(
        &context,
        &key,
        size,
        item("filled_map"),
        random,
    );
    (token, container.loot_evaluated(token, loot))
}

#[test]
fn preparation_of_plain_loot_ends_at_once() {
    let registry = registry();
    let mut container = loot_container("minecraft:chests/simple_dungeon", 42, &registry);

    let (_, step) = prepare_in_steps(&mut container, &registry);

    assert!(matches!(
        step,
        PreparationStep::Done { result: ContainerAccessResult::Ready, dropped, changed: true }
            if dropped.is_empty()
    ));
    assert!(container.items().iter().any(|stack| !stack.is_empty()));
}

#[test]
fn preparation_of_maps_needs_a_queue() {
    let registry = registry();
    let mut container = loot_container("minecraft:chests/shipwreck_map", 42, &registry);
    let (token, step) = prepare_in_steps(&mut container, &registry);
    let PreparationStep::Search { job, changed: true } = step else {
        panic!("exploration maps should have to be found first");
    };
    assert_eq!(job.maps.len(), 1);

    let refused = container.search_queued(token, false);

    assert!(matches!(
        refused,
        PreparationStep::Done { result: ContainerAccessResult::Failed, changed: false, .. }
    ));
    let ContainerPreparation::Start(again) = container.begin_prepare_access() else {
        panic!("a refused search should be tried again");
    };
    let token = again.token;
    assert!(matches!(again.start(), PreparationStep::Search { changed: false, .. }));
    assert!(matches!(
        container.search_queued(token, true),
        PreparationStep::Done { result: ContainerAccessResult::Pending, .. }
    ));
}

#[test]
fn spectators_do_not_open_unopened_loot() {
    let registry = registry();
    let container = loot_container("minecraft:chests/simple_dungeon", 42, &registry);

    assert!(!container.can_open(true, true));
    assert!(container.can_open(false, false));
}

#[test]
fn lock_predicate_round_trips_without_becoming_unlocked() {
    let registry = registry();
    let mut predicate = NbtCompound::new();
    predicate.insert("count", NbtTag::Int(2));
    let mut source = NbtCompound::new();
    source.insert("lock", NbtTag::Compound(predicate));

    let mut container = RandomizableContainer::new(27);
    container.load(&source, &registry);
    let mut saved = NbtCompound::new();
    container.save(&mut saved, &registry.component_types);

    assert!(container.has_lock());
    assert_eq!(
        saved.get_compound("lock").and_then(|lock| lock.get_int("count")),
        Some(2)
    );
}

#[test]
fn explicit_empty_lock_round_trips_but_remains_unlocked() {
    let registry = registry();
    let mut source = NbtCompound::new();
    source.insert("lock", NbtTag::Compound(NbtCompound::new()));

    let mut container = RandomizableContainer::new(27);
    container.load(&source, &registry);
    let mut saved = NbtCompound::new();
    container.save(&mut saved, &registry.component_types);

    assert!(!container.has_lock());
    assert!(saved.get_compound("lock").is_some_and(NbtCompound::is_empty));
}

#[test]
fn explicit_components_round_trip_through_block_entity_nbt() {
    let registry = registry();
    let name = text("Named");
    let mut custom_data = NbtCompound::new();
    custom_data.insert("steel_test", NbtTag::Int(1));
    let mut placing = stack("chest");
    placing.set("custom_name", named(&name));
    placing.set(
        "custom_data",
        ComponentData::new(ComponentKind::CustomData, NbtTag::Compound(custom_data)),
    );
    let mut chest = ChestBlockEntity::new();

    let mut input = BlockEntityComponentInput::new(&placing);
    chest.container.apply_implicit_components(&mut input, &registry);
    let explicit = input.retained();
    let mut saved = NbtCompound::new();
    chest.container.save(&mut saved, &registry.component_types);
    let components = explicit.to_nbt_tag_ref(&registry.component_types);

    let NbtTag::Compound(entries) = &components else {
        panic!("block entities always save their components compound");
    };
    assert!(entries.get("minecraft:custom_data").is_some());
    assert!(
        entries.get("minecraft:custom_name").is_none(),
        "consumed implicit components are saved by the entity's own fields"
    );
    assert!(saved.get("CustomName").is_some());
    let mut loaded = ChestBlockEntity::new();
    loaded.container.load(&saved, &registry);
    let Some(restored) = DataComponentMap::from_nbt_tag(&components, &registry.component_types)
    else {
        panic!("saved components should load");
    };
    assert!(restored.get_raw(&id("custom_data")).is_some());
    assert!(loaded.display_name(text("Chest")).same(&name));
}

fn container_contents() -> ComponentData {
    let mut entry = NbtCompound::new();
    entry.insert("slot", NbtTag::Int(1));
    let mut held = NbtCompound::new();
    held.insert("id", text("minecraft:diamond"));
    held.insert("count", NbtTag::Int(3));
    entry.insert("item", NbtTag::Compound(held));
    ComponentData::new(ComponentKind::ContainerContents, NbtTag::List(vec![NbtTag::Compound(entry)]))
}

#[test]
fn placed_chest_items_apply_their_components_and_pick_block_collects_them() {
    let registry = registry();
    let name = text("Treasure");
    let mut custom_data = NbtCompound::new();
    custom_data.insert("steel_test", NbtTag::Int(1));
    let mut lock = NbtCompound::new();
    lock.insert("items", text("minecraft:tripwire_hook"));
    let mut placing = stack("chest");
    placing.set("custom_name", named(&name));
    placing.set("lock", ComponentData::new(ComponentKind::Lock, NbtTag::Compound(lock)));
    placing.set("container", container_contents());
    placing.set(
        "custom_data",
        ComponentData::new(ComponentKind::CustomData, NbtTag::Compound(custom_data)),
    );
    let mut chest = ChestBlockEntity::new();

    let block = BlockItem::new(id("chest"));
    let mut step = block.place(true);
    let placement = loop {
        match step {
            PlaceStep::Ask(placement) if placement.stage == PlaceStage::Placed => break placement,
            PlaceStep::Ask(placement) => step = placement.answered(true),
            PlaceStep::Fail => panic!("nothing is in the way of the chest"),
        }
    };
    assert!(block.takes_item_data(&id("chest")));
    assert!(placing.get_raw(&id("block_entity_data")).is_none());
    assert!(!BlockItem::loads_custom_data(None, Some(&id("chest")), false, false));
    let placed_from = placing.copy();
    let mut input = BlockEntityComponentInput::new(&placed_from);
    chest.container.apply_implicit_components(&mut input, &registry);
    let explicit = input.retained();
    assert_eq!(block.finish(placement, &mut placing), InteractionResult::Success);
    assert!(placing.is_empty());

    assert!(chest.display_name(text("Chest")).same(&name));
    assert!(chest.container.items()[0].is_empty());
    assert!(chest.container.items()[1].is("diamond"));
    assert_eq!(chest.container.items()[1].count, 3);
    assert!(
        explicit.get_raw(&id("custom_data")).is_some(),
        "components no field consumes stay explicit block-entity components"
    );
    assert!(!chest.can_open(false, false), "the item's lock must apply");

    let mut picked = stack("chest");
    let mut saved = NbtCompound::new();
    chest.container.save(&mut saved, &registry.component_types);
    RandomizableContainer::remove_components_from_tag(&mut saved);
    let mut components = explicit.copy();
    chest.container.collect_implicit_components(&mut components, &registry.component_types);
    add_block_data_to_item(&mut picked, &id("chest"), saved, &|_: &NbtCompound| true, &components);
    assert!(picked.get_raw(&id("custom_name")).is_some_and(|given| given.value.same(&name)));
    assert!(picked.get_raw(&id("lock")).is_some());
    let mut again = ChestBlockEntity::new();
    let mut input = BlockEntityComponentInput::new(&picked);
    again.container.apply_implicit_components(&mut input, &registry);
    assert!(again.container.items()[1].is("diamond"));
    assert_eq!(again.container.items()[1].count, 3);
    assert!(picked.get_raw(&id("custom_data")).is_some());
    assert!(
        picked.get_raw(&id("block_entity_data")).is_none(),
        "every saved chest field is represented by a component"
    );
}

#[test]
fn breaking_a_named_chest_drops_a_named_chest_item() {
    let registry = registry();
    let name = text("Keepsake");
    let mut placing = stack("chest");
    placing.set("custom_name", named(&name));
    let mut chest = ChestBlockEntity::new();
    let mut input = BlockEntityComponentInput::new(&placing);
    chest.container.apply_implicit_components(&mut input, &registry);
    let mut components = input.retained();
    chest.container.collect_implicit_components(&mut components, &registry.component_types);
    let mut context = LootContext::new(&registry);
    context.block_entity = Some(&components);
    let copy_name = LootFunction::CopyComponents {
        source: steel::loot_table::functions::CopySource::BlockEntity,
        only: Some(vec![id("custom_name")]),
    };
    let table = chest_table("blocks/chest", drop_item("chest", vec![copy_name]), 1);
    let mut state = steel::loot_table::functions::LootState {
        random: LegacyRandom::from_seed(1),
        maps: None::<PendingMapResolver>,
    };

    let Ok(dropped) = table.get_random_items(&context, &mut state) else {
        panic!("chest loot should evaluate");
    };

    let chests = dropped.iter().filter(|item| item.is("chest")).collect::<Vec<_>>();
    assert_eq!(chests.len(), 1);
    assert!(chests[0].get_raw(&id("custom_name")).is_some_and(|given| given.value.same(&name)));
}

#[test]
fn custom_data_changes_a_block_entity_only_where_it_differs() {
    let mut previous = NbtCompound::new();
    previous.insert("a", NbtTag::Int(1));
    let mut same = NbtCompound::new();
    same.insert("a", NbtTag::Int(1));
    let mut other = NbtCompound::new();
    other.insert("a", NbtTag::Int(2));

    assert!(merge_custom_data(&previous, &same).is_none());
    assert_eq!(
        merge_custom_data(&previous, &other).and_then(|merged| merged.get_int("a")),
        Some(2)
    );
}

#[test]
fn base_containers_keep_their_size() {
    let mut container = BaseContainer::new(2);

    assert!(container.replace_items(vec![stack("stone")]).is_err());
    assert!(container.replace_items(vec![stack("stone"), ItemStack::empty()]).is_ok());
    assert!(container.items()[0].is("stone"));
    container.set_item(5, stack("map"));
    assert_eq!(container.items().len(), 2);
    container.clear_items();
    assert!(container.items().iter().all(ItemStack::is_empty));
}

#[test]
fn whole_numbers_have_the_bits_of_doubles() {
    for value in [0, 1, -1, 2, 3, 500, -500, 1 << 30, i32::MAX, i32::MIN, -12_345] {
        assert_eq!(to_double_bits(value), f64::from(value).to_bits(), "{value}");
    }
}

fn candidate(x: i32, scan_id: u64, distance_sqr: i64) -> StructureLocateCandidate {
    StructureLocateCandidate {
        chunk_pos: ChunkPos { x, z: 0 },
        locate_pos: BlockPos { x: x * 16, y: 0, z: 0 },
        scan_id,
        distance_sqr,
    }
}

fn inspect_all(locator: &mut StructureLocator, generated: &[i32]) {
    while let Some(candidate) = locator.next_candidate() {
        let structure = generated
            .contains(&candidate.chunk_pos.x)
            .then(|| id("buried_treasure"));
        locator.candidate_inspected(structure);
    }
}

fn position(found: &Option<LocatedStructure>) -> Option<i32> {
    found.as_ref().map(|found| found.pos.x)
}

#[test]
fn locator_keeps_the_nearest_structure() {
    let mut locator = StructureLocator::new(2, true);
    assert!(matches!(locator.next_step(), LocateStep::Rings));
    locator.candidates_found(vec![candidate(9, 1, 900), candidate(5, 2, 500)]);
    inspect_all(&mut locator, &[9, 5]);
    assert!(locator.finish_candidates().is_none());

    let LocateStep::Spread { radius } = locator.next_step() else {
        panic!("the search should go on at growing radii");
    };
    assert_eq!(radius, 0);
    locator.candidates_found(vec![candidate(2, 3, 200), candidate(3, 3, 300)]);
    inspect_all(&mut locator, &[2, 3]);
    let ended = locator.finish_candidates();

    let found = match ended {
        Some(found) => found,
        None => match locator.next_step() {
            LocateStep::Ready(found) => found,
            _ => panic!("a structure at a radius should end the search"),
        },
    };
    assert_eq!(position(&found), Some(32));
    assert!(found.is_some_and(|found| found.structure.is_vanilla("buried_treasure")));
}

#[test]
fn polling_searches_rings_and_then_growing_radii() {
    let mut locator = StructureLocator::new(3, true);
    let rings = || vec![candidate(9, 1, 900)];
    let spread = |radius: i32| {
        if radius == 2 {
            vec![candidate(4, 2, 400), candidate(3, 2, 300), candidate(7, 5, 700)]
        } else {
            Vec::new()
        }
    };
    let everywhere = |_: &StructureLocateCandidate| Some(id("buried_treasure"));

    let first = locator.poll(ChunkRequestState::Cancelled, rings, &spread, &everywhere);
    let waiting = locator.poll(ChunkRequestState::Pending, rings, &spread, &everywhere);
    let wider = locator.poll(ChunkRequestState::Ready, rings, &spread, &everywhere);
    let ended = locator.poll(ChunkRequestState::Ready, rings, &spread, &everywhere);

    let positions = |poll: StructureLocatePoll| match poll {
        StructureLocatePoll::Pending { request } => {
            request.map(|chunks| chunks.iter().map(|chunk| chunk.x).collect::<Vec<_>>())
        }
        _ => panic!("the search should wait for chunks"),
    };
    assert_eq!(positions(first), Some(vec![9]));
    assert_eq!(positions(waiting), None);
    assert_eq!(positions(wider), Some(vec![4, 3, 7]));
    let StructureLocatePoll::Ready(found) = ended else {
        panic!("a structure at a radius should end the search");
    };
    assert_eq!(position(&found), Some(64));

    let again = locator.poll(ChunkRequestState::Ready, rings, &spread, &everywhere);
    let StructureLocatePoll::Ready(found) = again else {
        panic!("a further poll should inspect the radius anew");
    };
    assert_eq!(position(&found), Some(64));
}

#[test]
fn a_search_that_ended_on_rings_is_cancelled() {
    let mut locator = StructureLocator::new(3, false);
    let rings = || vec![candidate(9, 1, 900)];
    let nowhere = |_: i32| Vec::new();
    let everywhere = |_: &StructureLocateCandidate| Some(id("buried_treasure"));
    locator.poll(ChunkRequestState::Pending, rings, &nowhere, &everywhere);

    let ended = locator.poll(ChunkRequestState::Ready, rings, &nowhere, &everywhere);
    let again = locator.poll(ChunkRequestState::Ready, rings, &nowhere, &everywhere);

    assert!(matches!(ended, StructureLocatePoll::Ready(Some(_))));
    assert!(matches!(again, StructureLocatePoll::Cancelled));
}

#[test]
fn malformed_block_entity_data_stays_off_the_item() {
    let data = || {
        let mut data = NbtCompound::new();
        data.insert("id", text("minecraft:chest"));
        data.insert("x", NbtTag::Int(3));
        data
    };
    let key = id("block_entity_data");
    let mut picked = stack("chest");

    set_block_entity_data(&mut picked, &id("chest"), data(), &|_: &NbtCompound| false);
    assert!(picked.get_raw(&key).is_none());

    let without_id = |data: &NbtCompound| data.get_text("id").is_none();
    set_block_entity_data(&mut picked, &id("chest"), data(), &without_id);
    assert!(picked.get_raw(&key).is_some_and(|data| data.kind == ComponentKind::BlockEntityData));
}

#[test]
fn polling_ends_without_structures_or_chunks() {
    let mut locator = StructureLocator::new(3, true);
    let nowhere = |_: i32| Vec::new();
    let nothing = |_: &StructureLocateCandidate| -> Option<Identifier> { None };

    let poll = locator.poll(ChunkRequestState::Pending, Vec::new, &nowhere, &nothing);
    assert!(matches!(poll, StructureLocatePoll::Ready(None)));

    let mut locator = StructureLocator::new(3, true);
    let rings = || vec![candidate(9, 1, 900)];
    locator.poll(ChunkRequestState::Pending, rings, &nowhere, &nothing);
    let poll = locator.poll(ChunkRequestState::Cancelled, rings, &nowhere, &nothing);
    assert!(matches!(poll, StructureLocatePoll::Cancelled));
}

#[test]
fn generated_structures_are_found_among_the_starts() {
    let start = |path: &str, has_pieces| StructureStart {
        structure: id(path),
        has_pieces,
        references: 0,
    };
    let mut starts = vec![
        start("village", true),
        start("buried_treasure", false),
        start("shipwreck", true),
    ];

    let missing = generated_structure(&mut starts, &vec![id("buried_treasure")], false);
    let found = generated_structure(&mut starts, &vec![id("shipwreck")], true);

    assert!(missing.is_none());
    assert!(found.is_some_and(|found| found.is_vanilla("shipwreck")));
    assert_eq!(starts[2].references, 1);
    assert_eq!(starts[0].references, 0);
}

#[test]
fn read_components_are_consumed() {
    let mut placing = stack("chest");
    placing.set("rarity", ComponentData::integer(3));
    placing.set("damage", ComponentData::integer(5));
    let mut input = BlockEntityComponentInput::new(&placing);

    let given = input.get_or_default("rarity", ComponentData::integer(0));
    let missing = input.get_or_default("lock", ComponentData::integer(9));
    let explicit = input.retained();

    assert!(given.same(&ComponentData::integer(3)));
    assert!(missing.same(&ComponentData::integer(9)));
    assert!(explicit.get_raw(&id("rarity")).is_none());
    assert!(explicit.get_raw(&id("damage")).is_some());
}
