//! Furnaces: cooking, persistence, menu routing and slots.
use steel::behavior::furnace_block::{FurnaceBlock, FurnaceMenuProvider};
use steel::behavior::InteractionResult;
use steel::block_entity::components::BlockEntityComponentInput;
use steel::block_entity::entities::{Direction, FurnaceBlockEntity};
use steel::block_entity::fuel_values::{vanilla_fuel_values, FuelValues};
use steel::block_entity::furnace::{
    FurnaceContainer, FURNACE_FUEL_SLOT, FURNACE_INPUT_SLOT, FURNACE_RESULT_SLOT, FURNACE_SLOTS,
};
use steel::data_components::map::DataComponentMap;
use steel::data_components::{ComponentData, ComponentKind};
use steel::ident::Identifier;
use steel::inventory::furnace_menu::{furnace as furnace_menu, MoveRoute, MovedStack, QuickMove};
use steel::inventory::furnace_slots::{FurnaceFuelSlot, FurnaceResultSlot};
use steel::inventory::provider::{ContainerAccessResult, MenuCreation, MenuOutcome, MenuProvider};
use steel::inventory::section::{FillDirection, Section};
use steel::item_stack::{Item, ItemStack};
use steel::keyed::Tag;
use steel::nbt::{NbtCompound, NbtTag};
use steel::registry::{CraftingRemainder, Registry, Smelting};

fn id(path: &str) -> Identifier {
    Identifier::vanilla(path)
}

fn item(path: &str) -> Item {
    let mut components = DataComponentMap::new();
    components.set("max_stack_size", Some(ComponentData::integer(64)));
    Item { key: id(path), components }
}

fn stack(path: &str) -> ItemStack {
    ItemStack::new(&item(path))
}

fn smelting(recipe: &str, input: &str, output: &str) -> Smelting {
    Smelting {
        recipe: id(recipe),
        input: id(input),
        output: id(output),
        count: 1,
        cooking_time: 200,
    }
}

fn registry() -> Registry {
    let items = [
        "raw_iron",
        "iron_ingot",
        "coal",
        "lava_bucket",
        "bucket",
        "water_bucket",
        "wet_sponge",
        "sponge",
        "dirt",
        "oak_log",
        "charcoal",
        "tripwire_hook",
        "gold_ingot",
    ];
    Registry {
        items: items.iter().map(|path| item(path)).collect(),
        item_tags: vec![Tag { key: id("logs"), values: vec![id("oak_log")] }],
        enchantments: Vec::new(),
        enchantment_tags: Vec::new(),
        instruments: Vec::new(),
        instrument_tags: Vec::new(),
        structure_tags: Vec::new(),
        map_decoration_types: Vec::new(),
        potions: Vec::new(),
        mob_effects: Vec::new(),
        biome_tags: Vec::new(),
        block_tags: Vec::new(),
        component_types: Vec::new(),
        smelting: vec![
            smelting("iron_ingot_from_smelting_raw_iron", "raw_iron", "iron_ingot"),
            smelting("sponge", "wet_sponge", "sponge"),
            smelting("charcoal", "oak_log", "charcoal"),
        ],
        crafting_remainders: vec![CraftingRemainder {
            item: id("lava_bucket"),
            remainder: id("bucket"),
        }],
        loot_tables: Vec::new(),
    }
}

struct World {
    registry: Registry,
    fuels: FuelValues,
}

fn world() -> World {
    let registry = registry();
    let fuels = vanilla_fuel_values(&registry);
    World { registry, fuels }
}

/// The furnace with times of the flame and of cooking set through its saved form.
fn furnace_with_times(world: &World, timer: i16, total: i16) -> FurnaceContainer {
    let mut saved = NbtCompound::new();
    saved.insert("cooking_time_spent", NbtTag::Short(timer));
    saved.insert("cooking_total_time", NbtTag::Short(total));
    let mut furnace = FurnaceContainer::new();
    furnace.load(&saved, &world.registry);
    furnace
}

fn lit_time_remaining(furnace: &FurnaceContainer) -> i16 {
    furnace.menu_data()[0]
}

fn cooking_timer(furnace: &FurnaceContainer) -> i16 {
    furnace.menu_data()[2]
}

#[test]
fn smelting_advances_vanilla_timers_and_records_the_recipe() {
    let world = world();
    let mut furnace = FurnaceContainer::new();
    furnace.set_item(FURNACE_INPUT_SLOT, stack("raw_iron"), &world.registry);
    furnace.set_item(FURNACE_FUEL_SLOT, stack("coal"), &world.registry);

    for _ in 0..200 {
        furnace.server_tick(&world.fuels, &world.registry);
    }

    assert!(furnace.items()[FURNACE_RESULT_SLOT].is("iron_ingot"));
    assert!(furnace.items()[FURNACE_INPUT_SLOT].is_empty());
    assert_eq!(furnace.menu_data(), [1_401, 1_600, 0, 200]);
    let recipes = furnace.take_recipes_used();
    assert_eq!(recipes.len(), 1);
    assert_eq!(recipes[0].0.text(), "minecraft:iron_ingot_from_smelting_raw_iron");
    assert_eq!(recipes[0].1, 1);
    assert!(furnace.take_recipes_used().is_empty());
}

#[test]
fn repeated_smelting_counts_the_recipe_and_fills_the_result() {
    let world = world();
    let mut furnace = FurnaceContainer::new();
    furnace.set_item(
        FURNACE_INPUT_SLOT,
        ItemStack::with_count(&item("raw_iron"), 3),
        &world.registry,
    );
    furnace.set_item(FURNACE_FUEL_SLOT, stack("coal"), &world.registry);

    for _ in 0..600 {
        furnace.server_tick(&world.fuels, &world.registry);
    }

    assert_eq!(furnace.items()[FURNACE_RESULT_SLOT].count, 3);
    assert_eq!(furnace.take_recipes_used()[0].1, 3);
}

#[test]
fn full_output_prevents_ignition_and_fuel_consumption() {
    let world = world();
    let mut furnace = FurnaceContainer::new();
    furnace.set_item(FURNACE_INPUT_SLOT, stack("raw_iron"), &world.registry);
    furnace.set_item(FURNACE_FUEL_SLOT, stack("coal"), &world.registry);
    furnace.set_item(
        FURNACE_RESULT_SLOT,
        ItemStack::with_count(&item("iron_ingot"), 64),
        &world.registry,
    );

    let result = furnace.server_tick(&world.fuels, &world.registry);

    assert!(!result.is_lit);
    assert_eq!(lit_time_remaining(&furnace), 0);
    assert_eq!(furnace.items()[FURNACE_FUEL_SLOT].count, 1);
    assert_eq!(cooking_timer(&furnace), 0);
}

#[test]
fn wet_sponge_fills_the_consumed_lava_bucket_remainder() {
    let world = world();
    let mut furnace = FurnaceContainer::new();
    furnace.set_item(FURNACE_INPUT_SLOT, stack("wet_sponge"), &world.registry);
    furnace.set_item(FURNACE_FUEL_SLOT, stack("lava_bucket"), &world.registry);

    for _ in 0..200 {
        furnace.server_tick(&world.fuels, &world.registry);
    }

    assert!(furnace.items()[FURNACE_RESULT_SLOT].is("sponge"));
    assert!(furnace.items()[FURNACE_FUEL_SLOT].is("water_bucket"));
}

#[test]
fn stalled_progress_cools_by_two_ticks() {
    let world = world();
    let mut furnace = furnace_with_times(&world, 17, 200);

    furnace.server_tick(&world.fuels, &world.registry);

    assert_eq!(cooking_timer(&furnace), 15);
}

#[test]
fn progress_cools_down_to_nothing() {
    let world = world();
    let mut furnace = furnace_with_times(&world, 1, 200);

    furnace.server_tick(&world.fuels, &world.registry);

    assert_eq!(cooking_timer(&furnace), 0);
}

#[test]
fn unmatched_ingredient_with_fuel_preserves_loaded_progress() {
    let world = world();
    let mut saved = NbtCompound::new();
    let mut placed = FurnaceContainer::new();
    placed.set_item(FURNACE_INPUT_SLOT, stack("dirt"), &world.registry);
    placed.set_item(FURNACE_FUEL_SLOT, stack("coal"), &world.registry);
    placed.save(&mut saved, &world.registry.component_types);
    let mut furnace = FurnaceContainer::new();
    saved.put("cooking_time_spent", NbtTag::Short(17));
    saved.put("cooking_total_time", NbtTag::Short(200));
    furnace.load(&saved, &world.registry);

    furnace.server_tick(&world.fuels, &world.registry);

    assert_eq!(cooking_timer(&furnace), 17);
    assert_eq!(furnace.items()[FURNACE_FUEL_SLOT].count, 1);
}

#[test]
fn first_server_tick_ignites_and_synchronizes_the_lit_state() {
    let world = world();
    let mut furnace = FurnaceContainer::new();
    furnace.set_item(0, stack("raw_iron"), &world.registry);
    furnace.set_item(1, stack("coal"), &world.registry);

    let result = furnace.server_tick(&world.fuels, &world.registry);

    assert!(result.is_lit);
    assert!(result.lit_changed);
    assert!(result.changed);
    assert!(furnace.items()[0].is("raw_iron"));
    assert!(furnace.items()[1].is_empty());
    let next = furnace.server_tick(&world.fuels, &world.registry);
    assert!(next.is_lit);
    assert!(!next.lit_changed);
    assert!(!next.changed);
}

#[test]
fn another_ingredient_starts_anew_and_the_same_one_goes_on() {
    let world = world();
    let mut furnace = FurnaceContainer::new();
    furnace.set_item(FURNACE_INPUT_SLOT, stack("raw_iron"), &world.registry);
    furnace.set_item(FURNACE_FUEL_SLOT, stack("coal"), &world.registry);
    for _ in 0..5 {
        furnace.server_tick(&world.fuels, &world.registry);
    }

    furnace.set_item(
        FURNACE_INPUT_SLOT,
        ItemStack::with_count(&item("raw_iron"), 2),
        &world.registry,
    );
    assert_eq!(cooking_timer(&furnace), 5);
    furnace.set_item(FURNACE_INPUT_SLOT, stack("wet_sponge"), &world.registry);
    assert_eq!(cooking_timer(&furnace), 0);
    furnace.set_item(FURNACE_SLOTS, stack("dirt"), &world.registry);
    assert!(furnace.items()[FURNACE_INPUT_SLOT].is("wet_sponge"));
}

#[test]
fn persistence_round_trips_common_data_timers_and_recipes() {
    let world = world();
    let mut source = NbtCompound::new();
    source.insert("CustomName", NbtTag::Text("Saved Furnace".to_owned()));
    let mut lock = NbtCompound::new();
    lock.insert("count", NbtTag::Int(2));
    source.insert("lock", NbtTag::Compound(lock));
    source.insert("cooking_time_spent", NbtTag::Short(123));
    source.insert("cooking_total_time", NbtTag::Short(200));
    source.insert("lit_time_remaining", NbtTag::Short(456));
    source.insert("lit_total_time", NbtTag::Short(1_600));
    let mut recipes = NbtCompound::new();
    recipes.insert("minecraft:iron_ingot_from_smelting_raw_iron", NbtTag::Int(3));
    source.insert("RecipesUsed", NbtTag::Compound(recipes));

    let mut furnace = FurnaceContainer::new();
    furnace.load(&source, &world.registry);
    furnace.set_item(FURNACE_RESULT_SLOT, stack("iron_ingot"), &world.registry);
    let mut saved = NbtCompound::new();
    furnace.save(&mut saved, &world.registry.component_types);

    assert!(furnace.has_lock());
    assert!(furnace
        .display_name(NbtTag::Text("Default".to_owned()))
        .same(&NbtTag::Text("Saved Furnace".to_owned())));
    assert_eq!(cooking_timer(&furnace), 123);
    assert_eq!(lit_time_remaining(&furnace), 456);
    assert_eq!(
        saved
            .get_compound("RecipesUsed")
            .and_then(|recipes| recipes.get_int("minecraft:iron_ingot_from_smelting_raw_iron")),
        Some(3)
    );
    assert_eq!(
        saved.get_compound("lock").and_then(|lock| lock.get_int("count")),
        Some(2)
    );
    assert!(saved.get_list("Items").is_some());
    let mut again = FurnaceContainer::new();
    again.load(&saved, &world.registry);
    assert_eq!(again.menu_data(), furnace.menu_data());
    assert!(again.items()[FURNACE_RESULT_SLOT].is("iron_ingot"));
}

#[test]
fn unreadable_or_repeated_recipes_are_dropped_as_a_whole() {
    let world = world();
    let load = |entries: &[(&str, NbtTag)]| {
        let mut recipes = NbtCompound::new();
        for (name, tag) in entries {
            recipes.insert(name, tag.copy());
        }
        let mut saved = NbtCompound::new();
        saved.insert("RecipesUsed", NbtTag::Compound(recipes));
        let mut furnace = FurnaceContainer::new();
        furnace.load(&saved, &world.registry);
        furnace.take_recipes_used().len()
    };

    assert_eq!(load(&[("sponge", NbtTag::Int(1)), ("charcoal", NbtTag::Byte(2))]), 2);
    assert_eq!(load(&[("sponge", NbtTag::Int(1)), ("Not An Id", NbtTag::Int(2))]), 0);
    assert_eq!(load(&[("sponge", NbtTag::Text("one".to_owned()))]), 0);
    assert_eq!(
        load(&[("sponge", NbtTag::Int(1)), ("minecraft:sponge", NbtTag::Int(2))]),
        0
    );
}

#[test]
fn long_recipe_counts_keep_their_low_half() {
    let world = world();
    let mut recipes = NbtCompound::new();
    recipes.insert("sponge", NbtTag::Long(0x1_0000_0005));
    let mut saved = NbtCompound::new();
    saved.insert("RecipesUsed", NbtTag::Compound(recipes));
    let mut furnace = FurnaceContainer::new();
    furnace.load(&saved, &world.registry);

    assert_eq!(furnace.take_recipes_used()[0].1, 5);
}

#[test]
fn locked_furnace_requires_the_key_item_unless_the_player_is_a_spectator() {
    let world = world();
    let mut lock = NbtCompound::new();
    lock.insert("items", NbtTag::Text("minecraft:tripwire_hook".to_owned()));
    let mut saved = NbtCompound::new();
    saved.insert("lock", NbtTag::Compound(lock));
    let mut furnace = FurnaceContainer::new();
    furnace.load(&saved, &world.registry);
    let key_fits = |held: &ItemStack| held.is("tripwire_hook");

    assert!(!furnace.can_open(false, key_fits(&ItemStack::empty())));
    assert!(furnace.can_open(false, key_fits(&stack("tripwire_hook"))));
    assert!(!furnace.can_open(false, key_fits(&ItemStack::empty())));
    assert!(furnace.can_open(true, key_fits(&ItemStack::empty())));
}

#[test]
fn fuel_and_buckets_may_be_placed_as_fuel() {
    let world = world();
    let mut furnace = FurnaceContainer::new();

    assert!(furnace.can_place_item(FURNACE_FUEL_SLOT, &stack("coal"), &world.fuels));
    assert!(furnace.can_place_item(FURNACE_FUEL_SLOT, &stack("bucket"), &world.fuels));
    assert!(!furnace.can_place_item(FURNACE_FUEL_SLOT, &stack("dirt"), &world.fuels));
    assert!(furnace.can_place_item(FURNACE_INPUT_SLOT, &stack("dirt"), &world.fuels));
    assert!(!furnace.can_place_item(FURNACE_RESULT_SLOT, &stack("coal"), &world.fuels));
    furnace.set_item(FURNACE_FUEL_SLOT, stack("bucket"), &world.registry);
    assert!(!furnace.can_place_item(FURNACE_FUEL_SLOT, &stack("bucket"), &world.fuels));
}

#[test]
fn removed_furnace_hands_out_its_items() {
    let world = world();
    let mut furnace = FurnaceContainer::new();
    furnace.set_item(FURNACE_FUEL_SLOT, stack("coal"), &world.registry);

    let items = furnace.take_items();

    assert_eq!(items.len(), 3);
    assert!(items[FURNACE_FUEL_SLOT].is("coal"));
    assert!(furnace.items().iter().all(ItemStack::is_empty));
}

#[test]
fn placed_furnace_takes_its_name_from_the_item() {
    let world = world();
    let mut placing = stack("dirt");
    placing.set(
        "custom_name",
        ComponentData::new(ComponentKind::Text, NbtTag::Text("Smelter".to_owned())),
    );
    let mut furnace = FurnaceContainer::new();
    let mut input = BlockEntityComponentInput::new(&placing);

    furnace.apply_implicit_components(&mut input, &world.registry);

    let mut components = DataComponentMap::new();
    furnace.collect_implicit_components(&mut components, &world.registry.component_types);
    assert!(furnace
        .display_name(NbtTag::Text("Furnace".to_owned()))
        .same(&NbtTag::Text("Smelter".to_owned())));
}

#[test]
fn ticker_is_selected_only_for_the_normal_furnace_entity() {
    let behavior = FurnaceBlock::new(id("furnace"));

    assert!(behavior.get_block_entity_ticker(&id("furnace")));
    assert!(!behavior.get_block_entity_ticker(&id("chest")));
}

#[test]
fn furnace_block_faces_the_player_and_opens() {
    let behavior = FurnaceBlock::new(id("furnace"));

    assert_eq!(behavior.get_state_for_placement(Direction::North), Direction::South);
    let used = behavior.use_without_item(true);
    assert_eq!(used.result, InteractionResult::Success);
    assert!(used.opens_menu);
    assert!(!behavior.use_without_item(false).opens_menu);
    assert_eq!(behavior.get_analog_output_signal(Some(7)), 7);
    assert_eq!(behavior.get_analog_output_signal(None), 0);
}

#[test]
fn locked_furnace_notifies_the_player() {
    let provider = |is_furnace: bool, can_open: bool, has_container: bool| {
        FurnaceMenuProvider { is_furnace, can_open, has_container }
            .create_menu(|| ContainerAccessResult::Failed)
    };

    assert_eq!(
        provider(true, true, true),
        MenuOutcome { creation: MenuCreation::Opened, notify_locked: false }
    );
    assert_eq!(
        provider(true, false, true),
        MenuOutcome { creation: MenuCreation::Unavailable, notify_locked: true }
    );
    assert_eq!(provider(false, true, true).creation, MenuCreation::Unavailable);
    assert_eq!(provider(true, true, false).creation, MenuCreation::Unavailable);
}

/// A menu over a furnace and a player's inventory that moves whole stacks into empty
/// slots.
fn quick_move(
    world: &World,
    furnace: &mut FurnaceContainer,
    slot: usize,
    moved: ItemStack,
) -> QuickMove {
    let kind = furnace_menu();
    let held = moved.copy();
    let result = kind.quick_move(slot, moved, &world.fuels, &world.registry, |route| {
        let target = route.target.start;
        if target < FURNACE_SLOTS && furnace.items()[target].is_empty() {
            furnace.set_item(target, held.copy(), &world.registry);
            MovedStack { moved: true, remaining: held.copy_with_count(0) }
        } else {
            MovedStack { moved: false, remaining: held.copy() }
        }
    });
    result
}

#[test]
fn quick_move_prefers_smelting_input_then_fuel() {
    let world = world();
    let mut furnace = FurnaceContainer::new();

    let first = quick_move(&world, &mut furnace, 3, stack("raw_iron"));
    let second = quick_move(&world, &mut furnace, 4, stack("coal"));

    assert!(furnace.items()[FURNACE_INPUT_SLOT].is("raw_iron"));
    assert!(furnace.items()[FURNACE_FUEL_SLOT].is("coal"));
    assert!(matches!(first, QuickMove::Taken { .. }));
    assert!(matches!(second, QuickMove::Taken { .. }));
}

#[test]
fn full_smelting_input_does_not_fallback_to_the_hotbar() {
    let world = world();
    let mut furnace = FurnaceContainer::new();
    furnace.set_item(
        FURNACE_INPUT_SLOT,
        ItemStack::with_count(&item("raw_iron"), 64),
        &world.registry,
    );
    let kind = furnace_menu();
    let mut routes = Vec::new();

    let result = kind.quick_move(3, stack("raw_iron"), &world.fuels, &world.registry, |route| {
        routes.push(route);
        MovedStack { moved: false, remaining: stack("raw_iron") }
    });

    assert!(matches!(result, QuickMove::Nothing));
    assert_eq!(
        routes,
        [MoveRoute { target: Section { start: 0, end: 1 }, direction: FillDirection::Forward }]
    );
}

#[test]
fn quick_move_routes_follow_the_menu() {
    let world = world();
    let kind = furnace_menu();
    let route = |slot: usize, path: &str| {
        kind.quick_move_route(slot, &stack(path), &world.fuels, &world.registry)
            .map(|route| (route.target.start, route.target.end, route.direction))
    };

    assert_eq!(kind.slot_count(), 39);
    assert_eq!(route(2, "iron_ingot"), Some((3, 39, FillDirection::Backward)));
    assert_eq!(route(0, "raw_iron"), Some((3, 39, FillDirection::Forward)));
    assert_eq!(route(1, "coal"), Some((3, 39, FillDirection::Forward)));
    assert_eq!(route(3, "oak_log"), Some((0, 1, FillDirection::Forward)));
    assert_eq!(route(3, "dirt"), Some((30, 39, FillDirection::Forward)));
    assert_eq!(route(30, "dirt"), Some((3, 30, FillDirection::Forward)));
    assert_eq!(route(39, "dirt"), None);
    assert!(kind
        .quick_move_route(3, &ItemStack::empty(), &world.fuels, &world.registry)
        .is_none());
}

#[test]
fn unmoved_counts_are_not_taken() {
    let world = world();
    let kind = furnace_menu();

    let result = kind.quick_move(2, stack("iron_ingot"), &world.fuels, &world.registry, |_| {
        MovedStack { moved: true, remaining: stack("iron_ingot") }
    });

    assert!(matches!(result, QuickMove::Untaken { .. }));
}

#[test]
fn empty_buckets_are_limited_to_one_in_the_fuel_slot() {
    let world = world();
    let slot = FurnaceFuelSlot::new(FURNACE_FUEL_SLOT);
    let mut inserted = ItemStack::with_count(&item("bucket"), 16);

    let limit = slot.get_max_stack_size_for_item(&inserted, 64);
    let taken = inserted.split(limit);

    assert!(slot.may_place(&taken, &world.fuels));
    assert_eq!(taken.count, 1);
    assert_eq!(inserted.count, 15);
    assert_eq!(slot.get_max_stack_size_for_item(&stack("coal"), 64), 64);
    assert_eq!(slot.get_container_slot(), 1);
    assert!(!slot.may_place(&stack("dirt"), &world.fuels));
}

#[test]
fn opening_copies_all_four_furnace_data_values() {
    let world = world();
    let mut source = NbtCompound::new();
    source.insert("lit_time_remaining", NbtTag::Short(321));
    source.insert("lit_total_time", NbtTag::Short(1_600));
    source.insert("cooking_time_spent", NbtTag::Short(123));
    source.insert("cooking_total_time", NbtTag::Short(200));
    let mut furnace = FurnaceContainer::new();
    furnace.load(&source, &world.registry);
    let mut kind = furnace_menu();
    assert_eq!(kind.data, [0, 0, 0, 0]);

    kind.sync_data(&furnace);

    assert_eq!(kind.data, [321, 1_600, 123, 200]);
}

#[test]
fn taking_result_pays_and_clears_accumulated_recipe_experience() {
    let world = world();
    let mut source = NbtCompound::new();
    let mut recipes = NbtCompound::new();
    recipes.insert("minecraft:gold_ingot_from_smelting_raw_gold", NbtTag::Int(7));
    source.insert("RecipesUsed", NbtTag::Compound(recipes));
    let mut furnace = FurnaceContainer::new();
    furnace.load(&source, &world.registry);
    furnace.set_item(FURNACE_RESULT_SLOT, stack("gold_ingot"), &world.registry);
    let slot = FurnaceResultSlot::new(FURNACE_RESULT_SLOT);

    let paid = slot.on_take(&mut furnace);

    assert!(!slot.may_place(&stack("gold_ingot")));
    assert_eq!(slot.get_container_slot(), 2);
    assert_eq!(paid.len(), 1);
    assert_eq!(paid[0].0.text(), "minecraft:gold_ingot_from_smelting_raw_gold");
    // One experience point for each ingot.
    let experience = paid.iter().map(|(_, count)| *count as f32 * 1.0).sum::<f32>() as i32;
    assert_eq!(experience, 7);
    let mut saved = NbtCompound::new();
    furnace.save(&mut saved, &world.registry.component_types);
    assert!(saved.get_compound("RecipesUsed").is_some_and(NbtCompound::is_empty));
}

#[test]
fn a_burning_furnace_lights_its_block_once() {
    let world = world();
    let mut furnace = FurnaceBlockEntity::new();
    furnace.container.set_item(FURNACE_INPUT_SLOT, stack("raw_iron"), &world.registry);
    furnace.container.set_item(FURNACE_FUEL_SLOT, stack("coal"), &world.registry);

    let first = furnace.tick(&world.fuels, &world.registry);
    let second = furnace.tick(&world.fuels, &world.registry);

    assert_eq!(first, (Some(true), true));
    assert_eq!(second, (None, false));
    assert!(furnace.can_open(false, false));
}

#[test]
fn a_removed_furnace_spills_items_and_owed_recipes() {
    let world = world();
    let mut furnace = FurnaceBlockEntity::new();
    furnace.container.set_item(FURNACE_INPUT_SLOT, stack("raw_iron"), &world.registry);
    furnace.container.set_item(FURNACE_FUEL_SLOT, stack("coal"), &world.registry);
    for _ in 0..200 {
        furnace.tick(&world.fuels, &world.registry);
    }

    let Some(spill) = furnace.pre_remove_side_effects(true) else {
        panic!("in a world a furnace should spill");
    };

    assert!(spill.items.iter().any(|item| item.is("iron_ingot")));
    assert_eq!(spill.recipes.len(), 1);
    assert_eq!(spill.recipes[0].1, 1);
    assert!(furnace.container.items().iter().all(ItemStack::is_empty));
    assert!(furnace.pre_remove_side_effects(false).is_none());
}

#[test]
fn a_negative_total_time_only_matters_while_progress_goes_down() {
    let world = world();
    let mut saved = NbtCompound::new();
    saved.insert("cooking_time_spent", NbtTag::Short(5));
    saved.insert("cooking_total_time", NbtTag::Short(-1));
    let mut furnace = FurnaceContainer::new();
    furnace.load(&saved, &world.registry);
    assert!(!furnace.can_tick());

    furnace.set_item(FURNACE_FUEL_SLOT, stack("coal"), &world.registry);
    furnace.set_item(FURNACE_INPUT_SLOT, stack("raw_iron"), &world.registry);

    assert!(furnace.can_tick());
}
