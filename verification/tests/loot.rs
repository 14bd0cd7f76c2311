//! Loot tables: numbers, functions, conditions, generation and filling.
use steel::block_entity::randomizable_container::PendingMapResolver;
use steel::data_components::map::DataComponentMap;
use steel::data_components::{ComponentData, ComponentKind, DataComponentGetter};
use steel::ident::Identifier;
use steel::item_stack::{Item, ItemStack};
use steel::keyed::{Named, Tag};
use steel::loot_table::conditions::{
    BlockPos, BlockPredicate, BlockState, EntityPredicate, EntityRef, HolderSet, LocationPredicate,
    LootCondition, LootContext, LootContextEntity, LootLevel, ToolPredicate,
};
use steel::loot_table::entries::{LootEntry, LootPool, LootTable, LootType};
use steel::loot_table::error::LootError;
use steel::loot_table::functions::{
    BonusFormula, ConditionalLootFunction, CopySource, EnchantmentOptions, InstrumentOptions,
    LootFunction, LootState, LootText, NameTarget, StewEffect,
};
use steel::loot_table::number::{NumberProvider, NumberProviderRange};
use steel::map::packet::MapDecorationType;
use steel::nbt::{NbtCompound, NbtTag};
use steel::random::{next_i32_between, LegacyRandom, Random, UNIT_STEPS};
use steel::registry::{Enchantment, MobEffect, Registry, Smelting};

fn id(path: &str) -> Identifier {
    Identifier::vanilla(path)
}

/// A number as a numerator over the number of unit steps.
fn number(value: f64) -> i64 {
    (value * f64::from(UNIT_STEPS)) as i64
}

fn constant(value: f64) -> NumberProvider {
    NumberProvider::Constant(number(value))
}

fn uniform(min: f64, max: f64) -> NumberProvider {
    NumberProvider::Uniform { min: number(min), max: number(max) }
}

fn item(path: &str) -> Item {
    let mut components = DataComponentMap::new();
    let size = match path {
        "iron_sword" | "diamond_sword" | "potion" | "goat_horn" | "suspicious_stew" => 1,
        _ => 64,
    };
    components.set("max_stack_size", Some(ComponentData::integer(size)));
    match path {
        "iron_sword" => components.set("max_damage", Some(ComponentData::integer(250))),
        "diamond_sword" => {
            components.set("max_damage", Some(ComponentData::integer(1_561)));
            components.set(
                "enchantable",
                Some(ComponentData::number(ComponentKind::Enchantable, 10)),
            );
        }
        "book" => components.set(
            "enchantable",
            Some(ComponentData::number(ComponentKind::Enchantable, 1)),
        ),
        _ => {}
    }
    Item { key: id(path), components }
}

fn stack(path: &str) -> ItemStack {
    ItemStack::new(&item(path))
}

fn tag(path: &str, values: &[&str]) -> Tag {
    Tag { key: id(path), values: values.iter().map(|value| id(value)).collect() }
}

fn named(path: &str) -> Named {
    Named { key: id(path) }
}

fn enchantment(path: &str, weight: i32, max_level: i32, cost: [i32; 4]) -> Enchantment {
    Enchantment {
        key: id(path),
        min_level: 1,
        max_level,
        weight,
        min_cost: cost[0],
        min_cost_per_level: cost[1],
        max_cost: cost[2],
        max_cost_per_level: cost[3],
        supported_items: vec![id("diamond_sword")],
        exclusive_with: Vec::new(),
    }
}

fn registry() -> Registry {
    let items = [
        "stone", "dirt", "barrier", "iron_sword", "diamond_sword", "oak_log", "diamond",
        "diamond_ore", "grass_block", "cobblestone", "porkchop", "cooked_porkchop", "gravel",
        "flint", "goat_horn", "ominous_bottle", "potion", "suspicious_stew", "filled_map", "map",
        "book", "enchanted_book", "chest", "wheat_seeds", "air",
    ];
    let mut sharpness = enchantment("sharpness", 10, 5, [1, 11, 21, 11]);
    sharpness.exclusive_with = vec![id("smite")];
    let mut smite = enchantment("smite", 5, 5, [5, 8, 25, 8]);
    smite.exclusive_with = vec![id("sharpness")];
    Registry {
        items: items.iter().map(|path| item(path)).collect(),
        item_tags: vec![tag("stones", &["stone", "cobblestone"])],
        enchantments: vec![
            sharpness,
            smite,
            enchantment("mending", 2, 1, [25, 25, 75, 25]),
            enchantment("wind_burst", 2, 3, [15, 9, 65, 9]),
            enchantment("fortune", 2, 3, [15, 9, 65, 9]),
            enchantment("silk_touch", 1, 1, [15, 0, 65, 0]),
        ],
        enchantment_tags: vec![tag("damage", &["sharpness", "smite"])],
        instruments: vec![named("ponder_goat_horn"), named("sing_goat_horn"), named("admire_goat_horn")],
        instrument_tags: vec![tag("regular_goat_horns", &["ponder_goat_horn", "sing_goat_horn"])],
        structure_tags: vec![tag("on_treasure_maps", &["buried_treasure"])],
        map_decoration_types: vec![MapDecorationType { key: id("red_x"), map_color: None }],
        potions: vec![named("healing")],
        mob_effects: vec![
            MobEffect { key: id("saturation"), instantaneous: true },
            MobEffect { key: id("night_vision"), instantaneous: false },
        ],
        biome_tags: Vec::new(),
        block_tags: vec![tag("replaceable", &["tall_grass"])],
        component_types: Vec::new(),
        smelting: vec![Smelting {
            recipe: id("cooked_porkchop"),
            input: id("porkchop"),
            output: id("cooked_porkchop"),
            count: 1,
            cooking_time: 200,
        }],
        crafting_remainders: Vec::new(),
        loot_tables: Vec::new(),
    }
}

type State = LootState<LegacyRandom, PendingMapResolver>;

fn state_for(seed: u64) -> State {
    LootState { random: LegacyRandom::from_seed(seed), maps: None }
}

fn test_state() -> State {
    state_for(12_345)
}

fn plain(function: LootFunction) -> ConditionalLootFunction {
    ConditionalLootFunction { function, conditions: Vec::new() }
}

fn set_count(count: f64) -> LootFunction {
    LootFunction::SetCount { count: constant(count), add: false }
}

fn drop_item(
    path: &str,
    conditions: Vec<LootCondition>,
    functions: Vec<ConditionalLootFunction>,
) -> LootEntry {
    LootEntry::Item { name: id(path), weight: 1, quality: 0, conditions, functions }
}

fn alternatives(children: Vec<LootEntry>) -> LootEntry {
    LootEntry::Alternatives { children, conditions: Vec::new() }
}

fn pool(entries: Vec<LootEntry>) -> LootPool {
    LootPool {
        rolls: constant(1.0),
        bonus_rolls: 0,
        entries,
        conditions: Vec::new(),
        functions: Vec::new(),
    }
}

fn table(key: Identifier, loot_type: LootType, pools: Vec<LootPool>) -> LootTable {
    LootTable { key, loot_type, pools, functions: Vec::new(), random_sequence: None }
}

fn fill_table() -> LootTable {
    table(
        Identifier::new("steel", "test/deterministic_fill"),
        LootType::Chest,
        vec![
            pool(vec![drop_item("stone", Vec::new(), vec![plain(set_count(70.0))])]),
            pool(vec![drop_item("dirt", Vec::new(), vec![plain(set_count(7.0))])]),
            pool(vec![drop_item("iron_sword", Vec::new(), Vec::new())]),
        ],
    )
}

fn silk_touch() -> LootCondition {
    LootCondition::MatchTool(ToolPredicate {
        items: None,
        enchantments: vec![(id("silk_touch"), 1)],
    })
}

/// A block that drops itself with silk touch, and something else without.
fn silk_touch_table(
    block: &str,
    other: &str,
    conditions: Vec<LootCondition>,
    functions: Vec<ConditionalLootFunction>,
) -> LootTable {
    table(
        id(&format!("blocks/{block}")),
        LootType::Block,
        vec![pool(vec![alternatives(vec![
            drop_item(block, vec![silk_touch()], Vec::new()),
            drop_item(other, conditions, functions),
        ])])],
    )
}

fn drops(table: &LootTable, registry: &Registry) -> Vec<ItemStack> {
    let context = LootContext::new(registry);
    match table.get_random_items(&context, &mut test_state()) {
        Ok(items) => items,
        Err(error) => panic!("loot should evaluate: {error:?}"),
    }
}

fn assert_single(items: &[ItemStack], path: &str) {
    assert_eq!(items.len(), 1);
    assert_eq!(items[0].count, 1);
    assert!(items[0].is(path));
}

fn apply(function: LootFunction, stack: &mut ItemStack, context: &LootContext, state: &mut State) {
    if let Err(error) = function.apply(stack, context, state) {
        panic!("function should evaluate: {error:?}");
    }
}

#[test]
fn number_provider_integer_conversion_matches_java_round() {
    let mut random = LegacyRandom::from_seed(12_345);
    let mut get_int = |provider: NumberProvider| match provider.get_int(None, &mut random) {
        Ok(value) => value,
        Err(_) => panic!("provider should evaluate"),
    };

    assert_eq!(get_int(constant(0.5)), 1);
    assert_eq!(get_int(constant(-0.5)), 0);
    assert_eq!(get_int(uniform(1.5, 1.5)), 2);
}

#[test]
fn unsupported_number_providers_are_refused() {
    let mut random = LegacyRandom::from_seed(1);

    let score = NumberProvider::Score { target: id("this") }.get_int(None, &mut random);
    let storage = NumberProvider::Storage { storage: id("numbers") }.get_int(None, &mut random);

    assert!(matches!(score, Err(LootError::UnsupportedNumberProvider("score"))));
    assert!(matches!(storage, Err(LootError::UnsupportedNumberProvider("storage"))));
}

#[test]
fn fill_matches_vanilla_split_and_shuffle_order() {
    let registry = registry();
    let mut items = (0..9).map(|_| ItemStack::empty()).collect::<Vec<_>>();
    items[4] = stack("barrier");
    let context = LootContext::new(&registry);

    let filled = fill_table().fill(&mut items, &context, &mut state_for(42));

    assert!(filled.is_ok());
    let actual = items
        .iter()
        .map(|stack| (stack.item.key.text(), stack.count))
        .collect::<Vec<_>>();
    let expected = [
        ("stone", 35),
        ("stone", 6),
        ("dirt", 5),
        ("dirt", 1),
        ("barrier", 1),
        ("stone", 9),
        ("iron_sword", 1),
        ("stone", 20),
        ("dirt", 1),
    ];
    assert_eq!(actual.len(), expected.len());
    for (actual, expected) in actual.iter().zip(expected) {
        assert_eq!(actual, &(id(expected.0).text(), expected.1));
    }
}

#[test]
fn fill_discards_overflow_without_replacing_occupied_slots() {
    let registry = registry();
    let mut items = vec![stack("barrier"), ItemStack::empty()];
    let context = LootContext::new(&registry);

    let filled = fill_table().fill(&mut items, &context, &mut state_for(42));

    assert!(filled.is_ok());
    assert!(items[0].is("barrier"));
    assert!(!items[1].is_empty());
}

#[test]
fn test_oak_log_loot() {
    let registry = registry();
    let table = table(
        id("blocks/oak_log"),
        LootType::Block,
        vec![pool(vec![drop_item("oak_log", vec![LootCondition::SurvivesExplosion], Vec::new())])],
    );

    assert_single(&drops(&table, &registry), "oak_log");
}

#[test]
fn test_diamond_ore_loot_no_silk_touch() {
    let registry = registry();
    let bonus = LootFunction::ApplyBonus {
        enchantment: id("fortune"),
        formula: BonusFormula::OreDrops,
    };
    let table = silk_touch_table(
        "diamond_ore",
        "diamond",
        Vec::new(),
        vec![plain(bonus), plain(LootFunction::ExplosionDecay)],
    );

    assert_single(&drops(&table, &registry), "diamond");
}

#[test]
fn test_grass_block_loot_no_silk_touch() {
    let registry = registry();
    let table =
        silk_touch_table("grass_block", "dirt", vec![LootCondition::SurvivesExplosion], Vec::new());

    assert_single(&drops(&table, &registry), "dirt");
}

#[test]
fn test_stone_loot_no_silk_touch() {
    let registry = registry();
    let table =
        silk_touch_table("stone", "cobblestone", vec![LootCondition::SurvivesExplosion], Vec::new());

    assert_single(&drops(&table, &registry), "cobblestone");
}

#[test]
fn silk_touch_drops_the_block_itself() {
    let registry = registry();
    let table = silk_touch_table("stone", "cobblestone", Vec::new(), Vec::new());
    let mut tool = stack("diamond_sword");
    tool.set_enchantments(&vec![(id("silk_touch"), 1)]);
    let mut context = LootContext::new(&registry);
    context.tool = Some(&tool);

    let items = table.get_random_items(&context, &mut test_state());

    assert!(items.is_ok_and(|items| items.len() == 1 && items[0].is("stone")));
}

fn pig_table() -> LootTable {
    let smelt = ConditionalLootFunction {
        function: LootFunction::FurnaceSmelt { use_input_count: true },
        conditions: vec![LootCondition::EntityProperties {
            entity: LootContextEntity::This,
            predicate: EntityPredicate { entity_type: None, is_on_fire: Some(true) },
        }],
    };
    let count = LootFunction::SetCount { count: uniform(1.0, 3.0), add: false };
    table(
        id("entities/pig"),
        LootType::Entity,
        vec![pool(vec![drop_item("porkchop", Vec::new(), vec![plain(count), smelt])])],
    )
}

fn pig_drops(is_on_fire: bool) -> Vec<ItemStack> {
    let registry = registry();
    let pig = EntityRef { entity_type: id("pig"), is_on_fire };
    let mut context = LootContext::new(&registry);
    context.this_entity = Some(&pig);
    match pig_table().get_random_items(&context, &mut test_state()) {
        Ok(items) => items,
        Err(_) => panic!("pig loot should evaluate"),
    }
}

#[test]
fn test_pig_loot_drops_raw_porkchop_when_not_on_fire() {
    let items = pig_drops(false);

    assert_eq!(items.len(), 1);
    assert!(items[0].is("porkchop"));
    assert!((1..=3).contains(&items[0].count));
}

#[test]
fn test_pig_loot_smelt_condition_uses_entity_fire_flag() {
    let items = pig_drops(true);

    assert_eq!(items.len(), 1);
    assert!(items[0].is("cooked_porkchop"));
    assert!((1..=3).contains(&items[0].count));
}

#[test]
fn set_instrument_selects_from_the_configured_holder_set() {
    let registry = registry();
    let context = LootContext::new(&registry);
    let mut goat_horn = stack("goat_horn");

    apply(
        LootFunction::SetInstrument { options: InstrumentOptions::Tag(id("regular_goat_horns")) },
        &mut goat_horn,
        &context,
        &mut test_state(),
    );

    let Some(data) = goat_horn.get_raw(&id("instrument")) else {
        panic!("set_instrument should select a registered instrument");
    };
    let NbtTag::Text(selected) = &data.value else {
        panic!("an instrument should be a reference");
    };
    assert!(["minecraft:ponder_goat_horn", "minecraft:sing_goat_horn"].contains(&selected.as_str()));
}

#[test]
fn test_explosion_decay_function() {
    let registry = registry();
    let mut total_survived = 0;
    let initial_count = 10;
    let mut state = test_state();
    let mut context = LootContext::new(&registry);
    context.explosion_survival = Some(number(1.0 / 4.0) as u32);

    for _ in 0..100 {
        let mut item = ItemStack::with_count(&item("stone"), initial_count);
        apply(LootFunction::ExplosionDecay, &mut item, &context, &mut state);
        total_survived += item.count;
    }

    assert!(
        total_survived > 150 && total_survived < 350,
        "Expected ~250 items with explosion decay (25% of 1000), got {total_survived}"
    );
}

#[test]
fn test_survives_explosion_condition() {
    let registry = registry();
    let table = table(
        id("blocks/gravel"),
        LootType::Block,
        vec![pool(vec![alternatives(vec![
            drop_item("gravel", vec![silk_touch()], Vec::new()),
            LootEntry::Alternatives {
                children: vec![
                    drop_item(
                        "flint",
                        vec![LootCondition::TableBonus {
                            enchantment: id("fortune"),
                            chances: vec![number(0.1), number(0.142_857_15), number(0.25), number(1.0)],
                        }],
                        Vec::new(),
                    ),
                    drop_item("gravel", Vec::new(), Vec::new()),
                ],
                conditions: vec![LootCondition::SurvivesExplosion],
            },
        ])])],
    );
    let mut context = LootContext::new(&registry);
    context.explosion_survival = Some(number(1.0 / 4.0) as u32);
    let mut state = test_state();
    let mut survived = 0;

    for _ in 0..100 {
        let items = match table.get_random_items(&context, &mut state) {
            Ok(items) => items,
            Err(_) => panic!("gravel loot should evaluate"),
        };
        if !items.is_empty() {
            survived += 1;
        }
    }

    assert!(survived > 10 && survived < 50, "Expected ~25% survival rate, got {survived}%");
}

#[test]
fn ominous_bottle_amplifier_function_clamps_to_persistent_range() {
    let registry = registry();
    let context = LootContext::new(&registry);

    for (provided, expected) in [(-3.0, 0), (2.0, 2), (9.0, 4)] {
        let mut item = stack("ominous_bottle");
        apply(
            LootFunction::SetOminousBottleAmplifier { amplifier: constant(provided) },
            &mut item,
            &context,
            &mut test_state(),
        );
        assert_eq!(
            item.get_number("ominous_bottle_amplifier", ComponentKind::OminousBottleAmplifier),
            Some(expected)
        );
    }
}

fn shipwreck_map(destination: &str, zoom: i32) -> LootTable {
    let explore = LootFunction::ExplorationMap {
        destination: id(destination),
        decoration: id("red_x"),
        zoom,
        search_radius: 50,
        skip_existing_chunks: false,
    };
    table(
        id("chests/shipwreck_map"),
        LootType::Chest,
        vec![pool(vec![drop_item("map", Vec::new(), vec![plain(explore)])])],
    )
}

#[test]
fn exploration_map_defaults_match_vanilla_structure_tag_and_radius() {
    let registry = registry();

    let Ok(requirements) = shipwreck_map("on_treasure_maps", 1).requirements(&registry) else {
        panic!("shipwreck map requirements should validate");
    };

    let [request] = requirements.exploration_maps().as_slice() else {
        panic!("shipwreck map should require exactly one exploration lookup");
    };
    assert_eq!(request.destination.text(), "minecraft:on_treasure_maps");
    assert_eq!(request.decoration.text(), "minecraft:red_x");
    assert_eq!(request.zoom, 1);
    assert_eq!(request.search_radius, 50);
    assert!(!request.skip_existing_chunks);
}

#[test]
fn requirements_refuse_what_is_not_registered() {
    let registry = registry();
    let refusal = |entry: LootEntry| {
        table(id("test"), LootType::Generic, vec![pool(vec![entry])]).requirements(&registry).err()
    };

    assert!(matches!(
        shipwreck_map("on_treasure_maps", 200).requirements(&registry).err(),
        Some(LootError::InvalidExplorationMapZoom(200))
    ));
    assert!(matches!(
        shipwreck_map("nowhere", 1).requirements(&registry).err(),
        Some(LootError::UnknownRegistryTag { registry: "structure", .. })
    ));
    assert!(matches!(
        refusal(drop_item("bedrock", Vec::new(), Vec::new())),
        Some(LootError::UnknownRegistryValue { registry: "item", .. })
    ));
    assert!(matches!(
        refusal(drop_item(
            "stone",
            vec![LootCondition::Reference(id("other"))],
            Vec::new()
        )),
        Some(LootError::UnsupportedCondition("reference"))
    ));
    assert!(matches!(
        refusal(drop_item(
            "stone",
            Vec::new(),
            vec![plain(LootFunction::Reference(id("other")))]
        )),
        Some(LootError::UnsupportedFunction("reference"))
    ));
    assert!(matches!(
        refusal(LootEntry::Dynamic { name: id("contents"), conditions: Vec::new() }),
        Some(LootError::UnsupportedEntry("dynamic"))
    ));
}

#[test]
fn checked_tables_list_their_lookups_in_order() {
    let registry = registry();
    let mut table = shipwreck_map("on_treasure_maps", 1);
    table.pools.extend(shipwreck_map("on_treasure_maps", 2).pools);

    let Ok(requirements) = table.requirements(&registry) else {
        panic!("both maps should validate");
    };
    let zooms: Vec<i32> =
        requirements.exploration_maps().iter().map(|request| request.zoom).collect();
    assert_eq!(zooms, [1, 2]);

    table.pools.extend(shipwreck_map("nowhere", 3).pools);
    assert!(table.requirements(&registry).is_err());
}

#[test]
fn generated_items_hold_something_and_follow_those_before() {
    let registry = registry();
    let nothing = || drop_item("dirt", Vec::new(), vec![plain(set_count(0.0))]);
    let mut cleared = pool(vec![drop_item("gravel", Vec::new(), Vec::new())]);
    cleared.functions = vec![plain(set_count(0.0))];
    let table = table(
        id("test"),
        LootType::Generic,
        vec![
            pool(vec![drop_item("stone", Vec::new(), vec![plain(set_count(3.0))])]),
            pool(vec![nothing()]),
            pool(vec![alternatives(vec![
                nothing(),
                drop_item("flint", Vec::new(), Vec::new()),
                drop_item("gravel", Vec::new(), Vec::new()),
            ])]),
            cleared,
        ],
    );

    let items = drops(&table, &registry);

    assert_eq!(items.len(), 2);
    assert!(items[0].is("stone"));
    assert_eq!(items[0].count, 3);
    assert!(items[1].is("flint"));
    assert_eq!(items[1].count, 1);
}

#[test]
fn tables_that_refer_to_each_other_are_refused() {
    let mut registry = registry();
    let refer = |path: &str| LootEntry::LootTableRef {
        name: id(path),
        weight: 1,
        quality: 0,
        conditions: Vec::new(),
        functions: Vec::new(),
    };
    registry.loot_tables = vec![
        table(id("first"), LootType::Generic, vec![pool(vec![refer("second")])]),
        table(id("second"), LootType::Generic, vec![pool(vec![refer("first")])]),
    ];

    let refused = registry.loot_tables[0].requirements(&registry).err();

    assert!(matches!(
        refused,
        Some(LootError::UnsupportedEntry("recursive loot-table reference"))
    ));
}

#[test]
fn exploration_map_without_a_resolver_is_required() {
    let registry = registry();
    let mut context = LootContext::new(&registry);
    context.origin = Some(BlockPos { x: 0, y: 0, z: 0 });

    let result = shipwreck_map("on_treasure_maps", 1).get_random_items(&context, &mut test_state());

    let Err(LootError::ExplorationMapRequired(request)) = result else {
        panic!("the lookup should be asked for");
    };
    assert_eq!(request.search_radius, 50);
}

#[test]
fn abandoned_mineshaft_bounce_disc_requires_sulfur_caves() {
    let registry = registry();
    let condition = LootCondition::LocationCheck {
        offset_x: 0,
        offset_y: 0,
        offset_z: 0,
        predicate: LocationPredicate {
            biomes: Some(HolderSet::Direct(vec![id("sulfur_caves")])),
            block: None,
        },
    };

    for (biome, expected) in [("plains", false), ("sulfur_caves", true)] {
        let level = LootLevel {
            is_raining: false,
            is_thundering: false,
            day_time: 0,
            biomes: vec![(BlockPos { x: 4, y: 20, z: 8 }, id(biome))],
            blocks: Vec::new(),
        };
        let mut context = LootContext::new(&registry);
        context.origin = Some(BlockPos { x: 4, y: 20, z: 8 });
        context.level = Some(&level);
        let admitted = condition.test(&context, &mut LegacyRandom::from_seed(12_345));
        assert!(admitted.is_ok_and(|admitted| admitted == expected));
    }
}

#[test]
fn location_check_reads_the_biome_at_the_offset_position() {
    let registry = registry();
    let level = LootLevel {
        is_raining: false,
        is_thundering: false,
        day_time: 0,
        biomes: vec![
            (BlockPos { x: 4, y: 20, z: 8 }, id("plains")),
            (BlockPos { x: 4, y: 10, z: 8 }, id("sulfur_caves")),
        ],
        blocks: Vec::new(),
    };
    let mut context = LootContext::new(&registry);
    context.origin = Some(BlockPos { x: 4, y: 20, z: 8 });
    context.level = Some(&level);

    for (offset_y, expected) in [(0, false), (-10, true), (-9, false)] {
        let condition = LootCondition::LocationCheck {
            offset_x: 0,
            offset_y,
            offset_z: 0,
            predicate: LocationPredicate {
                biomes: Some(HolderSet::Direct(vec![id("sulfur_caves")])),
                block: None,
            },
        };
        let admitted = condition.test(&context, &mut LegacyRandom::from_seed(12_345));
        assert!(admitted.is_ok_and(|admitted| admitted == expected));
    }
}

#[test]
fn location_check_block_predicate_matches_loaded_offset_state() {
    let registry = registry();
    let state = |half: &str| BlockState {
        block: id("tall_grass"),
        properties: vec![("half".to_owned(), half.to_owned())],
    };

    for by_tag in [false, true] {
        let blocks = if by_tag {
            HolderSet::Tag(id("replaceable"))
        } else {
            HolderSet::Direct(vec![id("tall_grass")])
        };
        let condition = LootCondition::LocationCheck {
            offset_x: 0,
            offset_y: 1,
            offset_z: 0,
            predicate: LocationPredicate {
                biomes: None,
                block: Some(BlockPredicate {
                    blocks: Some(blocks),
                    properties: vec![("half".to_owned(), "upper".to_owned())],
                }),
            },
        };
        for (half, expected) in [(Some("upper"), true), (Some("lower"), false), (None, false)] {
            let level = LootLevel {
                is_raining: false,
                is_thundering: false,
                day_time: 0,
                biomes: Vec::new(),
                blocks: half
                    .map(|half| (BlockPos { x: 4, y: 21, z: 8 }, state(half)))
                    .into_iter()
                    .collect(),
            };
            let mut context = LootContext::new(&registry);
            context.origin = Some(BlockPos { x: 4, y: 20, z: 8 });
            context.level = Some(&level);
            let admitted = condition.test(&context, &mut LegacyRandom::from_seed(12_345));
            assert!(admitted.is_ok_and(|admitted| admitted == expected));
        }
    }
}

#[test]
fn conditions_that_need_the_world_say_what_is_missing() {
    let registry = registry();
    let condition = LootCondition::LocationCheck {
        offset_x: 0,
        offset_y: 0,
        offset_z: 0,
        predicate: LocationPredicate {
            biomes: Some(HolderSet::Direct(vec![id("plains")])),
            block: None,
        },
    };
    let mut context = LootContext::new(&registry);

    let without_origin = condition.test(&context, &mut LegacyRandom::from_seed(1));
    context.origin = Some(BlockPos { x: 0, y: 0, z: 0 });
    let without_level = condition.test(&context, &mut LegacyRandom::from_seed(1));

    assert!(matches!(without_origin, Err(LootError::MissingOrigin(_))));
    assert!(matches!(without_level, Err(LootError::MissingLevel(_))));
}

#[test]
fn weather_time_and_value_are_checked() {
    let registry = registry();
    let level = LootLevel {
        is_raining: true,
        is_thundering: false,
        day_time: 25_000,
        biomes: Vec::new(),
        blocks: Vec::new(),
    };
    let mut context = LootContext::new(&registry);
    context.level = Some(&level);
    let range = |min: f64, max: f64| NumberProviderRange {
        min: Some(constant(min)),
        max: Some(constant(max)),
    };
    let test = |condition: LootCondition| {
        condition.test(&context, &mut LegacyRandom::from_seed(1)).is_ok_and(|admitted| admitted)
    };

    assert!(test(LootCondition::WeatherCheck { raining: Some(true), thundering: None }));
    assert!(!test(LootCondition::WeatherCheck { raining: None, thundering: Some(true) }));
    assert!(test(LootCondition::TimeCheck { value: range(900.0, 1_100.0), period: Some(24_000) }));
    assert!(!test(LootCondition::TimeCheck { value: range(900.0, 1_100.0), period: None }));
    assert!(test(LootCondition::ValueCheck { value: constant(2.0), range: range(1.0, 3.0) }));
    assert!(!test(LootCondition::Inverted(Box::new(LootCondition::AllOf(Vec::new())))));
    assert!(!test(LootCondition::AnyOf(Vec::new())));
    assert!(!test(LootCondition::KilledByPlayer));
}

#[test]
fn failed_fill_does_not_publish_partial_slots() {
    let registry = registry();
    let copy_state = LootFunction::CopyState { block: id("stone"), properties: Vec::new() };
    let table = table(
        Identifier::new("steel", "test/failing_fill"),
        LootType::Chest,
        vec![pool(vec![drop_item(
            "stone",
            Vec::new(),
            vec![plain(set_count(12.0)), plain(copy_state)],
        )])],
    );
    let mut slots = vec![stack("barrier"), ItemStack::empty()];
    let context = LootContext::new(&registry);

    let result = table.fill(&mut slots, &context, &mut test_state());

    assert!(matches!(result, Err(LootError::UnsupportedFunction("copy_state"))));
    assert_eq!(slots.len(), 2);
    assert!(slots[0].is("barrier"));
    assert_eq!(slots[0].count, 1);
    assert!(slots[1].is_empty());
}

#[test]
fn set_damage_uses_vanilla_remaining_durability_fraction() {
    let registry = registry();
    let mut sword = stack("iron_sword");
    let max_damage = sword.get_integer("max_damage").unwrap_or(0);
    let context = LootContext::new(&registry);

    apply(
        LootFunction::SetDamage { damage: constant(0.25), add: false },
        &mut sword,
        &context,
        &mut test_state(),
    );

    assert_eq!(
        sword.get_integer("damage"),
        Some((max_damage as f32 * 0.75).floor() as i32)
    );
}

#[test]
fn set_potion_preserves_existing_custom_contents() {
    let registry = registry();
    let mut potion = stack("potion");
    let mut contents = NbtCompound::new();
    contents.insert("custom_color", NbtTag::Int(0x123456));
    contents.insert("custom_name", NbtTag::Text("steel".to_owned()));
    potion.set(
        "potion_contents",
        ComponentData::new(ComponentKind::PotionContents, NbtTag::Compound(contents)),
    );
    let context = LootContext::new(&registry);

    apply(
        LootFunction::SetPotion { id: id("healing") },
        &mut potion,
        &context,
        &mut test_state(),
    );

    let Some(ComponentData { value: NbtTag::Compound(contents), .. }) =
        potion.get_raw(&id("potion_contents"))
    else {
        panic!("potion contents should remain present");
    };
    assert_eq!(contents.get_text("potion").map(String::as_str), Some("minecraft:healing"));
    assert_eq!(contents.get_int("custom_color"), Some(0x123456));
    assert_eq!(contents.get_text("custom_name").map(String::as_str), Some("steel"));
}

#[test]
fn set_stew_effect_scales_only_timed_effects() {
    let registry = registry();
    let context = LootContext::new(&registry);

    for (effect, expected_duration) in [("saturation", 7), ("night_vision", 140)] {
        let mut stew = stack("suspicious_stew");
        let effects = vec![StewEffect { effect_type: id(effect), duration: constant(7.0) }];
        apply(LootFunction::SetStewEffect { effects }, &mut stew, &context, &mut test_state());

        let Some(ComponentData { value: NbtTag::List(applied), .. }) =
            stew.get_raw(&id("suspicious_stew_effects"))
        else {
            panic!("stew effect component should be present");
        };
        assert_eq!(applied.len(), 1);
        let NbtTag::Compound(effect) = &applied[0] else {
            panic!("a stew effect should have named parts");
        };
        assert_eq!(effect.get_int("duration"), Some(expected_duration));
    }
}

#[test]
fn set_name_uses_compiled_translation_component() {
    let registry = registry();
    let mut map = stack("filled_map");
    let context = LootContext::new(&registry);

    apply(
        LootFunction::SetName {
            name: LootText::Translation("filled_map.buried_treasure".to_owned()),
            target: NameTarget::CustomName,
        },
        &mut map,
        &context,
        &mut test_state(),
    );

    let Some(ComponentData { value: NbtTag::Compound(message), .. }) =
        map.get_raw(&id("custom_name"))
    else {
        panic!("set_name should produce a translated custom name");
    };
    assert_eq!(
        message.get_text("translate").map(String::as_str),
        Some("filled_map.buried_treasure")
    );
}

#[test]
fn enchant_randomly_consumes_vanilla_selection_and_level_draws() {
    let registry = registry();
    let mut book = stack("book");
    let mut state = state_for(91);
    let mut expected_rng = LegacyRandom::from_seed(91);
    expected_rng.next_i32_bounded(1);
    next_i32_between(&mut expected_rng, 1, 1);
    let context = LootContext::new(&registry);

    apply(
        LootFunction::EnchantRandomly { options: EnchantmentOptions::List(vec![id("mending")]) },
        &mut book,
        &context,
        &mut state,
    );

    assert!(book.is("enchanted_book"));
    assert_eq!(book.get_enchantment_level(&id("mending")), 1);
    assert_eq!(state.random.next_i32(), expected_rng.next_i32());
}

#[test]
fn set_enchantments_transmutes_books_and_preserves_components() {
    let registry = registry();
    let custom_name = NbtTag::Text("Preserved book name".to_owned());
    let mut book = stack("book");
    book.set("custom_name", ComponentData::new(ComponentKind::Text, custom_name.copy()));
    let context = LootContext::new(&registry);

    apply(
        LootFunction::SetEnchantments {
            enchantments: vec![(id("wind_burst"), constant(1.0))],
            add: false,
        },
        &mut book,
        &context,
        &mut test_state(),
    );

    assert!(book.is("enchanted_book"));
    assert!(book.get_raw(&id("custom_name")).is_some_and(|name| name.value.same(&custom_name)));
    assert_eq!(book.get_enchantment_level(&id("wind_burst")), 1);
}

#[test]
fn copy_components_without_its_optional_source_keeps_the_item() {
    let registry = registry();
    let mut chest = stack("chest");
    let context = LootContext::new(&registry);

    apply(
        LootFunction::CopyComponents {
            source: CopySource::BlockEntity,
            only: Some(vec![id("custom_name")]),
        },
        &mut chest,
        &context,
        &mut test_state(),
    );

    assert!(chest.is("chest"));
    assert_eq!(chest.count, 1);
}

#[test]
fn copy_components_copies_only_included_block_entity_components() {
    let registry = registry();
    let custom_name = NbtTag::Text("Loot Chest".to_owned());
    let mut components = DataComponentMap::new();
    components.set(
        "custom_name",
        Some(ComponentData::new(ComponentKind::Text, custom_name.copy())),
    );
    components.set("max_stack_size", Some(ComponentData::integer(3)));
    let mut context = LootContext::new(&registry);
    context.block_entity = Some(&components);
    let mut state = test_state();

    let mut chest = stack("chest");
    apply(
        LootFunction::CopyComponents {
            source: CopySource::BlockEntity,
            only: Some(vec![id("custom_name")]),
        },
        &mut chest,
        &context,
        &mut state,
    );
    assert!(chest.get_raw(&id("custom_name")).is_some_and(|name| name.value.same(&custom_name)));
    assert_eq!(chest.max_stack_size(), 64);

    let mut chest = stack("chest");
    apply(
        LootFunction::CopyComponents { source: CopySource::BlockEntity, only: None },
        &mut chest,
        &context,
        &mut state,
    );
    assert!(chest.get_raw(&id("custom_name")).is_some_and(|name| name.value.same(&custom_name)));
    assert_eq!(chest.max_stack_size(), 3);
}

#[test]
fn enchant_with_levels_matches_vanilla_selection_order() {
    let registry = registry();
    let mut sword = stack("diamond_sword");
    let mut state = state_for(42);
    let mut expected_rng = LegacyRandom::from_seed(42);
    expected_rng.next_i32_bounded(3);
    expected_rng.next_i32_bounded(3);
    expected_rng.next_unit();
    expected_rng.next_unit();
    expected_rng.next_i32_bounded(15);
    expected_rng.next_i32_bounded(50);
    let context = LootContext::new(&registry);

    apply(
        LootFunction::EnchantWithLevels {
            levels: constant(30.0),
            options: EnchantmentOptions::List(vec![id("sharpness"), id("smite")]),
        },
        &mut sword,
        &context,
        &mut state,
    );

    assert_eq!(sword.get_enchantment_level(&id("sharpness")), 3);
    assert_eq!(sword.get_enchantment_level(&id("smite")), 0);
    assert_eq!(state.random.next_i32(), expected_rng.next_i32());
}

#[test]
fn counts_are_limited_and_added() {
    let registry = registry();
    let context = LootContext::new(&registry);
    let mut stones = ItemStack::with_count(&item("stone"), 10);

    apply(
        LootFunction::SetCount { count: constant(5.0), add: true },
        &mut stones,
        &context,
        &mut test_state(),
    );
    assert_eq!(stones.count, 15);
    apply(
        LootFunction::LimitCount { min: None, max: Some(8) },
        &mut stones,
        &context,
        &mut test_state(),
    );
    assert_eq!(stones.count, 8);
    apply(LootFunction::Discard, &mut stones, &context, &mut test_state());
    assert!(stones.is_empty());
}

#[test]
fn custom_data_is_merged_by_name() {
    let registry = registry();
    let context = LootContext::new(&registry);
    let mut stones = stack("stone");
    let mut first = NbtCompound::new();
    let mut inner = NbtCompound::new();
    inner.insert("a", NbtTag::Int(1));
    first.insert("kept", NbtTag::Compound(inner));
    let mut second = NbtCompound::new();
    let mut inner = NbtCompound::new();
    inner.insert("b", NbtTag::Int(2));
    second.insert("kept", NbtTag::Compound(inner));

    apply(LootFunction::SetCustomData { tag: first }, &mut stones, &context, &mut test_state());
    apply(LootFunction::SetCustomData { tag: second }, &mut stones, &context, &mut test_state());

    let Some(ComponentData { value: NbtTag::Compound(data), .. }) =
        stones.get_raw(&id("custom_data"))
    else {
        panic!("custom data should be set");
    };
    let Some(kept) = data.get_compound("kept") else {
        panic!("both compounds should be merged");
    };
    assert_eq!(kept.get_int("a"), Some(1));
    assert_eq!(kept.get_int("b"), Some(2));
}

#[test]
fn uniform_draws_stay_in_range_and_are_repeatable() {
    let mut first = LegacyRandom::from_seed(7);
    let mut second = LegacyRandom::from_seed(7);

    for _ in 0..100 {
        let value = next_i32_between(&mut first, -3, 3);
        assert!((-3..=3).contains(&value));
        assert_eq!(value, next_i32_between(&mut second, -3, 3));
    }
}

#[test]
fn legacy_random_draws_known_numbers() {
    let mut random = LegacyRandom::from_seed(42);

    assert_eq!(random.next_i32(), -1_170_105_035);
    assert_eq!(random.next_i32(), 234_785_527);
    assert_eq!(LegacyRandom::from_seed(42).next_i32_bounded(10), 0);
    assert_eq!(LegacyRandom::from_seed(42).next_unit(), 12_206_493);
}

#[test]
fn tables_whose_numbers_do_not_fit_are_noticed() {
    let mut registry = registry();
    registry.loot_tables = vec![fill_table(), pig_table()];
    let mut wide = fill_table();
    wide.pools[0].rolls = uniform(-2_000_000_000.0, 2_000_000_000.0);
    let heavy = || LootEntry::Empty {
        weight: i32::MAX,
        conditions: Vec::new(),
    };
    let mut overweight = fill_table();
    overweight.pools[0].entries = vec![heavy(), heavy()];

    assert!(registry.loot_tables_fit(0));
    assert!(!wide.fits(0));
    assert!(!overweight.fits(0));
    registry.loot_tables.push(wide);
    assert!(!registry.loot_tables_fit(0));
}

#[test]
fn bonus_formulas_take_every_level_they_can_draw_for() {
    let mut random = LegacyRandom::from_seed(1);
    let ores = BonusFormula::OreDrops;
    let uniform = BonusFormula::UniformBonusCount { bonus_multiplier: -7 };
    let binomial = BonusFormula::BinomialWithBonusCount { extra: 3, probability: number(1.0) };

    assert_eq!(ores.apply(5, -4, &mut random), 5);
    assert_eq!(uniform.apply(5, 0, &mut random), 5);
    assert_eq!(binomial.apply(5, -3, &mut random), 5);
    assert_eq!(binomial.apply(5, 1_000, &mut random), 1_008);
}
