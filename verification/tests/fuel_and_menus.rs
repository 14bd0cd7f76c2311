//! Fuel durations, chest menus and furnace slots.
use steel::block_entity::fuel_values::{vanilla_fuel_values, FuelValues};
use steel::data_components::map::DataComponentMap;
use steel::ident::Identifier;
use steel::inventory::chest_menu::{chest, chest_with_openers, menu_type_for_rows, ChestSection};
use steel::inventory::section::{FillDirection, Section};
use steel::item_stack::{Item, ItemStack};
use steel::keyed::Tag;
use steel::registry::Registry;

fn id(path: &str) -> Identifier {
    Identifier::vanilla(path)
}

fn item(path: &str) -> Item {
    Item {
        key: id(path),
        components: DataComponentMap::new(),
    }
}

fn tag(path: &str, values: &[&str]) -> Tag {
    Tag {
        key: id(path),
        values: values.iter().map(|value| id(value)).collect(),
    }
}

fn registry() -> Registry {
    let items = [
        "lava_bucket",
        "oak_log",
        "oak_hanging_sign",
        "white_carpet",
        "dried_kelp_block",
        "crimson_planks",
        "warped_stem",
        "coal",
        "bucket",
        "stick",
        "oak_slab",
        "stone",
        "barrel",
    ];
    Registry {
        items: items.iter().map(|path| item(path)).collect(),
        item_tags: vec![
            tag("logs", &["oak_log", "warped_stem"]),
            tag("planks", &["crimson_planks"]),
            tag("wooden_slabs", &["oak_slab"]),
            tag("hanging_signs", &["oak_hanging_sign"]),
            tag("wool_carpets", &["white_carpet"]),
            tag("non_flammable_wood", &["crimson_planks", "warped_stem"]),
        ],
        enchantments: Vec::new(),
        enchantment_tags: Vec::new(),
        instruments: Vec::new(),
        instrument_tags: Vec::new(),
        structure_tags: Vec::new(),
        map_decoration_types: Vec::new(),
        potions: Vec::new(),
        mob_effects: Vec::new(),
        biome_tags: Vec::new(),
        block_tags: Vec::new(),
        component_types: Vec::new(),
        smelting: Vec::new(),
        crafting_remainders: Vec::new(),
        loot_tables: Vec::new(),
    }
}

fn duration(fuels: &FuelValues, path: &str) -> i32 {
    fuels.burn_duration(&ItemStack::new(&item(path)))
}

#[test]
fn vanilla_transform_applies_direct_tagged_and_removed_fuels() {
    let registry = registry();
    let fuels = vanilla_fuel_values(&registry);

    assert_eq!(duration(&fuels, "lava_bucket"), 20_000);
    assert_eq!(duration(&fuels, "oak_log"), 300);
    assert_eq!(duration(&fuels, "oak_hanging_sign"), 800);
    assert_eq!(duration(&fuels, "white_carpet"), 67);
    assert_eq!(duration(&fuels, "dried_kelp_block"), 4_001);
    assert_eq!(duration(&fuels, "crimson_planks"), 0);
    assert_eq!(duration(&fuels, "warped_stem"), 0);
}

#[test]
fn fuel_durations_scale_with_the_time_unit() {
    let registry = registry();
    let fuels = FuelValues::vanilla(100, &registry);

    assert_eq!(duration(&fuels, "lava_bucket"), 10_000);
    assert_eq!(duration(&fuels, "coal"), 800);
    assert_eq!(duration(&fuels, "stick"), 50);
    assert_eq!(duration(&fuels, "oak_slab"), 75);
    assert_eq!(duration(&fuels, "white_carpet"), 34);
    assert_eq!(duration(&fuels, "barrel"), 150);
}

#[test]
fn fuel_durations_take_every_time_unit_that_fits() {
    let registry = registry();

    let fuels = FuelValues::vanilla(21_474_836, &registry);
    assert_eq!(duration(&fuels, "lava_bucket"), 2_147_483_600);
    assert_eq!(duration(&fuels, "coal"), 171_798_688);
    assert_eq!(duration(&fuels, "white_carpet"), 7_158_279);
    assert_eq!(duration(&fuels, "crimson_planks"), 0);

    let fuels = FuelValues::vanilla(-21_474_836, &registry);
    assert_eq!(duration(&fuels, "lava_bucket"), -2_147_483_600);

    let fuels = FuelValues::vanilla(-1, &registry);
    assert_eq!(duration(&fuels, "coal"), -8);
    assert_eq!(duration(&fuels, "stick"), 0);
    assert_eq!(duration(&fuels, "white_carpet"), 1);
}

#[test]
fn empty_stacks_and_other_items_are_no_fuel() {
    let registry = registry();
    let fuels = vanilla_fuel_values(&registry);

    assert!(!fuels.is_fuel(&ItemStack::empty()));
    assert!(!fuels.is_fuel(&ItemStack::with_count(&item("coal"), 0)));
    assert!(!fuels.is_fuel(&ItemStack::new(&item("stone"))));
    assert!(!fuels.is_fuel(&ItemStack::new(&item("bow"))));
    assert!(fuels.is_fuel(&ItemStack::new(&item("coal"))));
}

#[test]
fn chest_uses_exactly_the_rows_requested_from_oversized_container() {
    let container_with_18_slots = 7;

    let menu = chest(1, container_with_18_slots, 1);

    assert_eq!(menu.slot_count(), 9 + 36);
}

#[test]
fn double_chest_sections_follow_each_other() {
    let sections = vec![
        ChestSection { container: 10, size: 27 },
        ChestSection { container: 11, size: 27 },
    ];

    let menu = chest_with_openers(2, sections, 6, vec![Some(10), None, Some(11)]);

    assert_eq!(menu.menu_type.text(), "minecraft:generic_9x6");
    assert_eq!(menu.container_id, 2);
    assert_eq!(
        menu.sections,
        [Section { start: 0, end: 27 }, Section { start: 27, end: 54 }]
    );
    assert_eq!(menu.player.main, Section { start: 54, end: 81 });
    assert_eq!(menu.player.hotbar, Section { start: 81, end: 90 });
    assert_eq!(menu.slot_count(), 90);
    assert_eq!(menu.kind.opener_container_ids(), &vec![10, 11]);
    assert_eq!(menu.routes.len(), 3);
    assert_eq!(menu.routes[0].direction, FillDirection::Backward);
    assert_eq!(menu.routes[0].targets, [menu.player.all]);
    assert_eq!(menu.routes[2].source, menu.player.all);
    assert_eq!(menu.routes[2].targets, menu.sections);
    assert_eq!(menu.routes[2].direction, FillDirection::Forward);
}

#[test]
fn chest_menu_opens_and_closes_its_viewer_counters_once() {
    let mut menu = chest_with_openers(
        1,
        vec![ChestSection { container: 4, size: 27 }],
        3,
        vec![Some(4)],
    );

    assert!(menu.kind.removed().is_empty());
    assert_eq!(menu.kind.on_open(), [4]);
    assert_eq!(menu.kind.removed(), [4]);
    assert!(menu.kind.removed().is_empty());
}

#[test]
fn chest_menu_needs_every_container_to_stay_valid() {
    let sections = vec![
        ChestSection { container: 10, size: 27 },
        ChestSection { container: 11, size: 27 },
    ];
    let menu = chest_with_openers(1, sections, 6, Vec::new());

    assert!(menu.kind.still_valid(&vec![11, 10]));
    assert!(!menu.kind.still_valid(&vec![10]));
}

#[test]
fn menu_types_follow_the_rows() {
    let types = (1..=6)
        .map(|rows| menu_type_for_rows(rows).text())
        .collect::<Vec<_>>();

    assert_eq!(types[0], "minecraft:generic_9x1");
    assert_eq!(types[2], "minecraft:generic_9x3");
    assert_eq!(types[5], "minecraft:generic_9x6");
}
