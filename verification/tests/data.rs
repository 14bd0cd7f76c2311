//! Identifiers, tags, data components and item stacks.
use steel::block_entity::randomizable_container::{PendingExplorationMap, RandomizableContainer};
use steel::data_components::map::DataComponentMap;
use steel::data_components::patch::{ComponentPatchEntry, DataComponentPatch};
use steel::data_components::{
    ComponentData, ComponentKind, DataComponentGetter, DataComponentType, TagShape,
};
use steel::ident::Identifier;
use steel::item_stack::{Item, ItemInstance, ItemStack};
use steel::keyed::{by_key, contains_id, Tag};
use steel::loot_table::error::ExplorationMapRequest;
use steel::loot_table::number::round;
use steel::nbt::{NbtCompound, NbtTag};
use steel::random::UNIT_STEPS;
use steel::registry::Registry;

fn id(path: &str) -> Identifier {
    Identifier::vanilla(path)
}

fn component(path: &str, kind: ComponentKind, persistent: bool) -> DataComponentType {
    DataComponentType { key: id(path), kind, persistent }
}

fn types() -> Vec<DataComponentType> {
    vec![
        component("max_stack_size", ComponentKind::Integer, true),
        component("damage", ComponentKind::Integer, true),
        component("custom_name", ComponentKind::Text, true),
        component("fleeting", ComponentKind::Integer, false),
    ]
}

fn item(path: &str) -> Item {
    let mut components = DataComponentMap::new();
    components.set("max_stack_size", Some(ComponentData::integer(16)));
    Item { key: id(path), components }
}

fn registry() -> Registry {
    Registry {
        items: vec![item("pearl"), item("filled_map")],
        item_tags: Vec::new(),
        enchantments: Vec::new(),
        enchantment_tags: Vec::new(),
        instruments: Vec::new(),
        instrument_tags: Vec::new(),
        structure_tags: Vec::new(),
        map_decoration_types: Vec::new(),
        potions: Vec::new(),
        mob_effects: Vec::new(),
        biome_tags: Vec::new(),
        block_tags: Vec::new(),
        component_types: types(),
        smelting: Vec::new(),
        crafting_remainders: Vec::new(),
        loot_tables: Vec::new(),
    }
}

#[test]
fn identifiers_are_read_from_their_text() {
    let full = Identifier::parse("steel:test/key");
    let short = Identifier::parse("stone");

    assert_eq!(full.map(|key| key.text()), Some("steel:test/key".to_owned()));
    assert_eq!(short.map(|key| key.text()), Some("minecraft:stone".to_owned()));
    assert!(Identifier::parse("Not Valid").is_none());
    assert!(Identifier::parse("a:b:c").is_none());
    assert!(id("stone").is_vanilla("stone"));
    assert!(Identifier::new("domain", "stone").has_path("stone"));
    assert!(!id("stone").same(&Identifier::new("domain", "stone")));
}

#[test]
fn first_entry_of_a_name_counts() {
    let mut compound = NbtCompound::new();
    compound.insert("a", NbtTag::Byte(1));
    compound.insert("a", NbtTag::Byte(2));

    assert_eq!(compound.get_byte("a"), Some(1));
    assert_eq!(compound.len(), 2);
    compound.put("a", NbtTag::Short(3));
    assert_eq!(compound.get_short("a"), Some(3));
    assert_eq!(compound.get_byte("a"), None);
    compound.remove("a");
    assert!(!compound.contains("a") || compound.get_byte("a") == Some(2));
    assert!(!compound.same(&NbtCompound::new()) || compound.is_empty());
}

#[test]
fn patches_override_and_remove_prototype_components() {
    let mut stack = ItemStack::new(&item("pearl"));
    assert_eq!(stack.max_stack_size(), 16);

    stack.set("max_stack_size", ComponentData::integer(7));
    assert_eq!(stack.max_stack_size(), 7);
    stack.patch.set_removed(id("max_stack_size"));
    assert_eq!(stack.max_stack_size(), 1);
    assert!(stack.patch.is_removed(&id("max_stack_size")));
    assert_eq!(stack.patch.count_removed(), 1);
    assert_eq!(stack.patch.count_set(), 0);
    stack.patch.clear(&component("max_stack_size", ComponentKind::Integer, true));
    assert_eq!(stack.max_stack_size(), 16);
    assert!(stack.patch.is_empty());
}

#[test]
fn patches_are_split_forgotten_and_compared() {
    let mut patch = DataComponentPatch::new();
    patch.set_component_data(id("damage"), ComponentData::integer(3));
    patch.set_removed(id("custom_name"));

    let split = patch.split();
    assert_eq!(split.added.len(), 1);
    assert!(split.added.get_raw(&id("damage")).is_some());
    let kept = patch.forget(|key| key.is_vanilla("damage"));
    assert_eq!(kept.len(), 1);
    assert!(matches!(kept.get_entry(&id("custom_name")), Some(ComponentPatchEntry::Removed)));
    assert!(patch.same(&patch.copy()));
    assert!(!patch.same(&kept));
    assert_eq!(patch.iter().len(), 2);
}

#[test]
fn patches_drop_what_the_prototype_has_anyway() {
    let prototype = item("pearl").components;
    let mut patch = DataComponentPatch::new();
    patch.set_component_data(id("max_stack_size"), ComponentData::integer(16));
    patch.set_removed(id("custom_name"));

    patch.sanitize_against(&prototype);

    assert!(patch.is_empty());
}

#[test]
fn raw_values_have_to_fit_their_type() {
    let types = types();
    let mut patch = DataComponentPatch::new();

    assert!(!patch.remove_raw(id("unheard_of"), &types));
    assert!(patch.remove_raw(id("damage"), &types));
    assert!(types[0].validates(&ComponentData::integer(1)));
    assert!(!types[2].validates(&ComponentData::integer(1)));
    assert!(types[0].read_nbt(&NbtTag::Text("one".to_owned())).is_none());
    let read = types[0].read_nbt(&NbtTag::Int(5));
    assert_eq!(read.and_then(|data| data.as_number(ComponentKind::Integer)), Some(5));
    assert!(types[2].write_nbt(&ComponentData::integer(1)).is_none());

    let map_number = || ComponentData::number(ComponentKind::MapId, 3);
    assert!(!patch.set_raw(id("damage"), map_number(), &types));
    assert!(patch.is_removed(&id("damage")));
    assert!(!patch.set_raw(id("unheard_of"), ComponentData::integer(3), &types));
    assert!(patch.set_raw(id("damage"), ComponentData::integer(3), &types));
    assert!(!patch.is_removed(&id("damage")));
    let other = |number| ComponentKind::Other { shape: TagShape::Integer, number };
    let rarity = component("rarity", other(1), true);
    assert!(rarity.validates(&ComponentData::number(other(1), 2)));
    assert!(!rarity.validates(&ComponentData::number(other(2), 2)));
    assert!(!rarity.validates(&ComponentData::integer(2)));
}

#[test]
fn values_of_another_type_are_not_read() {
    let mut stack = ItemStack::new(&item("pearl"));
    stack.set("map_id", ComponentData::integer(3));
    assert_eq!(stack.get_number("map_id", ComponentKind::MapId), None);

    stack.set("map_id", ComponentData::number(ComponentKind::MapId, 3));
    assert_eq!(stack.get_number("map_id", ComponentKind::MapId), Some(3));
    assert_eq!(stack.get_integer("map_id"), None);
}

#[test]
fn component_maps_round_trip_and_leave_fleeting_values_out() {
    let types = types();
    let mut map = DataComponentMap::new();
    map.set("damage", Some(ComponentData::integer(3)));
    map.set("fleeting", Some(ComponentData::integer(4)));

    let tag = map.to_nbt_tag_ref(&types);
    let loaded = DataComponentMap::from_nbt_tag(&tag, &types);

    let Some(loaded) = loaded else {
        panic!("saved components should load");
    };
    assert_eq!(loaded.len(), 1);
    assert!(loaded.key_at(0).is_vanilla("damage"));
    assert_eq!(loaded.data_at(0).as_number(ComponentKind::Integer), Some(3));
    assert!(map.filter(Some(&vec![id("fleeting")])).get_raw(&id("damage")).is_none());
}

#[test]
fn stacks_round_trip_through_their_saved_form() {
    let registry = registry();
    let mut stack = ItemStack::with_count(&item("pearl"), 5);
    stack.set("damage", ComponentData::integer(3));
    stack.patch.set_removed(id("custom_name"));

    let saved = stack.to_nbt(&registry.component_types);
    let loaded = ItemStack::from_nbt(&saved, &registry);

    let Some(loaded) = loaded else {
        panic!("a saved stack should load");
    };
    assert_eq!(loaded.count(), 5);
    assert!(loaded.item().is_vanilla("pearl"));
    assert!(loaded.is_same_item_same_components(&stack));
    assert!(ItemStack::from_nbt(&NbtCompound::new(), &registry).is_none());
}

#[test]
fn stacks_are_split() {
    let mut stack = ItemStack::with_count(&item("pearl"), 5);

    let taken = stack.split(3);
    let rest = stack.split(9);

    assert_eq!(taken.count, 3);
    assert_eq!(rest.count, 2);
    assert!(stack.is_empty());
}

#[test]
fn values_are_found_by_their_identifier() {
    let tags = vec![
        Tag { key: id("first"), values: vec![id("a")] },
        Tag { key: id("second"), values: vec![id("b"), id("c")] },
    ];

    assert_eq!(by_key(&tags, &id("second")).map(|tag| tag.values.len()), Some(2));
    assert!(by_key(&tags, &id("third")).is_none());
    assert!(contains_id(&tags[1].values, &id("c")));
    assert!(!contains_id(&tags[1].values, &id("a")));
}

#[test]
fn halves_round_up() {
    let unit = i128::from(UNIT_STEPS);

    assert_eq!(round(unit * 5 / 2), 3);
    assert_eq!(round(-unit * 5 / 2), -2);
    assert_eq!(round(unit * 10_000_000_000), i32::MAX);
    assert_eq!(round(-unit * 10_000_000_000), i32::MIN);
}

fn pending_map(marker: i32) -> PendingExplorationMap {
    PendingExplorationMap {
        marker,
        request: ExplorationMapRequest {
            destination: id("on_treasure_maps"),
            decoration: id("red_x"),
            zoom: 2,
            search_radius: 50,
            skip_existing_chunks: true,
        },
        fallback: ItemStack::new(&item("pearl")),
    }
}

#[test]
fn waiting_maps_are_copied_whole() {
    let map = pending_map(-1);

    let copy = map.copy();

    assert_eq!(copy.marker, -1);
    assert!(copy.request.same(&map.request));
    assert!(copy.fallback.is("pearl"));
}

#[test]
fn tokens_of_other_preparations_change_nothing() {
    let mut container = RandomizableContainer::new(3);

    assert!(!container.is_running(0));
    container.reset_running(7);
    assert!(container.finish_removed_as_fallback(7).is_empty());
    assert!(!container.is_removed());
    let dropped = container.remove_and_take_ready_items();
    assert_eq!(dropped.len(), 3);
    assert!(container.is_removed());
}
