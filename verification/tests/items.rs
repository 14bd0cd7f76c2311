//! Items that place blocks, and empty maps.
use steel::behavior::block_item::{
    BlockItem, DoubleHighBlockItem, PlaceStage, PlaceStep, Placement, SurvivalCheck,
};
use steel::behavior::empty_map::{EmptyMapItem, EmptyMapUse};
use steel::behavior::InteractionResult;
use steel::data_components::map::DataComponentMap;
use steel::data_components::ComponentKind;
use steel::ident::Identifier;
use steel::item_stack::{Item, ItemStack};
use steel::loot_table::conditions::BlockPos;
use steel::map::store::{MapDataError, MapDataState, PersistentMapData};

fn id(path: &str) -> Identifier {
    Identifier::vanilla(path)
}

fn item(path: &str) -> Item {
    Item { key: id(path), components: DataComponentMap::new() }
}

fn run(mut step: PlaceStep, answers: &[bool]) -> PlaceStep {
    for answer in answers {
        step = match step {
            PlaceStep::Ask(placement) => placement.answered(*answer),
            PlaceStep::Fail => PlaceStep::Fail,
        };
    }
    step
}

#[test]
fn placement_asks_in_order_and_uses_up_one_item() {
    let block = BlockItem::new(id("chest"));
    let mut stack = ItemStack::with_count(&item("chest"), 2);

    let step = run(block.place(true), &[true, true, true, true]);

    let PlaceStep::Ask(placement) = step else {
        panic!("a placement with every answer positive should go on");
    };
    assert_eq!(placement.stage, PlaceStage::Placed);
    assert!(block.takes_item_data(&id("chest")));
    assert!(!block.takes_item_data(&id("barrel")));
    assert_eq!(stack.count, 2);
    assert_eq!(block.finish(placement, &mut stack), InteractionResult::Success);
    assert_eq!(stack.count, 1);
}

#[test]
fn any_refusal_ends_a_placement() {
    let block = BlockItem::new(id("chest"));

    assert_eq!(block.place(false), PlaceStep::Fail);
    for refused in 0..4 {
        let answers = (0..4).map(|answer| answer != refused).collect::<Vec<_>>();
        assert_eq!(run(block.place(true), &answers), PlaceStep::Fail);
    }
}

#[test]
fn survival_is_asked_only_where_it_is_required() {
    let block = BlockItem::new(id("scaffolding"));
    let skipped = run(block.place_with_policy(true, SurvivalCheck::Skipped), &[true, true]);
    let required = run(block.place_with_policy(true, SurvivalCheck::Required), &[true, true]);

    assert_eq!(
        skipped,
        PlaceStep::Ask(Placement {
            survival_check: SurvivalCheck::Skipped,
            stage: PlaceStage::Collision,
        })
    );
    assert_eq!(
        required,
        PlaceStep::Ask(Placement {
            survival_check: SurvivalCheck::Required,
            stage: PlaceStage::Survival,
        })
    );
}

#[test]
fn custom_data_needs_its_own_type_and_the_right_to_set_it() {
    let chest = id("chest");
    let command_block = id("command_block");

    assert!(BlockItem::loads_custom_data(Some(&chest), Some(&chest), false, false));
    assert!(!BlockItem::loads_custom_data(Some(&chest), Some(&command_block), false, true));
    assert!(!BlockItem::loads_custom_data(None, Some(&chest), false, true));
    assert!(!BlockItem::loads_custom_data(Some(&chest), None, false, true));
    assert!(!BlockItem::loads_custom_data(
        Some(&command_block),
        Some(&command_block),
        true,
        false
    ));
    assert!(BlockItem::loads_custom_data(
        Some(&command_block),
        Some(&command_block),
        true,
        true
    ));
}

#[test]
fn tall_blocks_keep_water_above() {
    let door = DoubleHighBlockItem::new(id("oak_door"));

    assert_eq!(door.base.block.text(), "minecraft:oak_door");
    assert_eq!(DoubleHighBlockItem::upper_block(true).text(), "minecraft:water");
    assert_eq!(DoubleHighBlockItem::upper_block(false).text(), "minecraft:air");
}

fn use_map(maps: &mut MapDataState, hand: &mut ItemStack, infinite: bool) -> EmptyMapUse {
    EmptyMapItem.use_item(
        maps,
        &id("overworld"),
        &id("overworld"),
        BlockPos { x: 0, y: 64, z: 0 },
        &item("filled_map"),
        hand,
        infinite,
    )
}

#[test]
fn using_single_empty_map_creates_tracked_scale_zero_map() {
    let mut maps = MapDataState::new();
    let mut hand = ItemStack::new(&item("map"));

    let used = use_map(&mut maps, &mut hand, false);

    assert!(matches!(used, EmptyMapUse::InHand));
    assert!(hand.is("filled_map"));
    assert_eq!(hand.count, 1);
    assert_eq!(hand.get_number("map_id", ComponentKind::MapId), Some(0));
    let Some(map) = maps.get(0) else {
        panic!("created map should carry its saved-data ID");
    };
    assert_eq!(map.scale, 0);
    assert!(!map.locked);
    assert!(map.tracking_position);
    assert_eq!(map.colors.len(), 128 * 128);
}

#[test]
fn using_stacked_empty_maps_adds_filled_map_to_inventory() {
    let mut maps = MapDataState::new();
    let mut hand = ItemStack::with_count(&item("map"), 2);

    let used = use_map(&mut maps, &mut hand, false);

    assert!(hand.is("map"));
    assert_eq!(hand.count, 1);
    let EmptyMapUse::ToInventory { map } = used else {
        panic!("the filled map should be added to an inventory slot");
    };
    assert!(map.is("filled_map"));
    assert_eq!(map.count, 1);
    assert!(map.get_number("map_id", ComponentKind::MapId).is_some());
    assert!(EmptyMapItem::drops_overflow(&map, false));
}

#[test]
fn creative_full_inventory_discards_created_map_without_dropping_it() {
    let mut maps = MapDataState::new();
    let mut hand = ItemStack::new(&item("map"));

    let used = use_map(&mut maps, &mut hand, true);

    assert!(hand.is("map"));
    assert_eq!(hand.count, 1);
    let EmptyMapUse::ToInventory { map: overflow } = used else {
        panic!("a creative player keeps the empty map in hand");
    };
    assert!(!EmptyMapItem::drops_overflow(&overflow, true));
    assert!(!EmptyMapItem::drops_overflow(&ItemStack::empty(), false));
}

#[test]
fn exhausted_map_numbers_leave_everything_as_it_was() {
    let stored = PersistentMapData { last_map_id: i32::MAX, maps: Vec::new() };
    let Ok(mut maps) = MapDataState::from_persistent(stored) else {
        panic!("an empty store should load");
    };
    let mut hand = ItemStack::new(&item("map"));

    let used = use_map(&mut maps, &mut hand, false);

    assert!(matches!(used, EmptyMapUse::Fail { error: MapDataError::IdsExhausted }));
    assert!(hand.is("map"));
    assert_eq!(hand.count, 1);
}
