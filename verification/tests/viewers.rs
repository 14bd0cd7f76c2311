//! Viewer counters, barrels, chests and how they open.
use steel::behavior::barrel_block::{
    BarrelBlock, BarrelMenuProvider, DeferredBarrelOpenJob, DeferredOpen, FoundBlock,
    FoundContainer, WaitingPlayer,
};
use steel::behavior::InteractionResult;
use steel::block_entity::container_openers_counter::{
    ContainerOpenersCounter, NearbyPlayer, OpenersEvent, CHECK_TICK_DELAY, SEARCH_DISTANCE_BUFFER,
};
use steel::block_entity::entities::{
    BarrelBlockEntity, ChestBlockEntity, ChestType, Direction, HalfBlockPos, BARREL_SLOTS,
    CHEST_SLOTS,
};
use steel::block_entity::randomizable_container::ContainerReadiness;
use steel::data_components::map::DataComponentMap;
use steel::data_components::ComponentData;
use steel::ident::Identifier;
use steel::inventory::chest_menu::{chest_with_openers, ChestSection};
use steel::inventory::provider::{ContainerAccessResult, MenuCreation, MenuOutcome, MenuProvider};
use steel::item_stack::{Item, ItemStack};
use steel::nbt::NbtTag;

fn id(path: &str) -> Identifier {
    Identifier::vanilla(path)
}

fn stone(count: i32) -> ItemStack {
    let mut components = DataComponentMap::new();
    components.set("max_stack_size", Some(ComponentData::integer(64)));
    ItemStack::with_count(&Item { key: id("stone"), components }, count)
}

/// A player at some distance along one axis from the container's block.
fn player_at(x: f64, views_container: bool, range: f64, counter: &ContainerOpenersCounter) -> NearbyPlayer {
    let search = f64::from_bits(counter.search_range()) + f64::from(SEARCH_DISTANCE_BUFFER);
    let within_range = x + 0.3 >= 3.0 - search && x - 0.3 <= 4.0 + search;
    NearbyPlayer {
        is_spectator: false,
        within_range,
        views_container,
        interaction_range: range.to_bits(),
    }
}

fn recheck(
    counter: &mut ContainerOpenersCounter,
    players: &Vec<NearbyPlayer>,
    seen: &mut Vec<(&'static str, i32)>,
) {
    let (check, events) = counter.begin_recheck(false, true, players);
    note(&events, counter, seen);
    let Some(check) = check else {
        panic!("a container in a world should be checked");
    };
    let events = counter.finish_recheck(check);
    note(&events, counter, seen);
}

fn note(events: &[OpenersEvent], counter: &ContainerOpenersCounter, seen: &mut Vec<(&'static str, i32)>) {
    for event in events {
        match event {
            OpenersEvent::Opened => seen.push(("open", counter.opener_count())),
            OpenersEvent::Closed => seen.push(("close", counter.opener_count())),
            _ => {}
        }
    }
}

#[test]
fn recheck_callbacks_observe_the_vanilla_previous_count() {
    let mut counter = ContainerOpenersCounter::default();
    let mut seen = Vec::new();
    let range = 4.5_f64;

    let events = counter.increment(false, true, false, range.to_bits());
    note(&events, &counter, &mut seen);

    let far = player_at(15.0, true, range, &counter);
    recheck(&mut counter, &vec![far], &mut seen);
    assert_eq!(counter.opener_count(), 0);

    let near = player_at(3.5, true, range, &counter);
    recheck(&mut counter, &vec![near], &mut seen);
    assert_eq!(counter.opener_count(), 1);

    let events = counter.decrement(false, true, false);
    note(&events, &counter, &mut seen);

    assert_eq!(seen, [("open", 1), ("close", 1), ("open", 0), ("close", 0)]);
}

#[test]
fn menu_lifecycle_updates_open_state_and_viewer_count() {
    let mut barrel = BarrelBlockEntity::new();
    let mut open = false;
    let pos = (3, 64, 3);
    let mut menu = chest_with_openers(
        1,
        vec![ChestSection { container: 5, size: BARREL_SLOTS }],
        3,
        vec![Some(5)],
    );
    let react = |events: &[OpenersEvent], open: &mut bool| {
        for event in events {
            match event {
                OpenersEvent::Opened => *open = BarrelBlockEntity::react(pos, Direction::North, true).open,
                OpenersEvent::Closed => *open = BarrelBlockEntity::react(pos, Direction::North, false).open,
                _ => {}
            }
        }
    };
    let check = |barrel: &mut BarrelBlockEntity, x: f64, range: f64, open: &mut bool| {
        let players = vec![player_at(x, true, range, &barrel.openers)];
        let (check, events) = barrel.openers.begin_recheck(false, true, &players);
        react(&events, open);
        let Some(check) = check else {
            panic!("a container in a world should be checked");
        };
        let events = barrel.openers.finish_recheck(check);
        react(&events, open);
    };

    assert_eq!(menu.kind.on_open(), [5]);
    let events = barrel.openers.increment(false, true, false, 4.5_f64.to_bits());
    react(&events, &mut open);
    assert!(open);
    assert_eq!(barrel.openers.opener_count(), 1);
    assert!(events.contains(&OpenersEvent::ScheduleRecheck { delay: CHECK_TICK_DELAY }));

    check(&mut barrel, 3.5, 4.5, &mut open);
    assert_eq!(barrel.openers.opener_count(), 1);

    check(&mut barrel, 3.5, 12.0, &mut open);
    check(&mut barrel, 15.0, 12.0, &mut open);
    assert_eq!(barrel.openers.opener_count(), 1);

    check(&mut barrel, 15.0, 1.0, &mut open);
    assert_eq!(barrel.openers.opener_count(), 1);
    check(&mut barrel, 15.0, 1.0, &mut open);
    assert_eq!(barrel.openers.opener_count(), 0);
    assert!(!open);

    check(&mut barrel, 3.5, 1.0, &mut open);
    assert_eq!(barrel.openers.opener_count(), 1);
    assert!(open);

    assert_eq!(menu.kind.removed(), [5]);
    let events = barrel.openers.decrement(false, true, false);
    react(&events, &mut open);
    assert!(!open);
    assert_eq!(barrel.openers.opener_count(), 0);
}

#[test]
fn double_chest_menu_owns_both_viewer_counters() {
    let mut right = ChestBlockEntity::new();
    let mut left = ChestBlockEntity::new();
    let mut menu = chest_with_openers(
        1,
        vec![
            ChestSection { container: 1, size: CHEST_SLOTS },
            ChestSection { container: 2, size: CHEST_SLOTS },
        ],
        6,
        vec![Some(1), Some(2)],
    );
    let scheduled = OpenersEvent::ScheduleRecheck { delay: CHECK_TICK_DELAY };

    for counter in menu.kind.on_open() {
        let chest = if counter == 1 { &mut right } else { &mut left };
        let events = chest.openers.increment(false, true, false, 4.5_f64.to_bits());
        assert!(events.contains(&scheduled));
    }
    assert_eq!(right.openers.opener_count(), 1);
    assert_eq!(left.openers.opener_count(), 1);

    for counter in menu.kind.removed() {
        let chest = if counter == 1 { &mut right } else { &mut left };
        chest.openers.decrement(false, true, false);
    }
    assert_eq!(right.openers.opener_count(), 0);
    assert_eq!(left.openers.opener_count(), 0);
}

#[test]
fn spectators_and_removed_containers_are_not_counted() {
    let mut counter = ContainerOpenersCounter::default();

    assert!(counter.increment(false, true, true, 1).is_empty());
    assert!(counter.increment(true, true, false, 1).is_empty());
    assert!(counter.increment(false, false, false, 1).is_empty());
    assert_eq!(counter.opener_count(), 0);
    assert!(counter.decrement(true, true, false).is_empty());
    let spectator = NearbyPlayer {
        is_spectator: true,
        within_range: true,
        views_container: true,
        interaction_range: 9,
    };
    let viewer = NearbyPlayer { is_spectator: false, ..spectator };
    for (removed, has_world) in [(true, true), (false, false)] {
        let (check, events) = counter.begin_recheck(removed, has_world, &vec![viewer]);
        assert!(check.is_none());
        assert!(events.is_empty());
        assert_eq!(counter.search_range(), 0);
    }
    let (check, _) = counter.begin_recheck(false, true, &vec![spectator]);
    assert!(check.is_some_and(|check| check.current == 0));
    assert_eq!(counter.search_range(), 0);
}

#[test]
fn second_viewer_only_changes_the_count() {
    let mut counter = ContainerOpenersCounter::default();
    counter.increment(false, true, false, 3.0_f64.to_bits());

    let events = counter.increment(false, true, false, 2.0_f64.to_bits());

    assert_eq!(events, [OpenersEvent::CountChanged { previous: 1, current: 2 }]);
    assert_eq!(f64::from_bits(counter.search_range()), 3.0);
    let events = counter.decrement(false, true, false);
    assert_eq!(events, [OpenersEvent::CountChanged { previous: 2, current: 1 }]);
    let events = counter.decrement(false, true, false);
    assert_eq!(
        events,
        [
            OpenersEvent::Closed,
            OpenersEvent::CloseGameEvent,
            OpenersEvent::CountChanged { previous: 1, current: 0 },
        ]
    );
    assert_eq!(counter.search_range(), 0);
}

#[test]
fn set_item_honors_vanilla_ninety_nine_container_maximum() {
    let mut barrel = BarrelBlockEntity::new();
    let mut stack = stone(100);
    stack.set("max_stack_size", ComponentData::integer(99));

    barrel.container.set_item(0, stack);

    assert_eq!(barrel.container.items()[0].count, 99);
}

#[test]
fn barrel_pre_remove_preserves_slots_for_existing_menu_references() {
    let mut barrel = BarrelBlockEntity::new();
    barrel.container.set_item(0, stone(1));

    let dropped = barrel.pre_remove_side_effects(false);

    assert!(dropped.is_empty());
    assert_eq!(barrel.container.items().len(), BARREL_SLOTS);
    assert!(barrel.container.items().iter().all(ItemStack::is_empty));
}

#[test]
fn chest_pre_remove_preserves_slots_for_existing_menu_references() {
    let mut chest = ChestBlockEntity::new();
    chest.container.set_item(0, stone(1));

    let dropped = chest.pre_remove_side_effects(true);

    assert!(dropped[0].is("stone"));
    assert_eq!(chest.container.items().len(), CHEST_SLOTS);
    assert!(chest.container.items().iter().all(ItemStack::is_empty));
}

#[test]
fn lids_sound_where_they_are() {
    let at = |x, y, z| HalfBlockPos { x, y, z };
    let sound = || Some(id("block.chest.open"));
    let place = |chest_type, connected| {
        ChestBlockEntity::lid_sound((1, 2, 3), chest_type, connected, sound()).map(|(_, at)| at)
    };

    assert_eq!(
        BarrelBlockEntity::react((1, 2, 3), Direction::Up, true).sound_at,
        at(3, 6, 7)
    );
    assert_eq!(place(ChestType::Single, Direction::West), Some(at(3, 5, 7)));
    assert_eq!(place(ChestType::Right, Direction::West), Some(at(2, 5, 7)));
    assert_eq!(place(ChestType::Left, Direction::West), None);
    assert!(ChestBlockEntity::lid_sound((1, 2, 3), ChestType::Single, Direction::Up, None).is_none());
    assert_eq!(ChestBlockEntity::opener_count_changed(3), (1, 3));
    assert!(ChestBlockEntity::trigger_event(1));
    assert!(!ChestBlockEntity::trigger_event(2));
}

#[test]
fn containers_are_named_and_opened_like_their_contents() {
    let barrel = BarrelBlockEntity::new();
    let chest = ChestBlockEntity::new();
    let title = NbtTag::Text("Barrel".to_owned());

    assert!(barrel.display_name(title.copy()).same(&title));
    assert!(chest.display_name(title.copy()).same(&title));
    assert!(!chest.has_custom_name());
    assert!(barrel.can_open(false, false));
    assert!(chest.can_open(true, false));
}

#[test]
fn barrel_menus_open_wait_or_stay_shut() {
    let provider = BarrelMenuProvider {
        is_barrel: true,
        can_open: true,
        is_spectator: false,
        has_container: true,
    };
    let opened = |access| provider.create_menu(|| access).creation;
    let shut = |provider: BarrelMenuProvider| provider.create_menu(|| unreachable!());

    assert_eq!(opened(ContainerAccessResult::Ready), MenuCreation::Opened);
    assert_eq!(opened(ContainerAccessResult::Pending), MenuCreation::Deferred);
    assert_eq!(opened(ContainerAccessResult::Failed), MenuCreation::Unavailable);
    assert_eq!(
        shut(BarrelMenuProvider { can_open: false, ..provider }),
        MenuOutcome { creation: MenuCreation::Unavailable, notify_locked: true }
    );
    assert!(!shut(BarrelMenuProvider { can_open: false, is_spectator: true, ..provider }).notify_locked);
    assert_eq!(
        shut(BarrelMenuProvider { is_barrel: false, ..provider }).creation,
        MenuCreation::Unavailable
    );
    assert_eq!(
        shut(BarrelMenuProvider { has_container: false, ..provider }).creation,
        MenuCreation::Unavailable
    );
}

fn waiting() -> WaitingPlayer {
    WaitingPlayer {
        awaits_token: true,
        same_world: true,
        in_world: true,
        has_container_open: false,
    }
}

fn found(readiness: ContainerReadiness) -> FoundBlock {
    FoundBlock {
        is_same_block: true,
        container: Some(FoundContainer {
            container_id: 8,
            still_valid: true,
            can_open: true,
            readiness,
        }),
    }
}

#[test]
fn deferred_barrel_opens_only_after_everything_is_checked_again() {
    let job = DeferredBarrelOpenJob { container_id: 8 };
    let ready = found(ContainerReadiness::Ready);

    assert_eq!(job.poll(Some(waiting()), ready), DeferredOpen::Open);
    assert_eq!(
        job.poll(Some(waiting()), found(ContainerReadiness::Pending)),
        DeferredOpen::Pending
    );
    assert_eq!(
        job.poll(Some(waiting()), found(ContainerReadiness::NeedsPreparation)),
        DeferredOpen::Dropped
    );
    assert_eq!(job.poll(None, ready), DeferredOpen::Abandoned);
    let busy = WaitingPlayer { has_container_open: true, ..waiting() };
    assert_eq!(job.poll(Some(busy), ready), DeferredOpen::Dropped);
    let other = FoundBlock { is_same_block: false, ..ready };
    assert_eq!(job.poll(Some(waiting()), other), DeferredOpen::Dropped);
    let gone = FoundBlock { container: None, ..ready };
    assert_eq!(job.poll(Some(waiting()), gone), DeferredOpen::Dropped);
    let replaced = DeferredBarrelOpenJob { container_id: 9 };
    assert_eq!(replaced.poll(Some(waiting()), ready), DeferredOpen::Dropped);
    assert!(job.cancel(true));
    assert!(!job.cancel(false));
}

#[test]
fn barrel_block_faces_the_player_and_signals_its_contents() {
    let behavior = BarrelBlock::new(id("barrel"));

    assert_eq!(behavior.get_state_for_placement(Direction::Down), Direction::Up);
    assert_eq!(behavior.use_without_item(true).result, InteractionResult::Success);
    assert!(!behavior.use_without_item(false).opens_menu);
    let ready = Some(ContainerAccessResult::Ready);
    assert_eq!(behavior.get_analog_output_signal(true, ready, 9), 9);
    assert_eq!(behavior.get_analog_output_signal(false, ready, 9), 0);
    assert_eq!(
        behavior.get_analog_output_signal(true, Some(ContainerAccessResult::Pending), 9),
        0
    );
    assert_eq!(behavior.get_analog_output_signal(true, None, 9), 0);
}

#[test]
fn directions_have_opposites() {
    for direction in [Direction::Down, Direction::North, Direction::East] {
        let (x, y, z) = direction.offset();
        assert_eq!(direction.opposite().offset(), (-x, -y, -z));
    }
}
