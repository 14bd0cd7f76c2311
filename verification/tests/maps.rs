//! Map items: stores, packets, drawing and synchronization.
use steel::data_components::map::DataComponentMap;
use steel::data_components::{ComponentData, ComponentKind};
use steel::ident::Identifier;
use steel::item_stack::{Item, ItemStack};
use steel::keyed::Tag;
use steel::loot_table::conditions::BlockPos;
use steel::map::biome_preview::{
    packed_color, row_wave, BiomePreview, BiomePreviewPoll, PreviewPhase,
};
use steel::map::packet::{CMapItemData, MapDecoration, MapDecorationType, MapPatch};
use steel::map::player_sync::{HeldMap, MapDataStore, TerrainRequest};
use steel::map::store::{
    MapDataError, MapDataState, PersistentMapData, PersistentMapItemSavedData,
};
use steel::map::terrain::{
    ceiling_sample, most_common_color, sample_area, sampling_chunks, terrain_brightness,
    terrain_sample, update_map, water_brightness, ChunkPos, ColumnBlock, MapDirtyBounds,
    SampledColumns, TerrainColumn, TerrainSample,
};
use steel::map::tracking::{
    map_rotation, CarriedMap, MapDecorationEntry, MapPoint, PlayerFacts,
    PlayerSession,
};
use steel::map::{MapItemSavedData, NewMapData, MAP_COLOR_COUNT};
use steel::map_color::{MapBrightness, MapColor};
use steel::nbt::{NbtCompound, NbtTag};

const SIDE: usize = 128;

fn id(path: &str) -> Identifier {
    Identifier::vanilla(path)
}

fn pos(x: i32, y: i32, z: i32) -> BlockPos {
    BlockPos { x, y, z }
}

fn new_map(origin: BlockPos, scale: i8, unlimited_tracking: bool, colors: Vec<u8>) -> NewMapData {
    NewMapData {
        origin,
        scale,
        tracking_position: true,
        unlimited_tracking,
        world: id("overworld"),
        dimension_type: id("overworld"),
        colors,
    }
}

fn saved_map(world: Identifier, scale: i8) -> MapItemSavedData {
    MapItemSavedData {
        center_x: 0,
        center_z: 0,
        world,
        dimension_type: id("overworld"),
        tracking_position: true,
        unlimited_tracking: true,
        scale,
        colors: vec![0; MAP_COLOR_COUNT],
        locked: false,
    }
}

fn create(state: &mut MapDataState, map: NewMapData) -> i32 {
    match state.create_map(map) {
        Ok(id) => id,
        Err(error) => panic!("map allocation should succeed: {error:?}"),
    }
}

#[test]
fn fresh_map_centers_match_vanilla_grid() {
    assert_eq!(MapItemSavedData::fresh_center(pos(0, 64, 0), 0), (0, 0));
    assert_eq!(MapItemSavedData::fresh_center(pos(500, 64, -500), 2), (704, -320));
}

#[test]
fn fresh_maps_show_their_origin() {
    for scale in 0..=4 {
        for origin in [-1_000_003, -65, -64, -1, 0, 63, 64, 999_999] {
            let (center, _) = MapItemSavedData::fresh_center(pos(origin, 0, 0), scale);
            let half = 64 << scale;
            assert!(center - half <= origin && origin < center + half);
        }
    }
}

#[test]
fn map_ids_are_domain_store_local_and_start_at_zero() {
    let mut first = MapDataState::new();
    let mut second = MapDataState::new();
    let colors = vec![0; MAP_COLOR_COUNT];

    let first_id = create(&mut first, new_map(pos(0, 64, 0), 1, true, colors.clone()));
    let second_id = create(&mut second, new_map(pos(10, 64, 10), 1, true, colors));

    assert_eq!(first_id, 0);
    assert_eq!(second_id, 0);
}

#[test]
fn persisted_map_scales_are_clamped_to_vanilla_bounds() {
    let maps = [-8, 9]
        .into_iter()
        .enumerate()
        .map(|(number, scale)| PersistentMapItemSavedData {
            id: number as i32,
            map: saved_map(id("overworld"), scale),
        })
        .collect();

    let Ok(state) = MapDataState::from_persistent(PersistentMapData { last_map_id: 1, maps }) else {
        panic!("otherwise valid persisted maps should load");
    };

    assert_eq!(state.get(0).map(|map| map.scale), Some(0));
    assert_eq!(state.get(1).map(|map| map.scale), Some(4));
}

#[test]
fn map_data_round_trips_and_continues_the_persistent_id_sequence() {
    let mut store = MapDataState::new();
    assert!(store.persistent_snapshot().is_none());
    let mut colors = vec![0; MAP_COLOR_COUNT];
    colors[321] = 47;
    let first_id = create(&mut store, new_map(pos(500, 64, -500), 2, false, colors.clone()));
    let Some((revision, stored)) = store.persistent_snapshot() else {
        panic!("changed map data should save");
    };
    store.finish_save(revision);
    assert!(store.persistent_snapshot().is_none());

    let Ok(mut reloaded) = MapDataState::from_persistent(stored) else {
        panic!("saved map data should reload");
    };

    let Some(map) = reloaded.get(first_id) else {
        panic!("saved map should be present after reload");
    };
    assert_eq!((map.center_x, map.center_z), (704, -320));
    assert!(map.world.is_vanilla("overworld"));
    assert!(map.dimension_type.is_vanilla("overworld"));
    assert!(map.tracking_position);
    assert!(!map.unlimited_tracking);
    assert_eq!(map.scale, 2);
    assert_eq!(map.colors, colors);
    assert!(!map.locked);
    let blank = new_map(pos(0, 64, 0), 0, true, vec![0; MAP_COLOR_COUNT]);
    assert_eq!(create(&mut reloaded, blank), first_id + 1);
}

#[test]
fn bad_map_data_is_refused() {
    let refused = |last_map_id, maps| {
        MapDataState::from_persistent(PersistentMapData { last_map_id, maps }).err()
    };
    let stored = |number, colors| {
        let mut map = saved_map(id("overworld"), 0);
        map.colors = colors;
        PersistentMapItemSavedData { id: number, map }
    };
    let full = || vec![0; MAP_COLOR_COUNT];

    assert!(matches!(refused(-2, Vec::new()), Some(MapDataError::InvalidLastId { id: -2 })));
    assert!(matches!(
        refused(0, vec![stored(-1, full())]),
        Some(MapDataError::NegativeId { id: -1 })
    ));
    assert!(refused(0, vec![stored(0, vec![0; 3])]).is_some());
    assert!(refused(1, vec![stored(0, full()), stored(0, full())]).is_some());
    let mut state = MapDataState::new();
    assert!(matches!(
        state.create_map(new_map(pos(0, 0, 0), 0, true, vec![0; 5])),
        Err(MapDataError::ColorLength { found: 5 })
    ));
    assert!(state.get(0).is_none());
}

#[test]
fn batches_are_allocated_in_order_or_not_at_all() {
    let mut state = MapDataState::new();
    let good = || new_map(pos(0, 64, 0), 0, true, vec![0; MAP_COLOR_COUNT]);

    assert!(state.create_maps(vec![good(), good()]).is_ok_and(|ids| ids == [0, 1]));
    let bad = new_map(pos(0, 64, 0), 0, true, Vec::new());
    assert!(state.create_maps(vec![good(), bad]).is_err());
    assert!(state.get(2).is_none());
    assert!(state.create_maps(vec![good()]).is_ok_and(|ids| ids == [2]));
}

fn decoration_types() -> Vec<MapDecorationType> {
    ["player", "red_x", "mansion"]
        .iter()
        .map(|path| MapDecorationType { key: id(path), map_color: None })
        .collect()
}

#[test]
fn writes_vanilla_map_packet_shape() {
    let packet = CMapItemData {
        map_id: 7,
        scale: 2,
        locked: false,
        decorations: Some(vec![MapDecoration::new(id("player"), -128, 127, 18, None)]),
        color_patch: Some(MapPatch { start_x: 3, start_y: 4, width: 2, height: 1, colors: vec![5, 6] }),
    };

    let encoded = packet.write(&decoration_types());

    let mut expected = vec![7];
    expected.extend_from_slice(&[2, 0, 1]);
    expected.push(1);
    expected.push(0);
    expected.extend_from_slice(&[128, 127, 2, 0, 2, 1, 3, 4]);
    expected.push(2);
    expected.extend_from_slice(&[5, 6]);
    assert_eq!(encoded, Some(expected));
}

#[test]
fn absent_patch_is_encoded_as_zero_width() {
    let packet = CMapItemData {
        map_id: 0,
        scale: 0,
        locked: true,
        decorations: None,
        color_patch: None,
    };

    assert_eq!(packet.write(&decoration_types()), Some(vec![0, 0, 1, 0, 0]));
}

#[test]
fn large_numbers_take_more_bytes_and_unknown_icons_are_refused() {
    let packet = |map_id, kind: &str| CMapItemData {
        map_id,
        scale: 0,
        locked: false,
        decorations: Some(vec![MapDecoration::new(id(kind), 0, 0, 0, Some(vec![9, 9]))]),
        color_patch: None,
    };

    assert_eq!(
        packet(300, "red_x").write(&decoration_types()),
        Some(vec![0xAC, 0x02, 0, 0, 1, 1, 1, 0, 0, 0, 1, 9, 9, 0])
    );
    assert_eq!(packet(300, "unheard_of").write(&decoration_types()), None);
    assert_eq!(
        packet(-1, "player").write(&decoration_types()).map(|bytes| bytes[..5].to_vec()),
        Some(vec![0xFF, 0xFF, 0xFF, 0xFF, 0x0F])
    );
}

fn render_all_columns(preview: &mut BiomePreview) -> Vec<u8> {
    loop {
        let PreviewPhase::Rendering { next_column } = preview.phase else {
            panic!("preview should remain in its rendering phase");
        };
        match preview.render_columns(next_column) {
            BiomePreviewPoll::Pending => {}
            BiomePreviewPoll::Ready(colors) => return colors,
            BiomePreviewPoll::MissingBiome(_) => panic!("direct rendering should not query biomes"),
        }
    }
}

#[test]
fn all_water_preview_uses_vanilla_even_row_stripes_and_blank_odd_rows() {
    let mut preview = BiomePreview::new(pos(0, 0, 0), 1);
    preview.watery.fill(true);
    preview.phase = PreviewPhase::Rendering { next_column: 1 };

    let colors = render_all_columns(&mut preview);

    assert_eq!(colors[3 * SIDE + 64], 0);
    assert_ne!(colors[4 * SIDE + 64], 0);
    assert!(colors[..SIDE].iter().all(|&color| color == 0));
}

#[test]
fn land_next_to_water_uses_brown_outline() {
    let mut preview = BiomePreview::new(pos(0, 0, 0), 1);
    preview.watery[64 * SIDE + 64] = true;
    preview.phase = PreviewPhase::Rendering { next_column: 1 };

    let colors = render_all_columns(&mut preview);

    assert_eq!(colors[64 * SIDE + 63], packed_color(26, MapBrightness::Lowest.bits()));
}

#[test]
fn preview_is_sampled_and_rendered_in_slices() {
    let mut preview = BiomePreview::new(pos(0, 0, 0), 0);
    let mut polls = 0;

    let colors = loop {
        polls += 1;
        match preview.poll(|x, _| Some(x < 0)) {
            BiomePreviewPoll::Pending => {}
            BiomePreviewPoll::Ready(colors) => break colors,
            BiomePreviewPoll::MissingBiome(_) => panic!("every biome is known"),
        }
    };

    assert!(polls > 2);
    assert_eq!(colors.len(), MAP_COLOR_COUNT);
    assert!(colors.iter().any(|&color| color != 0));
}

#[test]
fn preview_waits_for_unknown_biomes() {
    let mut preview = BiomePreview::new(pos(0, 0, 0), 0);

    let poll = preview.poll(|_, _| None);

    assert!(matches!(poll, BiomePreviewPoll::MissingBiome(_)));
}

#[test]
fn waves_follow_the_sine_of_their_row() {
    for row in (0..SIDE).step_by(2) {
        let wave = ((row as f32).sin() * 7.0) as i32;
        assert_eq!(row_wave(row), wave, "row {row}");
    }
}

#[test]
fn nether_rotation_uses_domain_world_identity_not_dimension_type() {
    let mut map = saved_map(Identifier::new("domain", "custom_nether"), 0);
    map.dimension_type = id("the_nether");
    let turn = turn_of(90.0);

    assert_eq!(map_rotation(&map, turn, 20), 4);
    map.world = Identifier::new("domain", "the_nether");
    map.dimension_type = id("overworld");
    assert_eq!(map_rotation(&map, turn, 20), 13);
}

fn turn_of(yaw: f64) -> i8 {
    let adjusted = if yaw < 0.0 { yaw - 8.0 } else { yaw + 8.0 };
    (adjusted * 16.0 / 360.0) as i32 as i8
}

fn coordinate(delta: f32) -> i8 {
    if delta <= -63.0 {
        -128
    } else if delta >= 63.0 {
        127
    } else {
        (delta * 2.0 + 0.5) as i8
    }
}

fn place(center_x: i32, center_z: i32, scale: i8, x: u64, z: u64, yaw: u32) -> MapPoint {
    let side = (1_i32 << scale) as f32;
    let x = (f64::from_bits(x) - f64::from(center_x)) as f32 / side;
    let z = (f64::from_bits(z) - f64::from(center_z)) as f32 / side;
    MapPoint {
        x: coordinate(x),
        y: coordinate(z),
        inside: (-63.0..=63.0).contains(&x) && (-63.0..=63.0).contains(&z),
        near: x.abs() < 320.0 && z.abs() < 320.0,
        turn: turn_of(f64::from(f32::from_bits(yaw))),
    }
}

fn filled_map(map_id: i32) -> ItemStack {
    let item = Item { key: id("filled_map"), components: DataComponentMap::new() };
    let mut stack = ItemStack::new(&item);
    stack.set("map_id", ComponentData::number(ComponentKind::MapId, map_id));
    stack
}

fn icon(kind: &str, x: f64, z: f64, rotation: f32) -> MapDecorationEntry {
    MapDecorationEntry {
        decoration_type: id(kind),
        x: x.to_bits(),
        z: z.to_bits(),
        rotation: rotation.to_bits(),
    }
}

struct Player {
    session: PlayerSession,
    x: f64,
    z: f64,
    items: Vec<ItemStack>,
    present: bool,
}

impl Player {
    fn new(name: &str, uuid: u128, items: Vec<ItemStack>) -> Self {
        Self {
            session: PlayerSession { uuid, session: uuid as u64, name: name.to_owned() },
            x: 0.0,
            z: 0.0,
            items,
            present: true,
        }
    }

    fn facts(&self) -> PlayerFacts {
        PlayerFacts {
            removed: !self.present,
            in_domain: true,
            name: self.session.name.clone(),
            world: id("overworld"),
            x: self.x.to_bits(),
            z: self.z.to_bits(),
            yaw: 0.0_f32.to_bits(),
            game_time: 0,
            items: self.items.iter().map(ItemStack::copy).collect(),
            worn: Vec::new(),
        }
    }
}

struct Server {
    store: MapDataStore,
    players: Vec<Player>,
    tags: Vec<Tag>,
}

impl Server {
    fn synchronize(&mut self, player: usize, held: &[i32], ready: bool) -> Vec<CMapItemData> {
        let extra: Vec<(String, MapDecorationEntry)> = Vec::new();
        self.synchronize_with(player, held, ready, &extra)
    }

    /// One tick of a player's maps, with the same icons on every carried map. The
    /// chunks hold nothing but air.
    fn synchronize_with(
        &mut self,
        player: usize,
        held: &[i32],
        ready: bool,
        icons: &[(String, MapDecorationEntry)],
    ) -> Vec<CMapItemData> {
        let seen = &self.players[player];
        let carried = seen
            .items
            .iter()
            .filter_map(CarriedMap::from_item)
            .map(|mut map| {
                map.decorations.extend(icons.iter().map(|(name, entry)| (name.clone(), entry.copy())));
                map
            })
            .collect::<Vec<_>>();
        let held = held
            .iter()
            .filter_map(|&map_id| {
                let map = self.store.state.get(map_id)?;
                Some(HeldMap {
                    id: map_id,
                    offset_x: (seen.x - f64::from(map.center_x)).floor() as i32,
                    offset_z: (seen.z - f64::from(map.center_z)).floor() as i32,
                })
            })
            .collect::<Vec<_>>();
        let world = id("overworld");
        let players = &self.players;
        let asked = |_: &TerrainRequest| ready;
        let air = |x: i32, z: i32, scale: i32| {
            sample_area(ready, false, x, z, scale, || SampledColumns {
                columns: (0..scale * scale)
                    .map(|_| TerrainColumn { height: -64, blocks: Vec::new() })
                    .collect(),
                min_y: -64,
            })
        };
        let known = |uuid: u128, session: u64| {
            players
                .iter()
                .find(|player| player.session.uuid == uuid && player.session.session == session)
                .map(Player::facts)
        };
        self.store.synchronize_player(
            &seen.session,
            &carried,
            &held,
            &world,
            false,
            true,
            &self.tags,
            &asked,
            &air,
            &known,
            &place,
        )
    }
}

fn server(scale: i8, colors: Vec<u8>) -> (Server, i32) {
    let mut store = MapDataStore::new();
    let map_id = create(&mut store.state, new_map(pos(0, 64, 0), scale, true, colors));
    (Server { store, players: Vec::new(), tags: Vec::new() }, map_id)
}

#[test]
fn first_carried_map_update_contains_full_colors_and_decorations() {
    let mut colors = vec![0; MAP_COLOR_COUNT];
    colors[123] = 42;
    let (mut server, map_id) = server(1, colors.clone());
    let mut map = filled_map(map_id);
    let mut target = NbtCompound::new();
    target.insert("type", NbtTag::Text("minecraft:red_x".to_owned()));
    target.insert("x", NbtTag::Double(32.0_f64.to_bits()));
    target.insert("z", NbtTag::Double((-16.0_f64).to_bits()));
    target.insert("rotation", NbtTag::Float(180.0_f32.to_bits()));
    let mut decorations = NbtCompound::new();
    decorations.insert("+", NbtTag::Compound(target));
    map.set(
        "map_decorations",
        ComponentData::new(ComponentKind::MapDecorations, NbtTag::Compound(decorations)),
    );
    let mut player = Player::new("Mapper", 1, vec![map]);
    player.x = 8.0;
    player.z = -8.0;
    server.players.push(player);

    let packets = server.synchronize(0, &[], false);

    assert_eq!(packets.len(), 1);
    let packet = &packets[0];
    assert_eq!(packet.map_id, map_id);
    assert_eq!(packet.scale, 1);
    let Some(decorations) = &packet.decorations else {
        panic!("first map update should contain decorations");
    };
    assert_eq!(decorations.len(), 2);
    assert!(decorations[0].decoration_type.is_vanilla("player"));
    assert_eq!((decorations[0].x, decorations[0].y), (-55, -71));
    assert!(decorations[1].decoration_type.is_vanilla("red_x"));
    assert_eq!(
        (decorations[1].x, decorations[1].y, decorations[1].rotation),
        (-31, -79, 8)
    );
    let Some(patch) = &packet.color_patch else {
        panic!("first map update should contain a full color patch");
    };
    assert_eq!((patch.width, patch.height), (128, 128));
    assert_eq!(patch.colors, colors);
    assert!(server.synchronize(0, &[], false).is_empty());
}

#[test]
fn reconnecting_holder_receives_fresh_full_color_patch() {
    let stone = MapColor::stone().packed_id(MapBrightness::Normal);
    let (mut server, map_id) = server(1, vec![stone; MAP_COLOR_COUNT]);
    server.players.push(Player::new("Reconnect", 11, vec![filled_map(map_id)]));
    assert_eq!(server.synchronize(0, &[], false).len(), 1);

    let mut second = Player::new("Reconnect", 11, vec![filled_map(map_id)]);
    second.session.session = 12;
    server.players[0] = second;
    let packets = server.synchronize(0, &[], false);

    assert_eq!(packets.len(), 1);
    let Some(patch) = &packets[0].color_patch else {
        panic!("a new player session needs the complete map colors");
    };
    assert_eq!((patch.width, patch.height), (128, 128));
}

#[test]
fn held_map_updates_full_air_chunks_and_requests_unloaded_sampling_chunks() {
    let (mut server, map_id) = server(0, vec![0; MAP_COLOR_COUNT]);
    server.players.push(Player::new("Surveyor", 13, vec![filled_map(map_id)]));

    server.synchronize(0, &[map_id], false);
    let requested = server.store.tracking.maps[&map_id].holders[0]
        .terrain_request
        .as_ref()
        .map(|chunks| (chunks.len(), chunks.contains(&ChunkPos { x: -4, z: -5 })));
    assert_eq!(requested, Some((72, true)));
    assert!(server.store.state.get(map_id).is_some_and(|map| map.colors.iter().all(|&c| c == 0)));

    for _ in 0..16 {
        server.synchronize(0, &[map_id], true);
    }

    let drawn = server.store.state.get(map_id).map(|map| map.colors[64 + 64 * 128]);
    assert_eq!(drawn, Some(MapColor::stone().packed_id(MapBrightness::Normal)));
    server.store.tracking.remove_player(13);
    assert!(server.store.tracking.maps[&map_id].holders.is_empty());
}

#[test]
fn moving_player_decoration_is_sent_on_vanilla_fifth_dirty_check() {
    let (mut server, map_id) = server(0, vec![0; MAP_COLOR_COUNT]);
    server.players.push(Player::new("Walker", 2, vec![filled_map(map_id)]));
    assert_eq!(server.synchronize(0, &[], false).len(), 1);

    server.players[0].x = 10.0;
    for _ in 0..4 {
        assert!(server.synchronize(0, &[], false).is_empty());
    }
    let packets = server.synchronize(0, &[], false);

    assert_eq!(packets.len(), 1);
    assert!(packets[0].color_patch.is_none());
    assert!(packets[0].decorations.is_some());
}

#[test]
fn duplicate_map_slots_each_advance_the_decoration_throttle() {
    let (mut server, map_id) = server(0, vec![0; MAP_COLOR_COUNT]);
    server.players.push(Player::new("Copies", 5, vec![filled_map(map_id), filled_map(map_id)]));
    assert_eq!(server.synchronize(0, &[], false).len(), 1);

    server.players[0].x = 10.0;
    for _ in 0..2 {
        assert!(server.synchronize(0, &[], false).is_empty());
    }
    let packets = server.synchronize(0, &[], false);

    assert_eq!(packets.len(), 1);
    assert!(packets[0].decorations.is_some());
}

#[test]
fn later_holders_are_inserted_after_existing_static_decorations() {
    let (mut server, map_id) = server(0, vec![0; MAP_COLOR_COUNT]);
    server.players.push(Player::new("First", 3, vec![filled_map(map_id)]));
    server.players.push(Player::new("Second", 4, vec![filled_map(map_id)]));
    let icons = vec![
        ("z-first".to_owned(), icon("red_x", 32.0, -16.0, 180.0)),
        ("a-second".to_owned(), icon("mansion", -24.0, 16.0, 180.0)),
    ];

    assert_eq!(server.synchronize_with(0, &[], false, &icons).len(), 1);
    let packets = server.synchronize_with(1, &[], false, &icons);

    let Some(decorations) = &packets[0].decorations else {
        panic!("first update for the second holder should contain decorations");
    };
    let types = decorations
        .iter()
        .map(|decoration| decoration.decoration_type.text())
        .collect::<Vec<_>>();
    assert_eq!(
        types,
        ["minecraft:player", "minecraft:red_x", "minecraft:mansion", "minecraft:player"]
    );
}

#[test]
fn holders_who_put_the_map_away_disappear() {
    let (mut server, map_id) = server(0, vec![0; MAP_COLOR_COUNT]);
    server.players.push(Player::new("First", 3, vec![filled_map(map_id)]));
    server.players.push(Player::new("Second", 4, vec![filled_map(map_id)]));
    server.synchronize(1, &[], false);
    server.synchronize(0, &[], false);

    server.players[1].items.clear();
    for _ in 0..5 {
        server.synchronize(0, &[], false);
    }

    assert_eq!(server.store.tracking.maps[&map_id].holders.len(), 1);
}

#[test]
fn far_players_are_shown_at_the_edge() {
    let (mut server, map_id) = server(0, vec![0; MAP_COLOR_COUNT]);
    let mut near = Player::new("Near", 1, vec![filled_map(map_id)]);
    near.x = 100.0;
    server.players.push(near);
    let mut far = Player::new("Far", 2, vec![filled_map(map_id)]);
    far.x = -1_000.0;
    server.players.push(far);

    let kind = |packets: Vec<CMapItemData>| {
        packets[0].decorations.as_ref().map(|icons| (icons[0].decoration_type.text(), icons[0].x))
    };

    assert_eq!(
        kind(server.synchronize(0, &[], false)),
        Some(("minecraft:player_off_map".to_owned(), 127))
    );
    server.store.tracking.remove_player(1);
    server.players[0].items.clear();
    assert_eq!(
        kind(server.synchronize(1, &[], false)),
        Some(("minecraft:player_off_limits".to_owned(), -128))
    );
}

#[test]
fn sampling_area_covers_the_surroundings() {
    let map = saved_map(id("overworld"), 0);

    let chunks = sampling_chunks(&id("overworld"), false, 0, 0, &map);
    let elsewhere = sampling_chunks(&id("the_end"), false, 0, 0, &map);
    let wide = saved_map(id("overworld"), 2);
    let open = sampling_chunks(&id("overworld"), false, 0, 0, &wide);
    let under_a_ceiling = sampling_chunks(&id("overworld"), true, 0, 0, &wide);

    assert_eq!(chunks.len(), 72);
    assert!(chunks.contains(&ChunkPos { x: -4, z: -5 }));
    assert!(elsewhere.is_empty());
    assert!(under_a_ceiling.len() < open.len());
}

#[test]
fn drawing_reports_what_changed() {
    let mut map = saved_map(id("overworld"), 0);
    let grass = |_: i32, _: i32, _: i32| {
        Some(TerrainSample { total_height: 0, water_depth: 0, color: MapColor::plant() })
    };
    let unknown = |_: i32, _: i32, _: i32| -> Option<TerrainSample> { None };

    let first = update_map(&id("overworld"), false, 0, 0, 0, &mut map, &grass);
    let again = update_map(&id("overworld"), false, 0, 0, 0, &mut map, &grass);
    let nothing = update_map(&id("overworld"), false, 0, 0, 1, &mut map, &unknown);

    assert!(first.is_some());
    assert!(again.is_none());
    assert!(nothing.is_none());
}

#[test]
fn terrain_brightness_matches_its_floating_point_formula() {
    for scale in [1_i32, 2, 4, 8, 16] {
        for image in 0..2 {
            for rise in -400_i64..400 {
                let height = rise as f64 / f64::from(scale * scale);
                let odd = f64::from((image & 1) as u8) - 0.5;
                let difference = height * 4.0 / f64::from(scale + 4) + odd * 0.4;
                let expected = if difference > 0.6 {
                    MapBrightness::High
                } else if difference < -0.6 {
                    MapBrightness::Low
                } else {
                    MapBrightness::Normal
                };
                assert_eq!(
                    terrain_brightness(rise, 0, scale, image, 0),
                    expected,
                    "scale {scale}, image {image}, rise {rise}"
                );
            }
        }
    }
}

#[test]
fn water_brightness_matches_its_floating_point_formula() {
    for image in 0..2 {
        for depth in 0..30 {
            let difference = f64::from(depth) * 0.1 + f64::from(image & 1) * 0.2;
            let expected = if difference < 0.5 {
                MapBrightness::High
            } else if difference > 0.9 {
                MapBrightness::Low
            } else {
                MapBrightness::Normal
            };
            assert_eq!(water_brightness(depth, image, 0), expected, "image {image}, depth {depth}");
        }
    }
}

fn solid(color: MapColor) -> ColumnBlock {
    ColumnBlock { color, fluid: false, sturdy: true, fluid_color: MapColor::none() }
}

#[test]
fn samples_take_the_most_common_color() {
    let column = |color| TerrainColumn { height: 10, blocks: vec![solid(color); 74] };
    let columns = vec![
        column(MapColor::stone()),
        column(MapColor::plant()),
        column(MapColor::stone()),
        column(MapColor::dirt()),
    ];

    let sample = terrain_sample(&columns, -64);

    assert_eq!(sample.color, MapColor::stone());
    assert_eq!(sample.total_height, 36);
    assert_eq!(sample.water_depth, 0);
    assert_eq!(
        most_common_color(&vec![(MapColor::dirt(), 2), (MapColor::stone(), 3)]),
        MapColor::stone()
    );
}

#[test]
fn ceilings_look_like_mottled_dirt_and_stone() {
    let colors = (0..64).map(|x| ceiling_sample(x, 0, 1).color).collect::<Vec<_>>();

    assert!(colors.contains(&MapColor::dirt()));
    assert!(colors.contains(&MapColor::stone()));
}

#[test]
fn only_filled_maps_with_a_number_are_held() {
    let stone = Item { key: id("stone"), components: DataComponentMap::new() };

    assert_eq!(CarriedMap::held_id(&filled_map(7)), Some(7));
    assert_eq!(CarriedMap::held_id(&filled_map(-1)), None);
    assert_eq!(CarriedMap::held_id(&ItemStack::new(&stone)), None);
}

#[test]
fn areas_are_sampled_where_they_are_loaded() {
    let read = || SampledColumns {
        columns: vec![TerrainColumn { height: 10, blocks: vec![solid(MapColor::plant()); 74] }],
        min_y: -64,
    };

    let open = sample_area(true, false, 3, 4, 1, read);
    let under_a_ceiling = sample_area(true, true, 3, 4, 1, read);

    assert_eq!(open.map(|sample| (sample.color, sample.total_height)), Some((MapColor::plant(), 9)));
    assert_eq!(
        under_a_ceiling.map(|sample| (sample.color, sample.total_height)),
        Some((ceiling_sample(3, 4, 1).color, 100))
    );
    assert!(sample_area(false, false, 3, 4, 1, read).is_none());
}

#[test]
fn dirty_bounds_grow() {
    let mut bounds = MapDirtyBounds::single(5, 6);
    bounds.extend(2, 9);
    bounds.merge(MapDirtyBounds::single(100, 0));

    assert_eq!((bounds.min_x, bounds.min_y, bounds.max_x, bounds.max_y), (2, 0, 100, 9));
    let full = MapDirtyBounds::full();
    assert_eq!((full.min_x, full.max_x), (0, 127));
}

#[test]
fn colors_are_packed_with_their_brightness() {
    assert_eq!(MapColor::stone().packed_id(MapBrightness::Lowest), 47);
    assert_eq!(MapColor::new(1).id(), 1);
    assert_eq!(MapColor::none().packed_id(MapBrightness::Low), 0);
    assert_eq!(packed_color(15, 2), 62);
}

#[test]
fn named_colors_have_their_numbers() {
    let colors = [
        (MapColor::none(), 0),
        (MapColor::plant(), 7),
        (MapColor::dirt(), 10),
        (MapColor::stone(), 11),
        (MapColor::water(), 12),
        (MapColor::color_yellow(), 18),
    ];
    for (color, number) in colors {
        assert_eq!(color.id(), number);
        assert_eq!(color.packed_id(MapBrightness::High), number * 4 + 2);
    }
}
