//! The completion of exploration maps among container loot.
use vstd::prelude::*;

use crate::block_entity::base_container::{empty_slots, Storage};
use crate::block_entity::randomizable_container::{
    awaited, find_marked, marked, marked_place, markers_match, restore_fallback_item, restored,
    with_fallbacks, Awaited, PendingExplorationMap, PendingLoot, Randomizable,
    RandomizableContainer, Waiting,
};
use crate::data_components::{
    number_component, record_in, Component, ComponentData, ComponentKind, DataComponentGetter,
};
use crate::ident::{law_text_is_parsed_back, vanilla_id, Id, Identifier};
use crate::item_stack::{stacks_of, ItemStack, Stack};
use crate::keyed::{by_key, find};
use crate::locate::{new_search, LocatedStructure, StructureLocator};
use crate::loot_table::conditions::BlockPos;
use crate::map::biome_preview::{BiomePreview, BiomePreviewPoll, Preview};
use crate::map::packet::MapDecorationType;
use crate::map::tracking::{carried_id, item_entries, loaded_entries, loaded_entry, Entry};
use crate::map::store::{MapDataError, MapDataState};
use crate::map::{new_maps, power, NewMap, NewMapData};
use crate::nbt::{entry_position, lookup, stored, Nbt, NbtCompound, NbtTag};
use crate::registry::Registry;

verus! {

/// A positive number doubled until it has 53 bits, and how often it was doubled.
pub open spec fn scaled(value: int) -> (int, nat)
    decreases 0x20_0000_0000_0000 - value,
{
    if value <= 0 || value >= 0x10_0000_0000_0000 {
        (value, 0)
    } else {
        let (doubled, times) = scaled(2 * value);
        (doubled, times + 1)
    }
}

/// The bits of the double floating-point number that a whole number is: the sign, the
/// exponent and the digits after the first one.
pub open spec fn double_bits(value: i32) -> u64 {
    if value == 0 {
        0
    } else {
        let (digits, times) = scaled(
            if value < 0 {
                -value as int
            } else {
                value as int
            },
        );
        (if value < 0 {
            0x8000_0000_0000_0000int
        } else {
            0
        } + (1075 - times) * 0x10_0000_0000_0000 + digits - 0x10_0000_0000_0000) as u64
    }
}

/// The bits of the double floating-point number that a whole number is.
pub fn to_double_bits(value: i32) -> (bits: u64)
    ensures
        bits == double_bits(value),
{
    if value == 0 {
        return 0;
    }
    let size: u64 = if value < 0 {
        (-(value as i64)) as u64
    } else {
        value as u64
    };
    let mut digits: u64 = size;
    let mut times: u64 = 0;
    while digits < 0x10_0000_0000_0000
        invariant
            1 <= digits < 0x20_0000_0000_0000,
            times <= 52,
            digits < 0x10_0000_0000_0000 ==> times < 52,
            digits as int >= power(times as nat),
            scaled(size as int) == (
                scaled(digits as int).0,
                (scaled(digits as int).1 + times) as nat,
            ),
        decreases 0x20_0000_0000_0000 - digits,
    {
        proof {
            reveal_with_fuel(scaled, 2);
            if times == 51 {
                assert(power(52) == 0x10_0000_0000_0000) by {
                    reveal_with_fuel(power, 53);
                }
                assert(power(52) == 2 * power(51));
            }
        }
        digits = digits * 2;
        times = times + 1;
    }
    let sign: u64 = if value < 0 {
        0x8000_0000_0000_0000
    } else {
        0
    };
    sign + (1075 - times) * 0x10_0000_0000_0000 + (digits - 0x10_0000_0000_0000)
}

/// Why exploration maps could not be completed.
#[derive(Debug)]
pub enum ExplorationError {
    UnknownStructureTag(Identifier),
    MarkerOrderChanged,
    UnknownDecorationType(Identifier),
    InvalidZoom(i32),
    Allocation(MapDataError),
    MarkersChanged,
    LocationCancelled,
    RequestMissing,
    MissingBiome(BlockPos),
}

/// Why exploration maps could not be completed, as a mathematical value.
pub ghost enum Failure {
    UnknownStructureTag(Id),
    MarkerOrderChanged,
    UnknownDecorationType(Id),
    InvalidZoom(i32),
    Allocation(MapDataError),
    MarkersChanged,
    LocationCancelled,
    RequestMissing,
    MissingBiome(BlockPos),
}

impl View for ExplorationError {
    type V = Failure;

    open spec fn view(&self) -> Failure {
        match self {
            ExplorationError::UnknownStructureTag(key) => Failure::UnknownStructureTag(key@),
            ExplorationError::MarkerOrderChanged => Failure::MarkerOrderChanged,
            ExplorationError::UnknownDecorationType(key) => Failure::UnknownDecorationType(key@),
            ExplorationError::InvalidZoom(zoom) => Failure::InvalidZoom(*zoom),
            ExplorationError::Allocation(error) => Failure::Allocation(*error),
            ExplorationError::MarkersChanged => Failure::MarkersChanged,
            ExplorationError::LocationCancelled => Failure::LocationCancelled,
            ExplorationError::RequestMissing => Failure::RequestMissing,
            ExplorationError::MissingBiome(pos) => Failure::MissingBiome(*pos),
        }
    }
}

/// What was found for an exploration map, as a mathematical value.
#[verifier::ext_equal]
pub ghost struct Resolved {
    pub marker: i32,
    pub target: Option<(BlockPos, Seq<u8>)>,
}

/// What was found for an exploration map.
#[derive(Debug)]
pub struct ResolvedExplorationMap {
    pub marker: i32,
    /// The structure and the colors of its map, where a structure was found.
    pub target_and_colors: Option<(BlockPos, Vec<u8>)>,
}

impl View for ResolvedExplorationMap {
    type V = Resolved;

    open spec fn view(&self) -> Resolved {
        Resolved {
            marker: self.marker,
            target: match self.target_and_colors {
                Some((target, colors)) => Some((target, colors@)),
                None => None,
            },
        }
    }
}

/// What was found of a list.
pub open spec fn resolved_maps(resolved: Seq<ResolvedExplorationMap>) -> Seq<Resolved> {
    Seq::new(resolved.len(), |i: int| resolved[i]@)
}

/// A kind of icon and the color that an item with it takes on.
pub ghost struct IconKind {
    pub kind: Id,
    pub color: Option<i32>,
}

/// The kinds of a list.
pub open spec fn kinds_of(types: Seq<MapDecorationType>) -> Seq<IconKind> {
    Seq::new(types.len(), |i: int| IconKind { kind: types[i].key@, color: types[i].map_color })
}

/// The fresh map of a structure.
pub open spec fn explored_map(target: BlockPos, colors: Seq<u8>, zoom: i32, world: Id, dimension: Id) -> NewMap {
    NewMap {
        origin: target,
        scale: zoom as i8,
        tracking_position: true,
        unlimited_tracking: true,
        world,
        dimension_type: dimension,
        colors,
    }
}

/// What is needed to publish maps: the kinds of their icons, and the fresh maps of the
/// structures that were found; or why they cannot be published.
pub open spec fn prepared(
    maps: Seq<Awaited>,
    resolved: Seq<Resolved>,
    types: Seq<MapDecorationType>,
    world: Id,
    dimension: Id,
    kinds: Seq<IconKind>,
    fresh: Seq<NewMap>,
) -> Result<(Seq<IconKind>, Seq<NewMap>), Failure>
    decreases maps.len(),
{
    if maps.len() == 0 || resolved.len() == 0 {
        Ok((kinds, fresh))
    } else {
        let request = maps[0].request;
        if maps[0].marker != resolved[0].marker {
            Err(Failure::MarkerOrderChanged)
        } else {
            match find(types, request.decoration) {
                None => Err(Failure::UnknownDecorationType(request.decoration)),
                Some(kind) => {
                    let more = kinds.push(IconKind { kind: kind.key@, color: kind.map_color });
                    match resolved[0].target {
                        Some((target, colors)) => if !(-128 <= request.zoom <= 127) {
                            Err(Failure::InvalidZoom(request.zoom))
                        } else {
                            prepared(
                                maps.drop_first(),
                                resolved.drop_first(),
                                types,
                                world,
                                dimension,
                                more,
                                fresh.push(
                                    explored_map(target, colors, request.zoom, world, dimension),
                                ),
                            )
                        },
                        None => prepared(
                            maps.drop_first(),
                            resolved.drop_first(),
                            types,
                            world,
                            dimension,
                            more,
                            fresh,
                        ),
                    }
                },
            }
        }
    }
}

/// What is needed to publish maps.
#[derive(Debug)]
pub struct PreparedPublication {
    pub decorations: Vec<MapDecorationType>,
    pub map_ids: Vec<i32>,
}

/// The completion of the exploration maps of one container.
#[derive(Debug)]
pub struct ExplorationMapJob {
    pub token: u64,
    pub maps: Vec<PendingExplorationMap>,
    pub current: usize,
    pub phase: ExplorationPhase,
    pub resolved: Vec<ResolvedExplorationMap>,
}

#[derive(Debug)]
pub enum ExplorationPhase {
    Start,
    Locating(StructureLocator),
    Rendering { target: BlockPos, preview: BiomePreview },
    Finished,
}

/// What was found, prepared for publication; the fresh maps are allocated all at once.
impl ExplorationMapJob {
    pub open spec fn prepared(self, types: Seq<MapDecorationType>, world: Id, dimension: Id) -> Result<
        (Seq<IconKind>, Seq<NewMap>),
        Failure,
    > {
        prepared(
            awaited(self.maps@),
            resolved_maps(self.resolved@),
            types,
            world,
            dimension,
            Seq::empty(),
            Seq::empty(),
        )
    }

    /// Prepares the publication: allocates the maps of the structures that were found.
    pub fn prepare_publication(
        &self,
        registry: &Registry,
        store: &mut MapDataState,
        world: &Identifier,
        dimension_type: &Identifier,
    ) -> (result: Result<PreparedPublication, ExplorationError>)
        ensures
            match self.prepared(registry.map_decoration_types@, world@, dimension_type@) {
                Err(failure) => result matches Err(error) && error@ == failure && final(store)@
                    == old(store)@,
                Ok((kinds, fresh)) => match old(store)@.refusal(fresh) {
                    Some(refusal) => result matches Err(error) && error@ == Failure::Allocation(
                        refusal,
                    ) && final(store)@ == old(store)@,
                    None => {
                        &&& result matches Ok(publication) && kinds_of(publication.decorations@)
                            == kinds && publication.map_ids@ == Seq::new(
                            fresh.len(),
                            |i: int| (old(store)@.last + 1 + i) as i32,
                        )
                        &&& final(store)@ == old(store)@.with_batch(fresh)
                    },
                },
            },
            old(store)@.well_formed() ==> final(store)@.well_formed(),
    {
        let ghost maps = awaited(self.maps@);
        let ghost found = resolved_maps(self.resolved@);
        let ghost types = registry.map_decoration_types@;
        let ghost expected = self.prepared(types, world@, dimension_type@);
        let mut decorations: Vec<MapDecorationType> = Vec::new();
        let mut fresh: Vec<NewMapData> = Vec::new();
        let mut i: usize = 0;
        assert(maps.skip(0) =~= maps);
        assert(found.skip(0) =~= found);
        assert(kinds_of(decorations@) =~= Seq::empty());
        assert(new_maps(fresh@) =~= Seq::empty());
        while i < self.maps.len() && i < self.resolved.len()
            invariant
                i <= self.maps@.len(),
                i <= self.resolved@.len(),
                maps == awaited(self.maps@),
                found == resolved_maps(self.resolved@),
                types == registry.map_decoration_types@,
                store@ == old(store)@,
                expected == self.prepared(types, world@, dimension_type@),
                expected == prepared(
                    maps.skip(i as int),
                    found.skip(i as int),
                    types,
                    world@,
                    dimension_type@,
                    kinds_of(decorations@),
                    new_maps(fresh@),
                ),
            decreases self.maps@.len() - i,
        {
            let ghost kinds = kinds_of(decorations@);
            let ghost made = new_maps(fresh@);
            assert(maps.skip(i as int)[0] == self.maps@[i as int]@);
            assert(found.skip(i as int)[0] == self.resolved@[i as int]@);
            assert(maps.skip(i as int).drop_first() =~= maps.skip(i + 1));
            assert(found.skip(i as int).drop_first() =~= found.skip(i + 1));
            let map = &self.maps[i];
            let resolved = &self.resolved[i];
            if map.marker != resolved.marker {
                return Err(ExplorationError::MarkerOrderChanged);
            }
            let kind = match by_key(&registry.map_decoration_types, &map.request.decoration) {
                Some(kind) => kind,
                None => {
                    return Err(
                        ExplorationError::UnknownDecorationType(map.request.decoration.clone()),
                    );
                },
            };
            let copied = MapDecorationType { key: kind.key.clone(), map_color: kind.map_color };
            decorations.push(copied);
            assert(kinds_of(decorations@) =~= kinds.push(
                IconKind { kind: kind.key@, color: kind.map_color },
            ));
            if let Some((target, colors)) = &resolved.target_and_colors {
                let zoom: i32 = map.request.zoom;
                if zoom < -128 || zoom > 127 {
                    return Err(ExplorationError::InvalidZoom(zoom));
                }
                let copied = colors.clone();
                assert(copied@ =~= colors@);
                let new_map = NewMapData {
                    origin: *target,
                    scale: zoom as i8,
                    tracking_position: true,
                    unlimited_tracking: true,
                    world: world.clone(),
                    dimension_type: dimension_type.clone(),
                    colors: copied,
                };
                let ghost added = new_map@;
                fresh.push(new_map);
                assert(new_maps(fresh@) =~= made.push(added));
            }
            i = i + 1;
        }
        let ghost batch = new_maps(fresh@);
        match store.create_maps(fresh) {
            Ok(map_ids) => {
                assert(map_ids@ =~= Seq::new(
                    batch.len(),
                    |i: int| (old(store)@.last + 1 + i) as i32,
                ));
                Ok(PreparedPublication { decorations, map_ids })
            },
            Err(error) => Err(ExplorationError::Allocation(error)),
        }
    }
}

/// The entry of a structure's icon, which points down.
pub open spec fn target_entry(kind: Id, target: BlockPos) -> Nbt {
    Nbt::Compound(
        seq![
            ("type"@, Nbt::Text(kind.text())),
            ("x"@, Nbt::Double(double_bits(target.x))),
            ("z"@, Nbt::Double(double_bits(target.z))),
            ("rotation"@, Nbt::Float(0x4334_0000)),
        ],
    )
}

/// The entries of a component with icons.
pub open spec fn icon_entries(data: Option<Component>) -> Seq<(Seq<char>, Nbt)> {
    match record_in(data, ComponentKind::MapDecorations) {
        Some(entries) => entries,
        None => Seq::empty(),
    }
}

/// A placeholder that has become a map with an icon for a structure.
pub open spec fn mapped(stack: Stack, id: i32, kind: IconKind, target: BlockPos) -> Stack {
    let numbered = stack.with(
        vanilla_id("map_id"@),
        number_component(ComponentKind::MapId, id),
    );
    let entries = icon_entries(numbered.component(vanilla_id("map_decorations"@)));
    let marked = numbered.with(
        vanilla_id("map_decorations"@),
        Component {
            kind: ComponentKind::MapDecorations,
            value: Nbt::Compound(stored(entries, "+"@, target_entry(kind.kind, target))),
        },
    );
    match kind.color {
        Some(color) => marked.with(
            vanilla_id("map_color"@),
            number_component(ComponentKind::MapColor, color),
        ),
        None => marked,
    }
}

/// Turns a placeholder into a map with an icon for a structure.
fn complete_map(item: &mut ItemStack, id: i32, kind: &MapDecorationType, target: BlockPos)
    ensures
        final(item)@ == mapped(
            old(item)@,
            id,
            IconKind { kind: kind.key@, color: kind.map_color },
            target,
        ),
{
    item.set("map_id", ComponentData::number(ComponentKind::MapId, id));
    let ghost numbered = item@;
    let key = Identifier::vanilla("map_decorations");
    let mut entries = match item.get_raw(&key) {
        Some(data) => match data.as_record(ComponentKind::MapDecorations) {
            Some(entries) => entries.copy(),
            None => NbtCompound::new(),
        },
        None => NbtCompound::new(),
    };
    assert(entries@ =~= icon_entries(numbered.component(vanilla_id("map_decorations"@))));
    let mut entry = NbtCompound::new();
    entry.insert("type", NbtTag::Text(kind.key.text()));
    entry.insert("x", NbtTag::Double(to_double_bits(target.x)));
    entry.insert("z", NbtTag::Double(to_double_bits(target.z)));
    entry.insert("rotation", NbtTag::Float(0x4334_0000));
    assert(Nbt::Compound(entry@) =~= target_entry(kind.key@, target)) by {
        assert(entry@ =~= target_entry(kind.key@, target)->Compound_0);
    }
    entries.put("+", NbtTag::Compound(entry));
    item.set(
        "map_decorations",
        ComponentData::new(ComponentKind::MapDecorations, NbtTag::Compound(entries)),
    );
    if let Some(color) = kind.map_color {
        item.set("map_color", ComponentData::number(ComponentKind::MapColor, color));
    }
}

/// Items after the placeholders of maps were replaced, from the map at `i` and the
/// number at `next` on, and whether a placeholder or a number was missing.
pub open spec fn with_maps(
    items: Seq<Stack>,
    maps: Seq<Awaited>,
    resolved: Seq<Resolved>,
    kinds: Seq<IconKind>,
    ids: Seq<i32>,
    i: nat,
    next: nat,
) -> (Seq<Stack>, bool)
    decreases maps.len() - i,
{
    if i >= maps.len() || i >= resolved.len() || i >= kinds.len() {
        (items, true)
    } else {
        let place = marked_place(items, maps[i as int].marker);
        if !(0 <= place < items.len()) {
            (items, false)
        } else {
            match resolved[i as int].target {
                None => with_maps(
                    items.update(place, restored(items[place], maps[i as int].fallback)),
                    maps,
                    resolved,
                    kinds,
                    ids,
                    i + 1,
                    next,
                ),
                Some((target, _)) => if next >= ids.len() {
                    (items, false)
                } else {
                    with_maps(
                        items.update(
                            place,
                            mapped(items[place], ids[next as int], kinds[i as int], target),
                        ),
                        maps,
                        resolved,
                        kinds,
                        ids,
                        i + 1,
                        next + 1,
                    )
                },
            }
        }
    }
}

/// Replaces the placeholders of maps; tells whether none and no number was missing.
fn place_maps(
    items: &mut Vec<ItemStack>,
    maps: &Vec<PendingExplorationMap>,
    resolved: &Vec<ResolvedExplorationMap>,
    publication: &PreparedPublication,
) -> (complete: bool)
    ensures
        (stacks_of(final(items)@), complete) == with_maps(
            stacks_of(old(items)@),
            awaited(maps@),
            resolved_maps(resolved@),
            kinds_of(publication.decorations@),
            publication.map_ids@,
            0,
            0,
        ),
{
    let ghost before = stacks_of(items@);
    let ghost noted = awaited(maps@);
    let ghost found = resolved_maps(resolved@);
    let ghost kinds = kinds_of(publication.decorations@);
    let ghost ids = publication.map_ids@;
    let mut i: usize = 0;
    let mut next: usize = 0;
    while i < maps.len() && i < resolved.len() && i < publication.decorations.len()
        invariant
            i <= maps@.len(),
            next <= i,
            noted == awaited(maps@),
            found == resolved_maps(resolved@),
            kinds == kinds_of(publication.decorations@),
            ids == publication.map_ids@,
            before == stacks_of(old(items)@),
            with_maps(before, noted, found, kinds, ids, 0, 0) == with_maps(
                stacks_of(items@),
                noted,
                found,
                kinds,
                ids,
                i as nat,
                next as nat,
            ),
        decreases maps@.len() - i,
    {
        let ghost now = stacks_of(items@);
        assert(noted[i as int] == maps@[i as int]@);
        assert(found[i as int] == resolved@[i as int]@);
        let slot: usize = match find_marked(items, maps[i].marker) {
            Some(slot) => slot,
            None => {
                return false;
            },
        };
        match &resolved[i].target_and_colors {
            None => {
                let stack = restore_fallback_item(&items[slot], &maps[i]);
                let ghost put = stack@;
                items.set(slot, stack);
                assert(stacks_of(items@) =~= now.update(slot as int, put));
            },
            Some((target, _)) => {
                if next >= publication.map_ids.len() {
                    return false;
                }
                let mut stack = items[slot].copy();
                complete_map(
                    &mut stack,
                    publication.map_ids[next],
                    &publication.decorations[i],
                    *target,
                );
                let ghost put = stack@;
                items.set(slot, stack);
                assert(stacks_of(items@) =~= now.update(slot as int, put));
                next = next + 1;
            },
        }
        i = i + 1;
    }
    true
}

/// What became of a publication.
#[derive(Debug)]
pub enum PublishResult {
    /// The container is not in the state that the maps were found for.
    Stale,
    /// The items are there; those of a container that is gone are dropped.
    Published { removed: bool, dropped: Vec<ItemStack> },
}

impl Randomizable {
    /// The items with the maps that were found, and whether none was missing.
    pub open spec fn completed(
        self,
        resolved: Seq<Resolved>,
        kinds: Seq<IconKind>,
        ids: Seq<i32>,
    ) -> (Seq<Stack>, bool) {
        let pending = self.pending->Some_0;
        with_maps(pending.items, pending.maps, resolved, kinds, ids, 0, 0)
    }

    /// The preparation with a token waits for maps, and every one of them has exactly
    /// one placeholder.
    pub open spec fn awaits_maps(self, token: u64) -> bool {
        self.is_running(token) && (self.pending matches Some(pending) && markers_match(
            pending.items,
            pending.maps,
        ))
    }

    /// The container after maps were published.
    pub open spec fn with_publication(
        self,
        token: u64,
        resolved: Seq<Resolved>,
        kinds: Seq<IconKind>,
        ids: Seq<i32>,
    ) -> Randomizable {
        let (items, complete) = self.completed(resolved, kinds, ids);
        if !complete {
            Randomizable { pending: Some(Waiting { items, ..self.pending->Some_0 }), ..self }
        } else if items.len() != self.base.items.len() {
            (Randomizable {
                pending: Some(Waiting { items, ..self.pending->Some_0 }),
                ..self
            }).with_reset(token)
        } else {
            Randomizable {
                base: Storage {
                    items: if self.removed {
                        empty_slots(self.base.items.len())
                    } else {
                        items
                    },
                    ..self.base
                },
                loot_table: None,
                pending: None,
                running: None,
                ..self
            }
        }
    }

    /// The publication of maps takes effect.
    pub open spec fn accepts_publication(
        self,
        resolved: Seq<Resolved>,
        kinds: Seq<IconKind>,
        ids: Seq<i32>,
    ) -> bool {
        let (items, complete) = self.completed(resolved, kinds, ids);
        complete && items.len() == self.base.items.len()
    }
}

impl RandomizableContainer {
    /// Publishes maps that were found: puts them in the placeholders' places, and the
    /// items into the slots.
    pub fn publish_maps(
        &mut self,
        token: u64,
        resolved: &Vec<ResolvedExplorationMap>,
        publication: &PreparedPublication,
    ) -> (result: PublishResult)
        ensures
            ({
                let found = resolved_maps(resolved@);
                let kinds = kinds_of(publication.decorations@);
                let ids = publication.map_ids@;
                if !old(self)@.awaits_maps(token) {
                    result is Stale && final(self)@ == old(self)@
                } else {
                    &&& final(self)@ == old(self)@.with_publication(token, found, kinds, ids)
                    &&& if old(self)@.accepts_publication(found, kinds, ids) {
                        result matches PublishResult::Published { removed, dropped } && removed
                            == old(self)@.removed && stacks_of(dropped@) == if removed {
                            old(self)@.completed(found, kinds, ids).0
                        } else {
                            Seq::empty()
                        }
                    } else {
                        result is Stale
                    }
                }
            }),
    {
        let ghost before = self@;
        if !self.pending_markers_are_valid(token) {
            return PublishResult::Stale;
        }
        let pending = match self.pending_loot.take() {
            Some(pending) => pending,
            None => {
                return PublishResult::Stale;
            },
        };
        let mut items = pending.items;
        let maps = pending.maps;
        if !place_maps(&mut items, &maps, resolved, publication) {
            self.pending_loot = Some(PendingLoot { items, maps });
            return PublishResult::Stale;
        }
        let removed: bool = self.removed;
        match self.base.replace_items(items) {
            Ok(()) => {},
            Err(items) => {
                self.pending_loot = Some(PendingLoot { items, maps });
                self.reset_running(token);
                return PublishResult::Stale;
            },
        }
        self.loot_table = None;
        self.running_token = None;
        let dropped = if removed {
            self.base.take_items()
        } else {
            Vec::new()
        };
        assert(!removed ==> stacks_of(dropped@) =~= Seq::empty());
        PublishResult::Published { removed, dropped }
    }
}

impl ExplorationMapJob {
    /// Publishes what was found, unless the container is prepared by another job by now.
    pub fn publish(
        &self,
        container: &mut RandomizableContainer,
        registry: &Registry,
        store: &mut MapDataState,
        world: &Identifier,
        dimension_type: &Identifier,
    ) -> (result: Result<PublishResult, ExplorationError>)
        ensures
            old(store)@.well_formed() ==> final(store)@.well_formed(),
            if !old(container)@.is_running(self.token) {
                &&& result matches Ok(PublishResult::Stale)
                &&& final(container)@ == old(container)@
                &&& final(store)@ == old(store)@
            } else if !old(container)@.awaits_maps(self.token) {
                &&& result matches Err(error) && error@ == Failure::MarkersChanged
                &&& final(container)@ == old(container)@
                &&& final(store)@ == old(store)@
            } else {
                match self.prepared(registry.map_decoration_types@, world@, dimension_type@) {
                    Err(failure) => {
                        &&& result matches Err(error) && error@ == failure
                        &&& final(container)@ == old(container)@
                        &&& final(store)@ == old(store)@
                    },
                    Ok((kinds, fresh)) => match old(store)@.refusal(fresh) {
                        Some(refusal) => {
                            &&& result matches Err(error) && error@ == Failure::Allocation(refusal)
                            &&& final(container)@ == old(container)@
                            &&& final(store)@ == old(store)@
                        },
                        None => {
                            let ids = Seq::new(
                                fresh.len(),
                                |i: int| (old(store)@.last + 1 + i) as i32,
                            );
                            let found = resolved_maps(self.resolved@);
                            &&& final(store)@ == old(store)@.with_batch(fresh)
                            &&& final(container)@ == old(container)@.with_publication(
                                self.token,
                                found,
                                kinds,
                                ids,
                            )
                            &&& if old(container)@.accepts_publication(found, kinds, ids) {
                                result matches Ok(PublishResult::Published { removed, dropped })
                                    && removed == old(container)@.removed && stacks_of(dropped@)
                                    == if removed {
                                    old(container)@.completed(found, kinds, ids).0
                                } else {
                                    Seq::empty()
                                }
                            } else {
                                result matches Ok(PublishResult::Stale)
                            }
                        },
                    },
                }
            },
    {
        if !container.is_running(self.token) {
            return Ok(PublishResult::Stale);
        }
        if !container.pending_markers_are_valid(self.token) {
            return Err(ExplorationError::MarkersChanged);
        }
        let publication = match self.prepare_publication(registry, store, world, dimension_type) {
            Ok(publication) => publication,
            Err(error) => {
                return Err(error);
            },
        };
        Ok(container.publish_maps(self.token, &self.resolved, &publication))
    }

    /// Gives up: a container that is gone drops its items with the fallbacks in the
    /// placeholders' places, another one can be prepared anew.
    pub fn abandon(&self, container: &mut RandomizableContainer) -> (dropped: Vec<ItemStack>)
        ensures
            if !old(container)@.removed || !old(container)@.is_running(self.token) {
                dropped@.len() == 0 && final(container)@ == old(container)@.with_reset(self.token)
            } else {
                match old(container)@.pending {
                    Some(pending) => stacks_of(dropped@) == with_fallbacks(
                        pending.items,
                        pending.maps,
                    ) && final(container)@ == (Randomizable {
                        loot_table: None,
                        pending: None,
                        running: None,
                        ..old(container)@
                    }),
                    None => dropped@.len() == 0 && final(container)@ == (Randomizable {
                        running: None,
                        ..old(container)@
                    }),
                }
            },
    {
        if container.removed {
            container.finish_removed_as_fallback(self.token)
        } else {
            container.reset_running(self.token);
            Vec::new()
        }
    }
}

/// A search that has to be made for the current map.
#[derive(Debug)]
pub struct SearchRequest {
    pub structures: Vec<Identifier>,
    pub radius: i32,
    pub create_reference: bool,
}

/// The signed number that the low eight bits of another one are.
pub open spec fn low_byte(value: i32) -> i8 {
    ((value + 128) % 256 - 128) as i8
}

fn zoom_byte(zoom: i32) -> (byte: i8)
    ensures
        byte == low_byte(zoom),
{
    let shifted: i64 = zoom as i64 + 128 + 0x8000_0000;
    assert(shifted as int % 256 == (zoom + 128) % 256);
    (shifted % 256 - 128) as i8
}

impl ExplorationMapJob {
    pub fn new(token: u64, maps: Vec<PendingExplorationMap>) -> (job: Self)
        ensures
            job.token == token,
            job.maps == maps,
            job.current == 0,
            job.phase is Start,
            job.resolved@.len() == 0,
    {
        ExplorationMapJob {
            token,
            maps,
            current: 0,
            phase: ExplorationPhase::Start,
            resolved: Vec::new(),
        }
    }

    /// The search for the current map; none where all maps are resolved.
    pub fn begin_current_search(&mut self, registry: &Registry) -> (search: Result<
        Option<SearchRequest>,
        ExplorationError,
    >)
        ensures
            final(self).token == old(self).token,
            final(self).maps == old(self).maps,
            final(self).current == old(self).current,
            final(self).resolved == old(self).resolved,
            if old(self).current >= old(self).maps@.len() {
                search matches Ok(None) && final(self).phase is Finished
            } else {
                let request = old(self).maps@[old(self).current as int].request;
                &&& *final(self) == *old(self)
                &&& match find(registry.structure_tags@, request.destination@) {
                    Some(tag) => search matches Ok(Some(search)) && search.structures@ == tag.values@
                        && search.radius == request.search_radius && search.create_reference
                        == request.skip_existing_chunks,
                    None => search matches Err(error) && error@ == Failure::UnknownStructureTag(
                        request.destination@,
                    ),
                }
            },
    {
        if self.current >= self.maps.len() {
            self.phase = ExplorationPhase::Finished;
            return Ok(None);
        }
        let map = &self.maps[self.current];
        match by_key(&registry.structure_tags, &map.request.destination) {
            Some(tag) => Ok(
                Some(
                    SearchRequest {
                        structures: copy_ids(&tag.values),
                        radius: map.request.search_radius,
                        create_reference: map.request.skip_existing_chunks,
                    },
                ),
            ),
            None => Err(ExplorationError::UnknownStructureTag(map.request.destination.clone())),
        }
    }

    /// Begins to locate a structure for the current map. `has_random_spread` tells of
    /// the world's plan for it whether structures are spread at random; where the world
    /// has no plan, the map is resolved with none.
    pub fn search_planned(&mut self, has_random_spread: Option<bool>)
        requires
            old(self).current < old(self).maps@.len(),
            has_random_spread is Some ==> old(self).maps@[old(
                self,
            ).current as int].request.search_radius < i32::MAX,
        ensures
            final(self).token == old(self).token,
            final(self).maps == old(self).maps,
            match has_random_spread {
                Some(spread) => {
                    &&& final(self).current == old(self).current
                    &&& final(self).resolved == old(self).resolved
                    &&& final(self).phase matches ExplorationPhase::Locating(locator)
                        && locator@.sound() && locator@ == new_search(
                        old(self).maps@[old(self).current as int].request.search_radius,
                        spread,
                    )
                },
                None => {
                    &&& final(self).current == old(self).current + 1
                    &&& resolved_maps(final(self).resolved@) == resolved_maps(
                        old(self).resolved@,
                    ).push(
                        Resolved {
                            marker: old(self).maps@[old(self).current as int].marker,
                            target: None,
                        },
                    )
                    &&& if final(self).current == final(self).maps@.len() {
                        final(self).phase is Finished
                    } else {
                        final(self).phase is Start
                    }
                },
            },
    {
        match has_random_spread {
            Some(spread) => {
                let radius: i32 = self.maps[self.current].request.search_radius;
                self.phase = ExplorationPhase::Locating(StructureLocator::new(radius, spread));
            },
            None => {
                let ghost before = resolved_maps(self.resolved@);
                self.resolve_current(None);
                assert(resolved_maps(self.resolved@) =~= before.push(
                    resolved_maps(self.resolved@).last(),
                ));
            },
        }
    }

    /// Notes what was found for the current map, and goes on to the next one.
    pub fn resolve_current(&mut self, target_and_colors: Option<(BlockPos, Vec<u8>)>)
        requires
            old(self).current < old(self).maps@.len(),
        ensures
            final(self).token == old(self).token,
            final(self).maps == old(self).maps,
            final(self).current == old(self).current + 1,
            final(self).resolved@ == old(self).resolved@.push(
                ResolvedExplorationMap {
                    marker: old(self).maps@[old(self).current as int].marker,
                    target_and_colors,
                },
            ),
            if final(self).current == final(self).maps@.len() {
                final(self).phase is Finished
            } else {
                final(self).phase is Start
            },
    {
        let marker: i32 = self.maps[self.current].marker;
        self.resolved.push(ResolvedExplorationMap { marker, target_and_colors });
        assert(self.current < self.maps.len());
        self.current = self.current + 1;
        self.phase = if self.current == self.maps.len() {
            ExplorationPhase::Finished
        } else {
            ExplorationPhase::Start
        };
    }

    /// Takes in the result of a search: where a structure was found its map is
    /// rendered, and otherwise the map is resolved with none.
    pub fn located(&mut self, found: Option<LocatedStructure>) -> (result: Result<
        (),
        ExplorationError,
    >)
        ensures
            final(self).token == old(self).token,
            final(self).maps == old(self).maps,
            if old(self).current >= old(self).maps@.len() {
                &&& result matches Err(error) && error@ == Failure::RequestMissing
                &&& *final(self) == *old(self)
            } else {
                &&& result is Ok
                &&& match found {
                    Some(located) => {
                        &&& final(self).current == old(self).current
                        &&& final(self).resolved == old(self).resolved
                        &&& final(self).phase matches ExplorationPhase::Rendering {
                            target,
                            preview,
                        } && target == located.pos && preview@.complete() && renders_from(
                            preview@,
                            located.pos,
                            low_byte(old(self).maps@[old(self).current as int].request.zoom),
                        )
                    },
                    None => {
                        &&& final(self).current == old(self).current + 1
                        &&& resolved_maps(final(self).resolved@) == resolved_maps(
                            old(self).resolved@,
                        ).push(
                            Resolved {
                                marker: old(self).maps@[old(self).current as int].marker,
                                target: None,
                            },
                        )
                        &&& if final(self).current == final(self).maps@.len() {
                            final(self).phase is Finished
                        } else {
                            final(self).phase is Start
                        }
                    },
                }
            },
    {
        if self.current >= self.maps.len() {
            return Err(ExplorationError::RequestMissing);
        }
        match found {
            Some(located) => {
                let zoom: i8 = zoom_byte(self.maps[self.current].request.zoom);
                self.phase = ExplorationPhase::Rendering {
                    target: located.pos,
                    preview: BiomePreview::new(located.pos, zoom),
                };
            },
            None => {
                let ghost before = resolved_maps(self.resolved@);
                self.resolve_current(None);
                assert(resolved_maps(self.resolved@) =~= before.push(
                    resolved_maps(self.resolved@).last(),
                ));
            },
        }
        Ok(())
    }
}

impl ExplorationMapJob {
    /// Takes the preview out, to advance it.
    pub fn take_preview(&mut self) -> (preview: Option<(BlockPos, BiomePreview)>)
        ensures
            match old(self).phase {
                ExplorationPhase::Rendering { target, preview: rendered } => preview == Some(
                    (target, rendered),
                ) && *final(self) == (ExplorationMapJob {
                    phase: ExplorationPhase::Finished,
                    ..*old(self)
                }),
                _ => preview is None && *final(self) == *old(self),
            },
    {
        let mut phase = ExplorationPhase::Finished;
        std::mem::swap(&mut self.phase, &mut phase);
        match phase {
            ExplorationPhase::Rendering { target, preview } => Some((target, preview)),
            other => {
                self.phase = other;
                None
            },
        }
    }

    /// Takes in what came of advancing a preview: with its colors the current map is
    /// resolved. Tells whether it is.
    pub fn preview_polled(
        &mut self,
        target: BlockPos,
        preview: BiomePreview,
        poll: BiomePreviewPoll,
    ) -> (resolved: Result<bool, ExplorationError>)
        requires
            old(self).current < old(self).maps@.len(),
        ensures
            final(self).token == old(self).token,
            final(self).maps == old(self).maps,
            match poll {
                BiomePreviewPoll::Pending => {
                    &&& resolved matches Ok(false)
                    &&& *final(self) == (ExplorationMapJob {
                        phase: ExplorationPhase::Rendering { target, preview },
                        ..*old(self)
                    })
                },
                BiomePreviewPoll::Ready(colors) => {
                    &&& resolved matches Ok(true)
                    &&& final(self).current == old(self).current + 1
                    &&& final(self).resolved@ == old(self).resolved@.push(
                        ResolvedExplorationMap {
                            marker: old(self).maps@[old(self).current as int].marker,
                            target_and_colors: Some((target, colors)),
                        },
                    )
                    &&& if final(self).current == final(self).maps@.len() {
                        final(self).phase is Finished
                    } else {
                        final(self).phase is Start
                    }
                },
                BiomePreviewPoll::MissingBiome(pos) => {
                    &&& resolved matches Err(error) && error@ == Failure::MissingBiome(pos)
                    &&& *final(self) == *old(self)
                },
            },
    {
        match poll {
            BiomePreviewPoll::Pending => {
                self.phase = ExplorationPhase::Rendering { target, preview };
                Ok(false)
            },
            BiomePreviewPoll::Ready(colors) => {
                self.resolve_current(Some((target, colors)));
                Ok(true)
            },
            BiomePreviewPoll::MissingBiome(pos) => Err(ExplorationError::MissingBiome(pos)),
        }
    }
}

/// The preview of the map of a position has just begun.
pub open spec fn renders_from(preview: Preview, target: BlockPos, scale: i8) -> bool {
    preview == (Preview {
        scale: crate::map::pixel_side(scale) as i32,
        start_x: crate::map::biome_preview::first_pixel(target.x, scale),
        start_z: crate::map::biome_preview::first_pixel(target.z, scale),
        watery: Seq::new(crate::map::MAP_COLOR_COUNT as nat, |i: int| false),
        colors: crate::map::blank_colors(),
        phase: crate::map::biome_preview::PreviewPhase::Sampling { next_row: 0 },
    })
}

/// A copy of a list of identifiers.
fn copy_ids(ids: &Vec<Identifier>) -> (copied: Vec<Identifier>)
    ensures
        copied@ == ids@,
{
    let mut copied: Vec<Identifier> = Vec::new();
    let mut i: usize = 0;
    while i < ids.len()
        invariant
            i <= ids@.len(),
            copied@ == ids@.take(i as int),
        decreases ids@.len() - i,
    {
        copied.push(ids[i].clone());
        assert(copied@ =~= ids@.take(i + 1));
        i = i + 1;
    }
    assert(copied@ =~= ids@);
    copied
}

proof fn lemma_entry_is_listed(saved: Seq<(Seq<char>, Nbt)>, i: int)
    requires
        0 <= i < saved.len(),
        loaded_entry(saved[i].1) is Some,
    ensures
        loaded_entries(saved).contains((saved[i].0, loaded_entry(saved[i].1)->Some_0)),
    decreases saved.len(),
{
    let wanted = (saved[i].0, loaded_entry(saved[i].1)->Some_0);
    let all = loaded_entries(saved);
    if i == saved.len() - 1 {
        assert(all.last() == wanted);
    } else {
        lemma_entry_is_listed(saved.drop_last(), i);
        let before = loaded_entries(saved.drop_last());
        let j = choose|j: int| 0 <= j < before.len() && before[j] == wanted;
        assert(all[j] == wanted);
    }
}

/// A completed exploration map is carried under its number, and shows its structure.
pub proof fn law_completed_map_shows_its_structure(
    stack: Stack,
    id: i32,
    kind: IconKind,
    target: BlockPos,
)
    requires
        stack.item == vanilla_id("filled_map"@),
        id >= 0,
        kind.kind.valid(),
        kind.kind.namespace.len() > 0,
    ensures
        carried_id(mapped(stack, id, kind, target)) == Some(id),
        item_entries(
            mapped(stack, id, kind, target).component(vanilla_id("map_decorations"@)),
        ).contains(
            (
                "+"@,
                Entry {
                    kind: kind.kind,
                    x: double_bits(target.x),
                    z: double_bits(target.z),
                    rotation: 0x4334_0000,
                },
            ),
        ),
{
    reveal_strlit("map_id");
    reveal_strlit("map_decorations");
    reveal_strlit("map_color");
    assert("map_id"@.len() == 6);
    assert("map_decorations"@.len() == 15);
    assert("map_color"@.len() == 9);
    let numbered = stack.with(
        vanilla_id("map_id"@),
        number_component(ComponentKind::MapId, id),
    );
    let entries = icon_entries(numbered.component(vanilla_id("map_decorations"@)));
    let entry = target_entry(kind.kind, target);
    let after = stored(entries, "+"@, entry);
    let saved = entry->Compound_0;
    reveal_strlit("type");
    reveal_strlit("x");
    reveal_strlit("z");
    reveal_strlit("rotation");
    assert("type"@.len() == 4);
    assert("x"@.len() == 1 && "x"@[0] == 'x');
    assert("z"@.len() == 1 && "z"@[0] == 'z');
    assert("rotation"@.len() == 8);
    let s1 = saved.drop_first();
    let s2 = s1.drop_first();
    let s3 = s2.drop_first();
    assert(s1[0] == saved[1] && s2[0] == saved[2] && s3[0] == saved[3]);
    reveal_with_fuel(lookup, 5);
    law_text_is_parsed_back(kind.kind);
    assert(loaded_entry(entry) is Some);
    lemma_stored_place(entries, "+"@, entry);
    let place = choose|place: int|
        0 <= place < after.len() && #[trigger] after[place] == ("+"@, entry);
    lemma_entry_is_listed(after, place);
}

proof fn lemma_stored_place(entries: Seq<(Seq<char>, Nbt)>, name: Seq<char>, tag: Nbt)
    ensures
        exists|place: int|
            0 <= place < stored(entries, name, tag).len() && #[trigger] stored(
                entries,
                name,
                tag,
            )[place] == (name, tag),
{
    let at = entry_position(entries, name);
    lemma_position_is_natural(entries, name);
    if at < entries.len() {
        assert(stored(entries, name, tag)[at] == (name, tag));
    } else {
        assert(stored(entries, name, tag)[entries.len() as int] == (name, tag));
    }
}

proof fn lemma_position_is_natural(entries: Seq<(Seq<char>, Nbt)>, name: Seq<char>)
    ensures
        0 <= entry_position(entries, name),
    decreases entries.len(),
{
    if entries.len() > 0 && entries[0].0 != name {
        lemma_position_is_natural(entries.drop_first(), name);
    }
}

proof fn lemma_scaled(value: int)
    requires
        0 < value < 0x20_0000_0000_0000,
    ensures
        ({
            let (digits, times) = scaled(value);
            &&& 0x10_0000_0000_0000 <= digits < 0x20_0000_0000_0000
            &&& digits == value * power(times)
            &&& times <= 53
        }),
    decreases 0x20_0000_0000_0000 - value,
{
    if value < 0x10_0000_0000_0000 {
        lemma_scaled(2 * value);
        let (doubled, times) = scaled(2 * value);
        assert(power((times + 1) as nat) == 2 * power(times));
        assert((2 * value) * power(times) == value * (2 * power(times))) by (nonlinear_arith);
        if times + 1 > 53 {
            lemma_power_bound(times, 53);
            assert(power(53) == 0x20_0000_0000_0000) by {
                reveal_with_fuel(power, 54);
            }
            assert((2 * value) * power(times) >= 2 * 0x20_0000_0000_0000) by (nonlinear_arith)
                requires
                    value >= 1,
                    power(times) >= 0x20_0000_0000_0000,
            ;
        }
    } else {
        assert(power(0) == 1);
    }
}

proof fn lemma_power_bound(high: nat, low: nat)
    requires
        low <= high,
    ensures
        power(high) >= power(low) >= 1,
    decreases high,
{
    if low < high {
        lemma_power_bound((high - 1) as nat, low);
    } else if low > 0 {
        lemma_power_bound((low - 1) as nat, (low - 1) as nat);
    }
}

/// The bits of a whole number as a double floating-point number tell the number: its
/// sign in the highest bit, and in the others digits with a one before them that are the
/// number doubled as often as the exponent is below 1075.
pub proof fn law_bits_tell_the_number(value: i32)
    requires
        value != 0,
    ensures
        ({
            let bits = double_bits(value) as int;
            let exponent = (bits / 0x10_0000_0000_0000) % 2048;
            let digits = bits % 0x10_0000_0000_0000 + 0x10_0000_0000_0000;
            let size = if value < 0 {
                -value as int
            } else {
                value as int
            };
            &&& exponent <= 1075
            &&& digits == size * power((1075 - exponent) as nat)
            &&& bits >= 0x8000_0000_0000_0000 <==> value < 0
        }),
{
    let size = if value < 0 {
        -value as int
    } else {
        value as int
    };
    lemma_scaled(size);
    let (digits, times) = scaled(size);
    let low = digits - 0x10_0000_0000_0000;
    let bits = (if value < 0 {
        0x8000_0000_0000_0000int
    } else {
        0
    }) + (1075 - times) * 0x10_0000_0000_0000 + low;
    assert(0 <= bits <= u64::MAX);
    assert(double_bits(value) == bits);
    assert(bits % 0x10_0000_0000_0000 == low);
    assert((bits / 0x10_0000_0000_0000) % 2048 == 1075 - times);
}

/// How many of the first maps a structure was found for.
pub open spec fn found_before(resolved: Seq<Resolved>, count: int) -> int
    decreases count,
{
    if count <= 0 {
        0
    } else {
        found_before(resolved, count - 1) + if resolved[count - 1].target is Some {
            1int
        } else {
            0
        }
    }
}

proof fn lemma_found_after_first(resolved: Seq<Resolved>, count: int)
    requires
        1 <= count <= resolved.len(),
    ensures
        found_before(resolved, count) == found_before(resolved.drop_first(), count - 1)
            + if resolved[0].target is Some {
            1int
        } else {
            0
        },
        found_before(resolved, count) >= 0,
        found_before(resolved, count - 1) >= 0,
    decreases count,
{
    if count > 1 {
        lemma_found_after_first(resolved, count - 1);
        assert(resolved.drop_first()[count - 2] == resolved[count - 1]);
    } else {
        assert(found_before(resolved, 0) == 0);
        assert(found_before(resolved.drop_first(), 0) == 0);
    }
}

proof fn lemma_prepared(
    maps: Seq<Awaited>,
    resolved: Seq<Resolved>,
    types: Seq<MapDecorationType>,
    world: Id,
    dimension: Id,
    kinds: Seq<IconKind>,
    fresh: Seq<NewMap>,
)
    requires
        maps.len() == resolved.len(),
        prepared(maps, resolved, types, world, dimension, kinds, fresh) is Ok,
    ensures
        ({
            let (more, all) = prepared(maps, resolved, types, world, dimension, kinds, fresh)->Ok_0;
            &&& more.len() == kinds.len() + maps.len()
            &&& all.len() == fresh.len() + found_before(resolved, resolved.len() as int)
            &&& forall|j: int| 0 <= j < fresh.len() ==> #[trigger] all[j] == fresh[j]
            &&& forall|j: int| 0 <= j < kinds.len() ==> #[trigger] more[j] == kinds[j]
            &&& forall|i: int|
                0 <= i < maps.len() ==> (#[trigger] maps[i]).marker == resolved[i].marker && more[kinds.len()
                    + i].kind == maps[i].request.decoration
            &&& forall|i: int|
                0 <= i < maps.len() ==> ((#[trigger] resolved[i]).target matches Some((target, colors))
                    ==> {
                    let made = all[fresh.len() + found_before(resolved, i)];
                    &&& made.origin == target
                    &&& made.colors == colors
                    &&& made.scale == maps[i].request.zoom
                    &&& made.world == world
                    &&& made.dimension_type == dimension
                    &&& made.tracking_position && made.unlimited_tracking
                })
        }),
    decreases maps.len(),
{
    if maps.len() == 0 {
        assert(found_before(resolved, 0) == 0);
    } else {
        let request = maps[0].request;
        let kind = find(types, request.decoration)->Some_0;
        crate::keyed::lemma_find(types, request.decoration);
        let named = kinds.push(IconKind { kind: kind.key@, color: kind.map_color });
        let made = match resolved[0].target {
            Some((target, colors)) => fresh.push(
                explored_map(target, colors, request.zoom, world, dimension),
            ),
            None => fresh,
        };
        let rest = maps.drop_first();
        let left = resolved.drop_first();
        lemma_prepared(rest, left, types, world, dimension, named, made);
        let (more, all) = prepared(maps, resolved, types, world, dimension, kinds, fresh)->Ok_0;
        assert(prepared(rest, left, types, world, dimension, named, made) == Ok::<
            (Seq<IconKind>, Seq<NewMap>),
            Failure,
        >((more, all)));
        lemma_found_after_first(resolved, resolved.len() as int);
        assert forall|j: int| 0 <= j < fresh.len() implies #[trigger] all[j] == fresh[j] by {
            assert(made[j] == fresh[j]);
        }
        assert forall|j: int| 0 <= j < kinds.len() implies #[trigger] more[j] == kinds[j] by {
            assert(named[j] == kinds[j]);
        }
        assert forall|i: int| 0 <= i < maps.len() implies (#[trigger] maps[i]).marker
            == resolved[i].marker && more[kinds.len() + i].kind == maps[i].request.decoration by {
            if i > 0 {
                assert(rest[i - 1] == maps[i]);
                assert(left[i - 1] == resolved[i]);
                assert(kinds.len() + i == named.len() + (i - 1));
            } else {
                assert(more[kinds.len() as int] == named[kinds.len() as int]);
            }
        }
        assert forall|i: int| 0 <= i < maps.len() implies ((#[trigger] resolved[i]).target matches Some(
            (target, colors),
        ) ==> {
            let one = all[fresh.len() + found_before(resolved, i)];
            &&& one.origin == target
            &&& one.colors == colors
            &&& one.scale == maps[i].request.zoom
            &&& one.world == world
            &&& one.dimension_type == dimension
            &&& one.tracking_position && one.unlimited_tracking
        }) by {
            if i > 0 {
                assert(rest[i - 1] == maps[i]);
                assert(left[i - 1] == resolved[i]);
                lemma_found_after_first(resolved, i);
                assert(fresh.len() + found_before(resolved, i) == made.len() + found_before(
                    left,
                    i - 1,
                ));
            } else if resolved[0].target is Some {
                assert(found_before(resolved, 0) == 0);
                assert(all[fresh.len() as int] == made[fresh.len() as int]);
            }
        }
    }
}

/// Exactly one fresh map is made for each structure that was found, in the order of the
/// maps that wait: it shows that structure, at the scale that was asked for, with the
/// colors that were rendered for it, and tracks without a limit. Each map has an icon of
/// the kind that was asked for.
pub proof fn law_each_found_structure_gets_its_map(
    maps: Seq<Awaited>,
    resolved: Seq<Resolved>,
    types: Seq<MapDecorationType>,
    world: Id,
    dimension: Id,
    i: int,
)
    requires
        maps.len() == resolved.len(),
        prepared(maps, resolved, types, world, dimension, Seq::empty(), Seq::empty()) is Ok,
        0 <= i < maps.len(),
    ensures
        ({
            let (kinds, fresh) = prepared(
                maps,
                resolved,
                types,
                world,
                dimension,
                Seq::empty(),
                Seq::empty(),
            )->Ok_0;
            &&& kinds.len() == maps.len()
            &&& kinds[i].kind == maps[i].request.decoration
            &&& fresh.len() == found_before(resolved, resolved.len() as int)
            &&& maps[i].marker == resolved[i].marker
            &&& resolved[i].target matches Some((target, colors)) ==> {
                let made = fresh[found_before(resolved, i)];
                &&& made.origin == target
                &&& made.colors == colors
                &&& made.scale == maps[i].request.zoom
                &&& made.world == world
                &&& made.tracking_position && made.unlimited_tracking
            }
        }),
{
    let kinds = Seq::<IconKind>::empty();
    let fresh = Seq::<NewMap>::empty();
    lemma_prepared(maps, resolved, types, world, dimension, kinds, fresh);
    let (more, all) = prepared(maps, resolved, types, world, dimension, kinds, fresh)->Ok_0;
    assert(maps[i].marker == resolved[i].marker);
    assert(kinds.len() + i == i);
    assert(fresh.len() + found_before(resolved, i) == found_before(resolved, i));
}

proof fn lemma_marked_place(items: Seq<Stack>, marker: i32)
    ensures
        ({
            let place = marked_place(items, marker);
            &&& 0 <= place <= items.len()
            &&& place < items.len() ==> marked(items[place], marker)
        }),
    decreases items.len(),
{
    if items.len() > 0 && !marked(items[0], marker) {
        lemma_marked_place(items.drop_first(), marker);
    }
}

/// Completing maps puts something else only in the places of their placeholders: every
/// other item stays, and no place is added or lost.
pub proof fn law_maps_take_the_place_of_placeholders(
    items: Seq<Stack>,
    maps: Seq<Awaited>,
    resolved: Seq<Resolved>,
    kinds: Seq<IconKind>,
    ids: Seq<i32>,
    i: nat,
    next: nat,
    at: int,
)
    requires
        0 <= at < items.len(),
        forall|j: int| i <= j < maps.len() ==> !marked(items[at], (#[trigger] maps[j]).marker),
    ensures
        with_maps(items, maps, resolved, kinds, ids, i, next).0.len() == items.len(),
        with_maps(items, maps, resolved, kinds, ids, i, next).0[at] == items[at],
    decreases maps.len() - i,
{
    if i < maps.len() && i < resolved.len() && i < kinds.len() {
        let place = marked_place(items, maps[i as int].marker);
        lemma_marked_place(items, maps[i as int].marker);
        if place < items.len() {
            assert(place != at);
            match resolved[i as int].target {
                None => {
                    let put = items.update(place, restored(items[place], maps[i as int].fallback));
                    law_maps_take_the_place_of_placeholders(
                        put,
                        maps,
                        resolved,
                        kinds,
                        ids,
                        i + 1,
                        next,
                        at,
                    );
                },
                Some((target, _)) => {
                    if next < ids.len() {
                        let put = items.update(
                            place,
                            mapped(items[place], ids[next as int], kinds[i as int], target),
                        );
                        law_maps_take_the_place_of_placeholders(
                            put,
                            maps,
                            resolved,
                            kinds,
                            ids,
                            i + 1,
                            next + 1,
                            at,
                        );
                    }
                },
            }
        }
    }
}

/// Where no structure was found, the item that was there before the placeholder comes
/// back: the same item and count, with the changes that were made to the placeholder
/// meanwhile, but without its marker.
pub proof fn law_fallback_comes_back(placeholder: Stack, fallback: Stack, id: Id)
    ensures
        ({
            let back = restored(placeholder, fallback);
            let marker = vanilla_id("map_id"@);
            &&& back.item == fallback.item
            &&& back.count == fallback.count
            &&& back.component(marker) == fallback.component(marker)
            &&& id != marker && placeholder.patch.contains_key(id) ==> back.patch.contains_key(id)
                && back.patch[id] == placeholder.patch[id]
            &&& id != marker && !placeholder.patch.contains_key(id) ==> back.component(id)
                == fallback.component(id)
        }),
{
}

/// A container whose maps were published has its loot for good: nothing waits any more.
/// One that is gone keeps none of the items, and any other keeps them all.
pub proof fn law_publication_ends_the_wait(
    container: Randomizable,
    token: u64,
    resolved: Seq<Resolved>,
    kinds: Seq<IconKind>,
    ids: Seq<i32>,
)
    requires
        container.accepts_publication(resolved, kinds, ids),
    ensures
        ({
            let after = container.with_publication(token, resolved, kinds, ids);
            let items = container.completed(resolved, kinds, ids).0;
            &&& after.loot_table is None
            &&& after.pending is None
            &&& after.running is None
            &&& after.base.items.len() == container.base.items.len()
            &&& !container.removed ==> after.base.items == items
            &&& container.removed ==> forall|i: int|
                0 <= i < after.base.items.len() ==> (#[trigger] after.base.items[i]).is_empty()
            &&& after.base.custom_name == container.base.custom_name
            &&& after.base.lock == container.base.lock
        }),
{
}

} // verus!
